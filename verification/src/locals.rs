//! Sets of local slots: their elements in increasing order, and the set
//! operations the analysis needs beyond those of `BTreeSet`.
use vstd::prelude::*;
use std::collections::BTreeSet;
use crate::sorting::{insert_sorted, lemma_insert_sorted_sorted, lemma_insert_sorted_is_insert, sorted_by, strict_order};
use vstd::std_specs::iter::IteratorSpec;
use vstd::std_specs::cmp::OrdSpec;

verus! {

/// `s` is strictly increasing.
pub open spec fn ascending_seq(s: Seq<u32>) -> bool {
    forall|i: int, j: int| 0 <= i < j < s.len() ==> s[i] < s[j]
}

/// The elements of a finite set of locals, in increasing order.
pub open spec fn ascending(s: Set<u32>) -> Seq<u32> {
    choose|q: Seq<u32>| ascending_seq(q) && q.to_set() == s
}

/// Two increasing sequences with the same elements are the same sequence.
pub proof fn lemma_ascending_unique(a: Seq<u32>, b: Seq<u32>)
    requires
        ascending_seq(a),
        ascending_seq(b),
        a.to_set() == b.to_set(),
    ensures
        a == b,
    decreases a.len() + b.len(),
{
    if a.len() == 0 {
        if b.len() > 0 {
            assert(b.to_set().contains(b[0]));
        }
        assert(a =~= b);
    } else if b.len() == 0 {
        assert(a.to_set().contains(a[0]));
    } else {
        assert(a.to_set().contains(b[0]));
        assert(b.to_set().contains(a[0]));
        let i = choose|i: int| 0 <= i < a.len() && a[i] == b[0];
        let j = choose|j: int| 0 <= j < b.len() && b[j] == a[0];
        assert(a[0] == b[0]) by {
            if a[0] < b[0] {
                assert(b[0] <= b[j]);
            } else if b[0] < a[0] {
                assert(a[0] <= a[i]);
            }
        }
        let a1 = a.drop_first();
        let b1 = b.drop_first();
        assert forall|x: u32| a1.to_set().contains(x) implies b1.to_set().contains(x) by {
            let k = choose|k: int| 0 <= k < a1.len() && a1[k] == x;
            assert(a.to_set().contains(x) && a[k + 1] == x);
            let m = choose|m: int| 0 <= m < b.len() && b[m] == x;
            assert(m != 0);
            assert(b1[m - 1] == x);
        }
        assert forall|x: u32| b1.to_set().contains(x) implies a1.to_set().contains(x) by {
            let k = choose|k: int| 0 <= k < b1.len() && b1[k] == x;
            assert(b.to_set().contains(x) && b[k + 1] == x);
            let m = choose|m: int| 0 <= m < a.len() && a[m] == x;
            assert(m != 0);
            assert(a1[m - 1] == x);
        }
        assert(a1.to_set() =~= b1.to_set());
        lemma_ascending_unique(a1, b1);
        assert(a =~= b) by {
            assert forall|k: int| 0 <= k < a.len() implies a[k] == b[k] by {
                if k > 0 {
                    assert(a[k] == a1[k - 1]);
                    assert(b[k] == b1[k - 1]);
                }
            }
        }
    }
}

/// An increasing sequence lists exactly `ascending` of its elements.
pub proof fn lemma_ascending_of(q: Seq<u32>)
    requires
        ascending_seq(q),
    ensures
        ascending(q.to_set()) == q,
{
    let c = ascending(q.to_set());
    assert(ascending_seq(q) && q.to_set() == q.to_set());
    lemma_ascending_unique(c, q);
}

/// Every finite set of locals can be listed in increasing order, and
/// `ascending` so lists it.
pub proof fn lemma_ascending_exists(s: Set<u32>)
    requires
        s.finite(),
    ensures
        ascending_seq(ascending(s)),
        ascending(s).to_set() == s,
    decreases s.len(),
{
    let lt = |a: u32, b: u32| a < b;
    if s.len() == 0 {
        let q = Seq::<u32>::empty();
        assert(q.to_set() =~= s);
        assert(ascending_seq(q) && q.to_set() == s);
    } else {
        let x = s.choose();
        let s1 = s.remove(x);
        lemma_ascending_exists(s1);
        let q1 = ascending(s1);
        assert(strict_order(lt));
        assert(sorted_by(q1, lt));
        lemma_insert_sorted_sorted(q1, x, lt);
        lemma_insert_sorted_is_insert(q1, x, lt);
        let q = insert_sorted(q1, x, lt);
        let p = choose|p: int| 0 <= p <= q1.len() && q == q1.insert(p, x);
        assert(!q1.to_set().contains(x));
        assert forall|y: u32| q.to_set().contains(y) <==> s.contains(y) by {
            if q.to_set().contains(y) {
                let i = choose|i: int| 0 <= i < q.len() && q[i] == y;
                if i < p {
                    assert(q1[i] == y);
                    assert(q1.to_set().contains(y));
                } else if i > p {
                    assert(q1[i - 1] == y);
                    assert(q1.to_set().contains(y));
                }
            }
            if s.contains(y) {
                if y == x {
                    assert(q[p] == x);
                } else {
                    assert(q1.to_set().contains(y));
                    let i = choose|i: int| 0 <= i < q1.len() && q1[i] == y;
                    if i < p {
                        assert(q[i] == y);
                    } else {
                        assert(q[i + 1] == y);
                    }
                }
            }
        }
        assert(q.to_set() =~= s);
        assert forall|i: int, j: int| 0 <= i < j < q.len() implies q[i] < q[j] by {
            assert(!lt(q[j], q[i]));
            if q[i] == q[j] {
                if i == p {
                    assert(q1.to_set().contains(q[j])) by {
                        assert(q[j] == q1[j - 1]);
                    }
                } else if j == p {
                    if i < p {
                        assert(q[i] == q1[i]);
                        assert(q1.to_set().contains(q[i]));
                    }
                } else {
                    let a = if i < p { i } else { i - 1 };
                    let b = if j < p { j } else { j - 1 };
                    assert(q[i] == q1[a] && q[j] == q1[b] && a < b);
                }
            }
        }
        assert(ascending_seq(q) && q.to_set() == s);
    }
    let c = ascending(s);
    assert(ascending_seq(c) && c.to_set() == s);
}

/// Adds every element of `src` to `dst`.
pub fn union_into(dst: &mut BTreeSet<u32>, src: &BTreeSet<u32>)
    ensures
        final(dst)@ == old(dst)@.union(src@),
{
    let ghost d0 = dst@;
    for x in it: src.iter()
        invariant
            dst@ == d0.union(it.seq().take(it.index() as int).unref().to_set()),
            it.seq().unref().to_set() == src@,
            it.index() == it.seq().len() ==> dst@ == d0.union(src@),
    {
        let ghost i = it.index();
        assert(it.seq()[i as int] == x);
        assert(it.seq().take(i + 1).unref() =~= it.seq().take(i as int).unref().push(*x));
        dst.insert(*x);
        proof { it.seq().take(i as int).unref().lemma_push_to_set_commute(*x); }
        assert(dst@ =~= d0.union(it.seq().take(i + 1).unref().to_set()));
        assert(it.seq().take(it.seq().len() as int) =~= it.seq());
    }
}

/// Keys in increasing order of comparison are strictly increasing numbers.
proof fn lemma_increasing_refs(s: Seq<&u32>)
    requires
        vstd::std_specs::btree::increasing_seq(s),
    ensures
        ascending_seq(s.unref()),
{
    assert(vstd::laws_cmp::obeys_cmp::<&u32>());
    vstd::std_specs::btree::axiom_increasing_seq_meaning(s);
    assert forall|i: int, j: int| 0 <= i < j < s.unref().len() implies s.unref()[i] < s.unref()[j] by {
        assert(OrdSpec::cmp_spec(&s[i], &s[j]) is Less);
    }
}

/// The elements of `live`, in increasing order.
pub fn listed(live: &BTreeSet<u32>) -> (h: Vec<u32>)
    ensures
        h@ == ascending(live@),
        ascending_seq(h@),
        h@.to_set() == live@,
{
    let mut h: Vec<u32> = Vec::new();
    proof {
        let q = vstd::std_specs::btree::spec_btree_keys_iter(live).remaining();
        lemma_increasing_refs(q);
        lemma_ascending_of(q.unref());
        assert(q.take(q.len() as int) =~= q);
    }
    let ghost q = vstd::std_specs::btree::spec_btree_keys_iter(live).remaining().unref();
    for x in it: live.iter()
        invariant
            h@ == it.seq().take(it.index() as int).unref(),
            it.seq() == vstd::std_specs::btree::spec_btree_keys_iter(live).remaining(),
            ascending(live@) == it.seq().unref(),
            it.seq().unref() == q,
            ascending_seq(q),
            q.to_set() == live@,
    {
        h.push(*x);
        assert(h@ =~= it.seq().take(it.index() + 1).unref());
    }
    h
}

/// Whether two sets hold the same elements.
pub fn same_set(a: &BTreeSet<u32>, b: &BTreeSet<u32>) -> (r: bool)
    ensures
        r == (a@ == b@),
{
    let la = listed(a);
    let lb = listed(b);
    if la.len() != lb.len() {
        return false;
    }
    let mut i: usize = 0;
    while i < la.len()
        invariant
            la@ == ascending(a@),
            lb@ == ascending(b@),
            la@.len() == lb@.len(),
            i <= la@.len(),
            forall|k: int| 0 <= k < i ==> la@[k] == lb@[k],
        decreases la@.len() - i,
    {
        if la[i] != lb[i] {
            return false;
        }
        i = i + 1;
    }
    assert(la@ =~= lb@);
    true
}

} // verus!
