//! Stable insertion into a sorted sequence, and the lexicographic order on text.
use vstd::prelude::*;

verus! {

/// Inserts `x` before the first element that `x` sorts strictly before.
pub open spec fn insert_sorted<T>(q: Seq<T>, x: T, lt: spec_fn(T, T) -> bool) -> Seq<T>
    decreases q.len(),
{
    if q.len() == 0 {
        seq![x]
    } else if lt(x, q[0]) {
        seq![x] + q
    } else {
        seq![q[0]] + insert_sorted(q.drop_first(), x, lt)
    }
}

/// Stable sort by `lt`: each element goes after every earlier element it does not sort before.
pub open spec fn sort_by<T>(s: Seq<T>, lt: spec_fn(T, T) -> bool) -> Seq<T>
    decreases s.len(),
{
    if s.len() == 0 {
        s
    } else {
        insert_sorted(sort_by(s.drop_last(), lt), s.last(), lt)
    }
}

/// Inserting at the first position where `x` sorts strictly before the element is `insert_sorted`.
pub proof fn lemma_insert_at_first_greater<T>(q: Seq<T>, x: T, lt: spec_fn(T, T) -> bool, p: int)
    requires
        0 <= p <= q.len(),
        forall|k: int| 0 <= k < p ==> !lt(x, #[trigger] q[k]),
        p < q.len() ==> lt(x, q[p]),
    ensures
        q.insert(p, x) == insert_sorted(q, x, lt),
    decreases q.len(),
{
    if q.len() == 0 {
        assert(q.insert(p, x) =~= seq![x]);
    } else if p == 0 {
        assert(q.insert(p, x) =~= seq![x] + q);
    } else {
        assert(!lt(x, q[0]));
        let q1 = q.drop_first();
        assert forall|k: int| 0 <= k < p - 1 implies !lt(x, #[trigger] q1[k]) by {
            assert(q1[k] == q[k + 1]);
        }
        lemma_insert_at_first_greater(q1, x, lt, p - 1);
        assert(q.insert(p, x) =~= seq![q[0]] + q1.insert(p - 1, x));
    }
}

/// Lexicographic order on character sequences, comparing characters by code point.
/// On UTF-8 strings this is the order of their bytes.
pub open spec fn seq_lt(a: Seq<char>, b: Seq<char>) -> bool
    decreases a.len(),
{
    if a.len() == 0 {
        b.len() > 0
    } else if b.len() == 0 {
        false
    } else if a[0] != b[0] {
        (a[0] as int) < (b[0] as int)
    } else {
        seq_lt(a.drop_first(), b.drop_first())
    }
}

proof fn lemma_seq_lt_skip(a: Seq<char>, b: Seq<char>, i: int)
    requires
        0 <= i <= a.len(),
        i <= b.len(),
        forall|k: int| 0 <= k < i ==> a[k] == b[k],
    ensures
        seq_lt(a, b) == seq_lt(a.skip(i), b.skip(i)),
    decreases i,
{
    if i > 0 {
        assert(a[0] == b[0]);
        lemma_seq_lt_skip(a.drop_first(), b.drop_first(), i - 1);
        assert(a.drop_first().skip(i - 1) =~= a.skip(i));
        assert(b.drop_first().skip(i - 1) =~= b.skip(i));
    } else {
        assert(a.skip(0) =~= a);
        assert(b.skip(0) =~= b);
    }
}

/// The characters of `s`.
pub fn chars_of(s: &str) -> (v: Vec<char>)
    ensures
        v@ == s@,
{
    let mut v: Vec<char> = Vec::new();
    for c in it: s.chars()
        invariant
            it.seq() == s@,
            v@ == s@.take(it.index()),
    {
        v.push(c);
    }
    assert(v@ =~= s@);
    v
}

/// Whether `a` sorts strictly before `b`.
pub fn str_lt(a: &str, b: &str) -> (r: bool)
    ensures
        r == seq_lt(a@, b@),
{
    let x = chars_of(a);
    let y = chars_of(b);
    let mut i: usize = 0;
    while i < x.len() && i < y.len() && x[i] == y[i]
        invariant
            i <= x@.len(),
            i <= y@.len(),
            forall|k: int| 0 <= k < i ==> x@[k] == y@[k],
        decreases x@.len() - i,
    {
        i = i + 1;
    }
    proof {
        lemma_seq_lt_skip(x@, y@, i as int);
    }
    if i == x.len() {
        i < y.len()
    } else if i == y.len() {
        false
    } else {
        x[i] < y[i]
    }
}

/// `lt` is a strict order: irreflexive and transitive.
pub open spec fn strict_order<T>(lt: spec_fn(T, T) -> bool) -> bool {
    &&& forall|a: T| !#[trigger] lt(a, a)
    &&& forall|a: T, b: T, c: T| #[trigger] lt(a, b) && #[trigger] lt(b, c) ==> lt(a, c)
}

/// No element sorts strictly before an element that precedes it.
pub open spec fn sorted_by<T>(q: Seq<T>, lt: spec_fn(T, T) -> bool) -> bool {
    forall|i: int, j: int| 0 <= i < j < q.len() ==> !lt(#[trigger] q[j], #[trigger] q[i])
}

/// `insert_sorted` puts `x` somewhere in `q` and keeps the rest in order.
pub proof fn lemma_insert_sorted_is_insert<T>(q: Seq<T>, x: T, lt: spec_fn(T, T) -> bool)
    ensures
        exists|p: int| 0 <= p <= q.len() && insert_sorted(q, x, lt) == q.insert(p, x),
    decreases q.len(),
{
    if q.len() == 0 {
        assert(insert_sorted(q, x, lt) =~= q.insert(0, x));
    } else if lt(x, q[0]) {
        assert(insert_sorted(q, x, lt) =~= q.insert(0, x));
    } else {
        let q1 = q.drop_first();
        lemma_insert_sorted_is_insert(q1, x, lt);
        let p = choose|p: int| 0 <= p <= q1.len() && insert_sorted(q1, x, lt) == q1.insert(p, x);
        assert(insert_sorted(q, x, lt) =~= q.insert(p + 1, x));
    }
}

pub proof fn lemma_insert_sorted_sorted<T>(q: Seq<T>, x: T, lt: spec_fn(T, T) -> bool)
    requires
        strict_order(lt),
        sorted_by(q, lt),
    ensures
        sorted_by(insert_sorted(q, x, lt), lt),
    decreases q.len(),
{
    let r = insert_sorted(q, x, lt);
    if q.len() == 0 {
    } else if lt(x, q[0]) {
        assert forall|i: int, j: int| 0 <= i < j < r.len() implies !lt(#[trigger] r[j], #[trigger] r[i]) by {
            if i == 0 {
                assert(r[j] == q[j - 1]);
                if lt(q[j - 1], x) {
                    assert(lt(q[j - 1], q[0]));
                    if j - 1 > 0 {
                        assert(!lt(q[j - 1], q[0]));
                    }
                }
            } else {
                assert(r[i] == q[i - 1] && r[j] == q[j - 1]);
            }
        }
    } else {
        let q1 = q.drop_first();
        assert(sorted_by(q1, lt)) by {
            assert forall|i: int, j: int| 0 <= i < j < q1.len() implies !lt(#[trigger] q1[j], #[trigger] q1[i]) by {
                assert(q1[i] == q[i + 1] && q1[j] == q[j + 1]);
            }
        }
        lemma_insert_sorted_sorted(q1, x, lt);
        lemma_insert_sorted_is_insert(q1, x, lt);
        let r1 = insert_sorted(q1, x, lt);
        let p = choose|p: int| 0 <= p <= q1.len() && r1 == q1.insert(p, x);
        assert forall|i: int, j: int| 0 <= i < j < r.len() implies !lt(#[trigger] r[j], #[trigger] r[i]) by {
            if i == 0 {
                assert(r[i] == q[0]);
                assert(r[j] == r1[j - 1]);
                if j - 1 < p {
                    assert(r1[j - 1] == q1[j - 1]);
                    assert(q1[j - 1] == q[j]);
                } else if j - 1 > p {
                    assert(r1[j - 1] == q1[j - 2]);
                    assert(q1[j - 2] == q[j - 1]);
                }
            } else {
                assert(r[i] == r1[i - 1] && r[j] == r1[j - 1]);
            }
        }
    }
}

/// A sort by a strict order is sorted and holds exactly the elements it was given.
pub proof fn lemma_sort_by_sorted<T>(s: Seq<T>, lt: spec_fn(T, T) -> bool)
    requires
        strict_order(lt),
    ensures
        sorted_by(sort_by(s, lt), lt),
        sort_by(s, lt).to_multiset() == s.to_multiset(),
    decreases s.len(),
{
    broadcast use vstd::seq_lib::group_to_multiset_ensures;
    if s.len() > 0 {
        let r = sort_by(s.drop_last(), lt);
        lemma_sort_by_sorted(s.drop_last(), lt);
        lemma_insert_sorted_sorted(r, s.last(), lt);
        lemma_insert_sorted_is_insert(r, s.last(), lt);
        let p = choose|p: int| 0 <= p <= r.len() && insert_sorted(r, s.last(), lt) == r.insert(p, s.last());
        vstd::seq_lib::to_multiset_insert(r, p, s.last());
        assert(s.drop_last().push(s.last()) =~= s);
        vstd::seq_lib::to_multiset_build(s.drop_last(), s.last());
    } else {
        assert(s.to_multiset() =~= vstd::multiset::Multiset::empty());
    }
}

pub proof fn lemma_seq_lt_irreflexive(a: Seq<char>)
    ensures
        !seq_lt(a, a),
    decreases a.len(),
{
    if a.len() > 0 {
        lemma_seq_lt_irreflexive(a.drop_first());
    }
}

pub proof fn lemma_seq_lt_transitive(a: Seq<char>, b: Seq<char>, c: Seq<char>)
    requires
        seq_lt(a, b),
        seq_lt(b, c),
    ensures
        seq_lt(a, c),
    decreases a.len(),
{
    if a.len() > 0 && b.len() > 0 && c.len() > 0 && a[0] == b[0] && b[0] == c[0] {
        lemma_seq_lt_transitive(a.drop_first(), b.drop_first(), c.drop_first());
    }
}

/// Any two different character sequences are ordered one way or the other.
pub proof fn lemma_seq_lt_total(a: Seq<char>, b: Seq<char>)
    requires
        a != b,
    ensures
        seq_lt(a, b) || seq_lt(b, a),
    decreases a.len(),
{
    if a.len() > 0 && b.len() > 0 && a[0] == b[0] {
        if a.drop_first() == b.drop_first() {
            assert(a =~= seq![a[0]] + a.drop_first());
            assert(b =~= seq![b[0]] + b.drop_first());
        }
        lemma_seq_lt_total(a.drop_first(), b.drop_first());
    } else if a.len() == 0 && b.len() == 0 {
        assert(a =~= b);
    } else if a.len() > 0 && b.len() > 0 {
        assert((a[0] as int) != (b[0] as int));
    }
}

/// `lt` is a strict weak order: a strict order whose incomparability is transitive
/// (if `a` sorts before `b`, any `c` sorts after `a` or before `b`).
pub open spec fn weak_order<T>(lt: spec_fn(T, T) -> bool) -> bool {
    &&& strict_order(lt)
    &&& forall|a: T, b: T, c: T| #[trigger] lt(a, b) ==> lt(a, c) || #[trigger] lt(c, b)
}

/// Inserts the elements of `y`, first to last, into `q`.
pub open spec fn insert_all<T>(q: Seq<T>, y: Seq<T>, lt: spec_fn(T, T) -> bool) -> Seq<T>
    decreases y.len(),
{
    if y.len() == 0 {
        q
    } else {
        insert_sorted(insert_all(q, y.drop_last(), lt), y.last(), lt)
    }
}

proof fn lemma_insert_all_concat<T>(q: Seq<T>, a: Seq<T>, b: Seq<T>, lt: spec_fn(T, T) -> bool)
    ensures
        insert_all(q, a + b, lt) == insert_all(insert_all(q, a, lt), b, lt),
    decreases b.len(),
{
    if b.len() == 0 {
        assert(a + b =~= a);
    } else {
        assert((a + b).drop_last() =~= a + b.drop_last());
        assert((a + b).last() == b.last());
        lemma_insert_all_concat(q, a, b.drop_last(), lt);
    }
}

proof fn lemma_sort_is_insert_all<T>(x: Seq<T>, y: Seq<T>, lt: spec_fn(T, T) -> bool)
    ensures
        sort_by(x + y, lt) == insert_all(sort_by(x, lt), y, lt),
    decreases y.len(),
{
    if y.len() == 0 {
        assert(x + y =~= x);
    } else {
        assert((x + y).drop_last() =~= x + y.drop_last());
        assert((x + y).last() == y.last());
        lemma_sort_is_insert_all(x, y.drop_last(), lt);
    }
}

/// Two insertions commute when the later element sorts strictly before the earlier.
proof fn lemma_insert_swap<T>(r: Seq<T>, a: T, b: T, lt: spec_fn(T, T) -> bool)
    requires
        strict_order(lt),
        lt(b, a),
    ensures
        insert_sorted(insert_sorted(r, a, lt), b, lt) == insert_sorted(insert_sorted(r, b, lt), a, lt),
    decreases r.len(),
{
    assert(!lt(a, b)) by {
        if lt(a, b) {
            assert(lt(a, a));
        }
    }
    if r.len() == 0 {
        assert(insert_sorted(seq![a], b, lt) =~= seq![b, a]);
        assert(seq![b].drop_first() =~= Seq::<T>::empty());
        assert(insert_sorted(seq![b], a, lt) =~= seq![b] + insert_sorted(Seq::<T>::empty(), a, lt));
        assert(seq![b] + seq![a] =~= seq![b, a]);
    } else {
        let e = r[0];
        let r1 = r.drop_first();
        if lt(a, e) {
            assert(lt(b, e));
            assert(insert_sorted(r, a, lt) == seq![a] + r);
            assert((seq![a] + r)[0] == a);
            assert((seq![b] + r)[0] == b);
            assert((seq![a] + r).drop_first() =~= r);
            assert((seq![b] + r).drop_first() =~= r);
            assert(seq![b] + (seq![a] + r) =~= seq![b] + insert_sorted(r, a, lt));
        } else {
            assert(insert_sorted(r, a, lt) == seq![e] + insert_sorted(r1, a, lt));
            let ra = seq![e] + insert_sorted(r1, a, lt);
            assert(ra[0] == e);
            assert(ra.drop_first() =~= insert_sorted(r1, a, lt));
            if lt(b, e) {
                assert((seq![b] + r)[0] == b);
                assert((seq![b] + r).drop_first() =~= r);
                assert(seq![b] + ra =~= seq![b] + insert_sorted(r, a, lt));
            } else {
                let rb = seq![e] + insert_sorted(r1, b, lt);
                assert(rb[0] == e);
                assert(rb.drop_first() =~= insert_sorted(r1, b, lt));
                lemma_insert_swap(r1, a, b, lt);
            }
        }
    }
}

/// Inserting `z` and then elements that all sort after it is inserting `z` last.
proof fn lemma_insert_all_after<T>(r: Seq<T>, z: T, w: Seq<T>, lt: spec_fn(T, T) -> bool)
    requires
        strict_order(lt),
        forall|k: int| 0 <= k < w.len() ==> lt(z, #[trigger] w[k]),
    ensures
        insert_all(insert_sorted(r, z, lt), w, lt) == insert_sorted(insert_all(r, w, lt), z, lt),
    decreases w.len(),
{
    if w.len() > 0 {
        let w1 = w.drop_last();
        assert forall|k: int| 0 <= k < w1.len() implies lt(z, #[trigger] w1[k]) by {
            assert(w1[k] == w[k]);
        }
        lemma_insert_all_after(r, z, w1, lt);
        assert(lt(z, w[w.len() - 1]));
        lemma_insert_swap(insert_all(r, w1, lt), w.last(), z, lt);
    }
}

proof fn lemma_insert_all_insert<T>(q: Seq<T>, p: Seq<T>, z: T, lt: spec_fn(T, T) -> bool)
    requires
        weak_order(lt),
        sorted_by(p, lt),
    ensures
        insert_all(q, insert_sorted(p, z, lt), lt) == insert_sorted(insert_all(q, p, lt), z, lt),
{
    let i = first_after(p, z, lt);
    lemma_first_after(p, z, lt);
    lemma_insert_at_first_greater(p, z, lt, i);
    let pre = p.subrange(0, i);
    let post = p.subrange(i, p.len() as int);
    assert(p.insert(i, z) =~= pre + seq![z] + post);
    assert(p =~= pre + post);
    assert forall|k: int| 0 <= k < post.len() implies lt(z, #[trigger] post[k]) by {
        assert(post[k] == p[i + k]);
        if k > 0 {
            assert(!lt(p[i + k], p[i]));
            assert(lt(z, p[i]));
            assert(lt(z, p[i + k]) || lt(p[i + k], p[i]));
        }
    }
    let a0 = insert_all(q, pre, lt);
    lemma_insert_all_concat(q, pre + seq![z], post, lt);
    lemma_insert_all_concat(q, pre, seq![z], lt);
    assert(seq![z].drop_last() =~= Seq::<T>::empty());
    assert(insert_all(a0, Seq::<T>::empty(), lt) == a0);
    assert(seq![z].last() == z);
    assert(insert_all(a0, seq![z], lt) == insert_sorted(insert_all(a0, seq![z].drop_last(), lt), z, lt));
    assert(insert_all(a0, seq![z], lt) == insert_sorted(a0, z, lt));
    lemma_insert_all_after(a0, z, post, lt);
    lemma_insert_all_concat(q, pre, post, lt);
    assert(insert_sorted(p, z, lt) == pre + seq![z] + post);
}

/// The first position in `p` whose element `z` sorts strictly before.
pub open spec fn first_after<T>(p: Seq<T>, z: T, lt: spec_fn(T, T) -> bool) -> int
    decreases p.len(),
{
    if p.len() == 0 {
        0
    } else if lt(z, p[0]) {
        0
    } else {
        1 + first_after(p.drop_first(), z, lt)
    }
}

proof fn lemma_first_after<T>(p: Seq<T>, z: T, lt: spec_fn(T, T) -> bool)
    ensures
        0 <= first_after(p, z, lt) <= p.len(),
        forall|k: int| 0 <= k < first_after(p, z, lt) ==> !lt(z, #[trigger] p[k]),
        first_after(p, z, lt) < p.len() ==> lt(z, p[first_after(p, z, lt)]),
    decreases p.len(),
{
    if p.len() > 0 && !lt(z, p[0]) {
        lemma_first_after(p.drop_first(), z, lt);
        assert forall|k: int| 0 <= k < first_after(p, z, lt) implies !lt(z, #[trigger] p[k]) by {
            if k > 0 {
                assert(p[k] == p.drop_first()[k - 1]);
            }
        }
    }
}

proof fn lemma_insert_all_sorted_arg<T>(q: Seq<T>, y: Seq<T>, lt: spec_fn(T, T) -> bool)
    requires
        weak_order(lt),
    ensures
        insert_all(q, y, lt) == insert_all(q, sort_by(y, lt), lt),
    decreases y.len(),
{
    if y.len() > 0 {
        lemma_insert_all_sorted_arg(q, y.drop_last(), lt);
        lemma_sort_by_sorted(y.drop_last(), lt);
        lemma_insert_all_insert(q, sort_by(y.drop_last(), lt), y.last(), lt);
    } else {
        assert(sort_by(y, lt) == y);
    }
}

proof fn lemma_sort_sorted_unchanged<T>(q: Seq<T>, lt: spec_fn(T, T) -> bool)
    requires
        sorted_by(q, lt),
    ensures
        sort_by(q, lt) == q,
    decreases q.len(),
{
    if q.len() > 0 {
        let p = q.drop_last();
        assert(sorted_by(p, lt)) by {
            assert forall|i: int, j: int| 0 <= i < j < p.len() implies !lt(#[trigger] p[j], #[trigger] p[i]) by {
                assert(p[i] == q[i] && p[j] == q[j]);
            }
        }
        lemma_sort_sorted_unchanged(p, lt);
        let x = q.last();
        assert forall|k: int| 0 <= k < p.len() implies !lt(x, #[trigger] p[k]) by {
            assert(p[k] == q[k]);
        }
        lemma_insert_at_first_greater(p, x, lt, p.len() as int);
        assert(p.insert(p.len() as int, x) =~= q);
    }
}

/// Sorting two lists separately and then sorting what they make together is
/// sorting their concatenation.
pub proof fn lemma_sort_merge<T>(x: Seq<T>, y: Seq<T>, lt: spec_fn(T, T) -> bool)
    requires
        weak_order(lt),
    ensures
        sort_by(x + y, lt) == sort_by(sort_by(x, lt) + sort_by(y, lt), lt),
{
    lemma_sort_is_insert_all(x, y, lt);
    lemma_sort_is_insert_all(sort_by(x, lt), sort_by(y, lt), lt);
    lemma_sort_by_sorted(x, lt);
    lemma_sort_sorted_unchanged(sort_by(x, lt), lt);
    lemma_insert_all_sorted_arg(sort_by(x, lt), y, lt);
}

/// Two sequences in which each element sorts strictly before every later one
/// are equal when they hold the same elements.
proof fn lemma_strictly_sorted_unique<T>(x: Seq<T>, y: Seq<T>, lt: spec_fn(T, T) -> bool)
    requires
        strict_order(lt),
        forall|i: int, j: int| 0 <= i < j < x.len() ==> lt(#[trigger] x[i], #[trigger] x[j]),
        forall|i: int, j: int| 0 <= i < j < y.len() ==> lt(#[trigger] y[i], #[trigger] y[j]),
        x.to_set() == y.to_set(),
    ensures
        x == y,
    decreases x.len(),
{
    if x.len() == 0 {
        if y.len() > 0 {
            assert(y.to_set().contains(y[0]));
        }
        assert(x =~= y);
    } else {
        assert(x.to_set().contains(x[0]));
        assert(y.len() > 0);
        let k = choose|k: int| 0 <= k < y.len() && y[k] == x[0];
        assert(y.to_set().contains(y[0]));
        let m = choose|m: int| 0 <= m < x.len() && x[m] == y[0];
        if k > 0 {
            assert(lt(y[0], y[k]));
            if m > 0 {
                assert(lt(x[0], x[m]));
            }
        }
        assert(x[0] == y[0]);
        let x1 = x.drop_first();
        let y1 = y.drop_first();
        assert forall|e: T| x1.contains(e) <==> y1.contains(e) by {
            if x1.contains(e) {
                let i = choose|i: int| 0 <= i < x1.len() && x1[i] == e;
                assert(lt(x[0], x[i + 1]));
                assert(y.to_set().contains(e));
                let i2 = choose|i2: int| 0 <= i2 < y.len() && y[i2] == e;
                assert(i2 != 0);
                assert(y1[i2 - 1] == e);
            }
            if y1.contains(e) {
                let i = choose|i: int| 0 <= i < y1.len() && y1[i] == e;
                assert(lt(y[0], y[i + 1]));
                assert(x.to_set().contains(e));
                let i2 = choose|i2: int| 0 <= i2 < x.len() && x[i2] == e;
                assert(i2 != 0);
                assert(x1[i2 - 1] == e);
            }
        }
        assert(x1.to_set() =~= y1.to_set());
        assert forall|i: int, j: int| 0 <= i < j < x1.len() implies lt(#[trigger] x1[i], #[trigger] x1[j]) by {
            assert(lt(x[i + 1], x[j + 1]));
        }
        assert forall|i: int, j: int| 0 <= i < j < y1.len() implies lt(#[trigger] y1[i], #[trigger] y1[j]) by {
            assert(lt(y[i + 1], y[j + 1]));
        }
        lemma_strictly_sorted_unique(x1, y1, lt);
        assert(x =~= y) by {
            assert(x.len() == y.len());
            assert forall|i: int| 0 <= i < x.len() implies x[i] == y[i] by {
                if i > 0 {
                    assert(x[i] == x1[i - 1]);
                    assert(y[i] == y1[i - 1]);
                }
            }
        }
    }
}

/// The sort of a list without repeats, any two of whose elements are ordered
/// one way or the other, holds its elements in strictly increasing order.
proof fn lemma_sort_strict<T>(x: Seq<T>, lt: spec_fn(T, T) -> bool)
    requires
        strict_order(lt),
        x.no_duplicates(),
        forall|a: T, b: T| x.contains(a) && x.contains(b) && a != b ==> lt(a, b) || lt(b, a),
    ensures
        forall|i: int, j: int| 0 <= i < j < sort_by(x, lt).len() ==> lt(
            #[trigger] sort_by(x, lt)[i],
            #[trigger] sort_by(x, lt)[j],
        ),
        sort_by(x, lt).to_set() == x.to_set(),
{
    broadcast use vstd::seq_lib::to_multiset_contains;
    let r = sort_by(x, lt);
    lemma_sort_by_sorted(x, lt);
    x.lemma_multiset_has_no_duplicates();
    r.lemma_multiset_has_no_duplicates_conv();
    assert forall|e: T| r.contains(e) <==> x.contains(e) by {
        assert(r.to_multiset().count(e) == x.to_multiset().count(e));
    }
    assert forall|i: int, j: int| 0 <= i < j < r.len() implies lt(#[trigger] r[i], #[trigger] r[j]) by {
        assert(r.contains(r[i]) && r.contains(r[j]));
        assert(!lt(r[j], r[i]));
    }
    assert(r.to_set() =~= x.to_set());
}

/// Lists without repeats that hold the same elements, any two of which are
/// ordered one way or the other, sort to the same list.
pub proof fn lemma_sort_unique<T>(x: Seq<T>, y: Seq<T>, lt: spec_fn(T, T) -> bool)
    requires
        strict_order(lt),
        x.no_duplicates(),
        y.no_duplicates(),
        x.to_set() == y.to_set(),
        forall|a: T, b: T| x.contains(a) && x.contains(b) && a != b ==> lt(a, b) || lt(b, a),
    ensures
        sort_by(x, lt) == sort_by(y, lt),
{
    assert forall|a: T, b: T| y.contains(a) && y.contains(b) && a != b implies lt(a, b) || lt(b, a) by {
        assert(x.to_set().contains(a) && x.to_set().contains(b));
    }
    lemma_sort_strict(x, lt);
    lemma_sort_strict(y, lt);
    lemma_strictly_sorted_unique(sort_by(x, lt), sort_by(y, lt), lt);
}

/// `a` sorts before `b` exactly when `a` is a proper prefix of `b`, or at the
/// first position where they differ `a` has the smaller character.
pub proof fn lemma_seq_lt_meaning(a: Seq<char>, b: Seq<char>)
    ensures
        seq_lt(a, b) <==> {
            ||| a.len() < b.len() && b.take(a.len() as int) == a
            ||| exists|i: int| {
                &&& 0 <= i < a.len()
                &&& i < b.len()
                &&& a.take(i) == b.take(i)
                &&& (#[trigger] a[i] as int) < (b[i] as int)
            }
        },
    decreases a.len(),
{
    let prefix = a.len() < b.len() && b.take(a.len() as int) == a;
    let differ = exists|i: int| {
        &&& 0 <= i < a.len()
        &&& i < b.len()
        &&& a.take(i) == b.take(i)
        &&& (#[trigger] a[i] as int) < (b[i] as int)
    };
    if a.len() == 0 {
        if b.len() > 0 {
            assert(b.take(0) =~= a);
        }
    } else if b.len() == 0 {
    } else if a[0] != b[0] {
        if (a[0] as int) < (b[0] as int) {
            assert(a.take(0) =~= b.take(0));
            assert(differ);
        } else {
            if prefix {
                assert(b.take(a.len() as int)[0] == a[0]);
            }
            if differ {
                let i = choose|i: int| {
                    &&& 0 <= i < a.len()
                    &&& i < b.len()
                    &&& a.take(i) == b.take(i)
                    &&& (#[trigger] a[i] as int) < (b[i] as int)
                };
                if i > 0 {
                    assert(a.take(i)[0] == b.take(i)[0]);
                }
            }
        }
    } else {
        let a1 = a.drop_first();
        let b1 = b.drop_first();
        lemma_seq_lt_meaning(a1, b1);
        if prefix {
            assert(b1.take(a1.len() as int) =~= a1) by {
                assert forall|k: int| 0 <= k < a1.len() implies #[trigger] b1.take(a1.len() as int)[k] == a1[k] by {
                    assert(b.take(a.len() as int)[k + 1] == a[k + 1]);
                }
            }
        }
        if a1.len() < b1.len() && b1.take(a1.len() as int) == a1 {
            assert(b.take(a.len() as int) =~= a) by {
                assert forall|k: int| 0 <= k < a.len() implies #[trigger] b.take(a.len() as int)[k] == a[k] by {
                    if k > 0 {
                        assert(b1.take(a1.len() as int)[k - 1] == a1[k - 1]);
                    }
                }
            }
        }
        if differ {
            let i = choose|i: int| {
                &&& 0 <= i < a.len()
                &&& i < b.len()
                &&& a.take(i) == b.take(i)
                &&& (#[trigger] a[i] as int) < (b[i] as int)
            };
            assert(i != 0);
            assert(a1.take(i - 1) =~= b1.take(i - 1)) by {
                assert forall|k: int| 0 <= k < i - 1 implies #[trigger] a1.take(i - 1)[k] == b1.take(i - 1)[k] by {
                    assert(a.take(i)[k + 1] == b.take(i)[k + 1]);
                }
            }
            assert(a1[i - 1] == a[i]);
        }
        if exists|i: int| {
            &&& 0 <= i < a1.len()
            &&& i < b1.len()
            &&& a1.take(i) == b1.take(i)
            &&& (#[trigger] a1[i] as int) < (b1[i] as int)
        } {
            let i = choose|i: int| {
                &&& 0 <= i < a1.len()
                &&& i < b1.len()
                &&& a1.take(i) == b1.take(i)
                &&& (#[trigger] a1[i] as int) < (b1[i] as int)
            };
            assert(a.take(i + 1) =~= b.take(i + 1)) by {
                assert forall|k: int| 0 <= k < i + 1 implies #[trigger] a.take(i + 1)[k] == b.take(i + 1)[k] by {
                    if k > 0 {
                        assert(a1.take(i)[k - 1] == b1.take(i)[k - 1]);
                    }
                }
            }
            assert(a[i + 1] == a1[i]);
            assert(differ);
        }
    }
}

} // verus!
