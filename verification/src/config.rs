//! Detector configuration and the checkpoint rule.
//!
//! A detector is defined by which guard classes count: their liveness at a
//! checkpoint constitutes a violation. Which callees are forbidden is baked
//! into each `Callee` by the frontend.
use vstd::prelude::*;
use crate::analysis::{Checkpoint, CheckpointKind, CheckpointKindModel, CheckpointModel, checkpoints_view, site_lt};
use crate::ir::{BasicBlock, GuardClass, Local};
use crate::sorting::{insert_sorted, sort_by, str_lt, lemma_insert_at_first_greater, strict_order, sorted_by, lemma_sort_by_sorted, weak_order, lemma_sort_merge};
use crate::analysis::{lemma_site_order, lemma_site_weak};

verus! {

/// A detector specification.
#[derive(Debug, Clone)]
pub struct Detector {
    pub name: String,
    /// Guard classes whose liveness at a checkpoint is a violation, each once.
    pub counted: Vec<GuardClass>,
}

impl Detector {
    /// The sleep-in-atomic configuration: only preemption-disabling guards count.
    pub fn block_in_atomic() -> (d: Detector)
        ensures
            d.name@ == "block-in-atomic"@,
            d.counted@ == seq![GuardClass::PreemptDisabling],
            d.counted@.no_duplicates(),
    {
        Detector { name: "block-in-atomic".to_owned(), counted: vec![GuardClass::PreemptDisabling] }
    }

    /// A permissive configuration counting any lock guard (e.g. await-holding-lock).
    pub fn any_guard() -> (d: Detector)
        ensures
            d.name@ == "await-holding-guard"@,
            d.counted@ == seq![GuardClass::PreemptDisabling, GuardClass::Sleepable],
            d.counted@.no_duplicates(),
    {
        Detector {
            name: "await-holding-guard".to_owned(),
            counted: vec![GuardClass::PreemptDisabling, GuardClass::Sleepable],
        }
    }
}

/// A reported violation.
#[derive(Debug, Clone)]
pub struct Violation {
    pub func: String,
    pub bb: BasicBlock,
    pub kind: CheckpointKind,
    /// The counted guard classes found live at the checkpoint.
    pub held: Vec<GuardClass>,
}

/// The mathematical value of a `Violation`.
pub struct ViolationModel {
    pub func: Seq<char>,
    pub bb: u32,
    pub kind: CheckpointKindModel,
    pub held: Seq<GuardClass>,
}

impl View for Violation {
    type V = ViolationModel;

    open spec fn view(&self) -> ViolationModel {
        ViolationModel { func: self.func@, bb: self.bb.0, kind: self.kind@, held: self.held@ }
    }
}

pub open spec fn violations_view(v: Seq<Violation>) -> Seq<ViolationModel> {
    v.map_values(|x: Violation| x@)
}

pub open spec fn violation_lt() -> spec_fn(ViolationModel, ViolationModel) -> bool {
    |a: ViolationModel, b: ViolationModel| site_lt(a.func, a.bb, b.func, b.bb)
}

/// The classes of the guards in `held` that the detector counts, in the order of `held`.
pub open spec fn counted_held(held: Seq<(Local, GuardClass)>, counted: Seq<GuardClass>) -> Seq<GuardClass>
    decreases held.len(),
{
    if held.len() == 0 {
        Seq::empty()
    } else {
        let r = counted_held(held.drop_last(), counted);
        if counted.contains(held.last().1) {
            r.push(held.last().1)
        } else {
            r
        }
    }
}

/// A checkpoint is a violation when some counted guard class is live there.
pub open spec fn violation_of(c: CheckpointModel, counted: Seq<GuardClass>) -> Option<ViolationModel> {
    let h = counted_held(c.held, counted);
    if h.len() == 0 {
        None
    } else {
        Some(ViolationModel { func: c.func, bb: c.bb, kind: c.kind, held: h })
    }
}

/// The violations of the first `n` checkpoints, in their order.
pub open spec fn violations_upto(cs: Seq<CheckpointModel>, counted: Seq<GuardClass>, n: int) -> Seq<ViolationModel>
    decreases n,
{
    if n <= 0 {
        Seq::empty()
    } else {
        let r = violations_upto(cs, counted, n - 1);
        match violation_of(cs[n - 1], counted) {
            Some(v) => r.push(v),
            None => r,
        }
    }
}

/// The violations of a list of checkpoints, ordered by function name and block number.
pub open spec fn check_spec(cs: Seq<CheckpointModel>, counted: Seq<GuardClass>) -> Seq<ViolationModel> {
    sort_by(violations_upto(cs, counted, cs.len() as int), violation_lt())
}

fn counts(det: &Detector, class: GuardClass) -> (b: bool)
    ensures
        b == det.counted@.contains(class),
{
    let mut k: usize = 0;
    while k < det.counted.len()
        invariant
            k <= det.counted@.len(),
            forall|j: int| 0 <= j < k ==> det.counted@[j] != class,
        decreases det.counted@.len() - k,
    {
        if det.counted[k] == class {
            return true;
        }
        k = k + 1;
    }
    false
}

fn violation_before(a: &Violation, b: &Violation) -> (r: bool)
    ensures
        r == (violation_lt())(a@, b@),
{
    if str_lt(a.func.as_str(), b.func.as_str()) {
        true
    } else {
        a.func == b.func && a.bb.0 < b.bb.0
    }
}

fn insert_violation(out: &mut Vec<Violation>, v: Violation)
    ensures
        violations_view(final(out)@) == insert_sorted(violations_view(old(out)@), v@, violation_lt()),
{
    let mut p: usize = 0;
    while p < out.len() && !violation_before(&v, &out[p])
        invariant
            p <= out@.len(),
            forall|k: int| 0 <= k < p ==> !(violation_lt())(v@, #[trigger] violations_view(out@)[k]),
        decreases out@.len() - p,
    {
        p = p + 1;
    }
    let ghost q = violations_view(out@);
    proof {
        lemma_insert_at_first_greater(q, v@, violation_lt(), p as int);
    }
    out.insert(p, v);
    assert(violations_view(out@) =~= q.insert(p as int, v@));
}

fn copy_kind(k: &CheckpointKind) -> (r: CheckpointKind)
    ensures
        r@ == k@,
{
    match k {
        CheckpointKind::Call { def_path } => CheckpointKind::Call { def_path: def_path.clone() },
        CheckpointKind::Suspend => CheckpointKind::Suspend,
    }
}

/// Apply a detector to a set of checkpoints, producing violations ordered by
/// function name and block number.
pub fn check(checkpoints: &[Checkpoint], det: &Detector) -> (out: Vec<Violation>)
    ensures
        violations_view(out@) == check_spec(checkpoints_view(checkpoints@), det.counted@),
{
    let ghost cs = checkpoints_view(checkpoints@);
    let mut out: Vec<Violation> = Vec::new();
    let mut i: usize = 0;
    while i < checkpoints.len()
        invariant
            cs == checkpoints_view(checkpoints@),
            i <= checkpoints@.len(),
            violations_view(out@) == sort_by(violations_upto(cs, det.counted@, i as int), violation_lt()),
        decreases checkpoints@.len() - i,
    {
        let c = &checkpoints[i];
        assert(cs[i as int] == c@);
        let mut held: Vec<GuardClass> = Vec::new();
        let mut j: usize = 0;
        while j < c.held.len()
            invariant
                j <= c.held@.len(),
                held@ == counted_held(c.held@.take(j as int), det.counted@),
            decreases c.held@.len() - j,
        {
            assert(c.held@.take(j + 1).drop_last() =~= c.held@.take(j as int));
            let class = c.held[j].1;
            if counts(det, class) {
                held.push(class);
            }
            j = j + 1;
        }
        assert(c.held@.take(j as int) =~= c.held@);
        let ghost prev = violations_upto(cs, det.counted@, i as int);
        if held.len() > 0 {
            let v = Violation { func: c.func.clone(), bb: c.bb, kind: copy_kind(&c.kind), held };
            insert_violation(&mut out, v);
            assert(prev.push(v@).drop_last() =~= prev);
        }
        i = i + 1;
    }
    assert(cs.len() == checkpoints@.len());
    out
}

// ---------------------------------------------------------------------------
// Laws
// ---------------------------------------------------------------------------

/// The counted classes of `held` are those of its guards whose class the detector counts.
pub proof fn lemma_counted_held(held: Seq<(Local, GuardClass)>, counted: Seq<GuardClass>)
    ensures
        forall|k: int| 0 <= k < counted_held(held, counted).len() ==> counted.contains(
            #[trigger] counted_held(held, counted)[k],
        ),
        counted_held(held, counted).len() > 0 <==> exists|i: int|
            0 <= i < held.len() && counted.contains(#[trigger] held[i].1),
    decreases held.len(),
{
    if held.len() > 0 {
        lemma_counted_held(held.drop_last(), counted);
        let r = counted_held(held.drop_last(), counted);
        if exists|i: int| 0 <= i < held.drop_last().len() && counted.contains(#[trigger] held.drop_last()[i].1) {
            let i = choose|i: int| 0 <= i < held.drop_last().len() && counted.contains(#[trigger] held.drop_last()[i].1);
            assert(held[i].1 == held.drop_last()[i].1);
        }
        if exists|i: int| 0 <= i < held.len() && counted.contains(#[trigger] held[i].1) {
            let i = choose|i: int| 0 <= i < held.len() && counted.contains(#[trigger] held[i].1);
            if i < held.len() - 1 {
                assert(held.drop_last()[i].1 == held[i].1);
            }
        }
    }
}

/// A checkpoint is a violation exactly when a guard of a counted class is live there.
pub proof fn lemma_violation_iff(c: CheckpointModel, counted: Seq<GuardClass>)
    ensures
        violation_of(c, counted) is Some <==> exists|i: int|
            0 <= i < c.held.len() && counted.contains(#[trigger] c.held[i].1),
{
    lemma_counted_held(c.held, counted);
}

/// The any-guard detector counts every live guard.
pub proof fn lemma_any_guard_counts_all(held: Seq<(Local, GuardClass)>)
    ensures
        counted_held(held, seq![GuardClass::PreemptDisabling, GuardClass::Sleepable])
            == held.map_values(|p: (Local, GuardClass)| p.1),
    decreases held.len(),
{
    let counted = seq![GuardClass::PreemptDisabling, GuardClass::Sleepable];
    if held.len() > 0 {
        lemma_any_guard_counts_all(held.drop_last());
        match held.last().1 {
            GuardClass::PreemptDisabling => assert(counted[0] == held.last().1),
            GuardClass::Sleepable => assert(counted[1] == held.last().1),
        }
        assert(held.map_values(|p: (Local, GuardClass)| p.1) =~= held.drop_last().map_values(
            |p: (Local, GuardClass)| p.1,
        ).push(held.last().1));
    } else {
        assert(held.map_values(|p: (Local, GuardClass)| p.1) =~= Seq::<GuardClass>::empty());
    }
}

pub proof fn lemma_violation_lt_strict()
    ensures
        strict_order(violation_lt()),
{
    assert forall|a: ViolationModel| !#[trigger] (violation_lt())(a, a) by {
        lemma_site_order(a.func, a.bb, a.func, a.bb, a.func, a.bb);
    }
    assert forall|a: ViolationModel, b: ViolationModel, c: ViolationModel|
        #[trigger] (violation_lt())(a, b) && #[trigger] (violation_lt())(b, c) implies (violation_lt())(a, c) by {
        lemma_site_order(a.func, a.bb, b.func, b.bb, c.func, c.bb);
    }
}

/// Violations are ordered by function name, then block number, and they are
/// exactly the violations of the checkpoints.
pub proof fn lemma_check_sorted(cs: Seq<CheckpointModel>, counted: Seq<GuardClass>)
    ensures
        sorted_by(check_spec(cs, counted), violation_lt()),
        check_spec(cs, counted).to_multiset() == violations_upto(cs, counted, cs.len() as int).to_multiset(),
{
    lemma_violation_lt_strict();
    lemma_sort_by_sorted(violations_upto(cs, counted, cs.len() as int), violation_lt());
}

/// The classes of `s` that `counted` holds, in order.
pub open spec fn keep_counted(s: Seq<GuardClass>, counted: Seq<GuardClass>) -> Seq<GuardClass>
    decreases s.len(),
{
    if s.len() == 0 {
        Seq::empty()
    } else {
        let r = keep_counted(s.drop_last(), counted);
        if counted.contains(s.last()) { r.push(s.last()) } else { r }
    }
}

proof fn lemma_counted_narrower(held: Seq<(Local, GuardClass)>, c1: Seq<GuardClass>, c2: Seq<GuardClass>)
    requires
        forall|g: GuardClass| c1.contains(g) ==> c2.contains(g),
    ensures
        counted_held(held, c1) == keep_counted(counted_held(held, c2), c1),
    decreases held.len(),
{
    if held.len() > 0 {
        lemma_counted_narrower(held.drop_last(), c1, c2);
        let r2 = counted_held(held.drop_last(), c2);
        if c2.contains(held.last().1) {
            assert(r2.push(held.last().1).drop_last() =~= r2);
        }
    }
}

proof fn lemma_keep_counted_len(s: Seq<GuardClass>, c: Seq<GuardClass>)
    ensures
        keep_counted(s, c).len() <= s.len(),
    decreases s.len(),
{
    if s.len() > 0 {
        lemma_keep_counted_len(s.drop_last(), c);
    }
}

proof fn lemma_violations_monotone(cs: Seq<CheckpointModel>, c1: Seq<GuardClass>, c2: Seq<GuardClass>, n: int)
    requires
        0 <= n <= cs.len(),
        forall|g: GuardClass| c1.contains(g) ==> c2.contains(g),
    ensures
        violations_upto(cs, c1, n).len() <= violations_upto(cs, c2, n).len(),
    decreases n,
{
    if n > 0 {
        lemma_violations_monotone(cs, c1, c2, n - 1);
        lemma_counted_narrower(cs[n - 1].held, c1, c2);
        lemma_keep_counted_len(counted_held(cs[n - 1].held, c2), c1);
    }
}

proof fn lemma_violations_contains(cs: Seq<CheckpointModel>, counted: Seq<GuardClass>, n: int, v: ViolationModel)
    requires
        0 <= n <= cs.len(),
    ensures
        violations_upto(cs, counted, n).contains(v) <==> exists|i: int|
            0 <= i < n && #[trigger] violation_of(cs[i], counted) == Some(v),
    decreases n,
{
    if n > 0 {
        lemma_violations_contains(cs, counted, n - 1, v);
        let r1 = violations_upto(cs, counted, n - 1);
        let r = violations_upto(cs, counted, n);
        if r.contains(v) {
            let k = choose|k: int| 0 <= k < r.len() && r[k] == v;
            if k < r1.len() {
                assert(r1[k] == v);
            } else {
                assert(violation_of(cs[n - 1], counted) == Some(v));
            }
        }
        if exists|i: int| 0 <= i < n && #[trigger] violation_of(cs[i], counted) == Some(v) {
            let i = choose|i: int| 0 <= i < n && #[trigger] violation_of(cs[i], counted) == Some(v);
            if i < n - 1 {
                let k = choose|k: int| 0 <= k < r1.len() && r1[k] == v;
                assert(r[k] == v);
            } else {
                assert(r[r.len() - 1] == v);
            }
        }
    }
}

/// Counting more classes never loses a violation: with `c1` within `c2`, every
/// checkpoint that `c1` reports `c2` reports too, `c1`'s classes there are those
/// of `c2`'s that `c1` counts, every violation reported under `c1` is reported
/// under `c2` at the same site with at least those classes, and `c2` reports at
/// least as many violations.
pub proof fn lemma_check_monotone(cs: Seq<CheckpointModel>, c1: Seq<GuardClass>, c2: Seq<GuardClass>)
    requires
        forall|g: GuardClass| c1.contains(g) ==> c2.contains(g),
    ensures
        forall|i: int| 0 <= i < cs.len() ==> counted_held(#[trigger] cs[i].held, c1) == keep_counted(
            counted_held(cs[i].held, c2),
            c1,
        ),
        forall|i: int| 0 <= i < cs.len() && #[trigger] violation_of(cs[i], c1) is Some ==> violation_of(cs[i], c2) is Some,
        forall|v1: ViolationModel| #[trigger] check_spec(cs, c1).contains(v1) ==> exists|v2: ViolationModel| {
            &&& #[trigger] check_spec(cs, c2).contains(v2)
            &&& v2.func == v1.func && v2.bb == v1.bb && v2.kind == v1.kind
            &&& v1.held == keep_counted(v2.held, c1)
        },
        check_spec(cs, c1).len() <= check_spec(cs, c2).len(),
{
    broadcast use vstd::seq_lib::to_multiset_contains;
    assert forall|i: int| 0 <= i < cs.len() implies counted_held(#[trigger] cs[i].held, c1) == keep_counted(
        counted_held(cs[i].held, c2),
        c1,
    ) by {
        lemma_counted_narrower(cs[i].held, c1, c2);
    }
    assert forall|i: int| 0 <= i < cs.len() && #[trigger] violation_of(cs[i], c1) is Some implies violation_of(cs[i], c2) is Some by {
        lemma_counted_narrower(cs[i].held, c1, c2);
        lemma_keep_counted_len(counted_held(cs[i].held, c2), c1);
    }
    lemma_violations_monotone(cs, c1, c2, cs.len() as int);
    lemma_check_sorted(cs, c1);
    lemma_check_sorted(cs, c2);
    let n = cs.len() as int;
    assert forall|v1: ViolationModel| #[trigger] check_spec(cs, c1).contains(v1) implies exists|v2: ViolationModel| {
        &&& #[trigger] check_spec(cs, c2).contains(v2)
        &&& v2.func == v1.func && v2.bb == v1.bb && v2.kind == v1.kind
        &&& v1.held == keep_counted(v2.held, c1)
    } by {
        assert(check_spec(cs, c1).to_multiset().count(v1) > 0);
        assert(violations_upto(cs, c1, n).contains(v1));
        lemma_violations_contains(cs, c1, n, v1);
        let i = choose|i: int| 0 <= i < n && #[trigger] violation_of(cs[i], c1) == Some(v1);
        assert(violation_of(cs[i], c1) is Some);
        let v2 = violation_of(cs[i], c2)->0;
        lemma_counted_narrower(cs[i].held, c1, c2);
        lemma_violations_contains(cs, c2, n, v2);
        assert(violations_upto(cs, c2, n).contains(v2));
        assert(violations_upto(cs, c2, n).to_multiset().count(v2) > 0);
        assert(check_spec(cs, c2).contains(v2));
    }
    vstd::seq_lib::to_multiset_len(check_spec(cs, c1));
    vstd::seq_lib::to_multiset_len(check_spec(cs, c2));
    vstd::seq_lib::to_multiset_len(violations_upto(cs, c1, cs.len() as int));
    vstd::seq_lib::to_multiset_len(violations_upto(cs, c2, cs.len() as int));
}

/// Ties in the report order are transitive: `violation_lt` is a strict weak order.
pub proof fn lemma_violation_lt_weak()
    ensures
        weak_order(violation_lt()),
{
    lemma_violation_lt_strict();
    assert forall|a: ViolationModel, b: ViolationModel, c: ViolationModel|
        #[trigger] (violation_lt())(a, b) implies (violation_lt())(a, c) || #[trigger] (violation_lt())(c, b) by {
        lemma_site_weak(a.func, a.bb, b.func, b.bb, c.func, c.bb);
    }
}

proof fn lemma_violations_prefix(a: Seq<CheckpointModel>, b: Seq<CheckpointModel>, counted: Seq<GuardClass>, n: int)
    requires
        0 <= n <= a.len(),
    ensures
        violations_upto(a + b, counted, n) == violations_upto(a, counted, n),
    decreases n,
{
    if n > 0 {
        lemma_violations_prefix(a, b, counted, n - 1);
        assert((a + b)[n - 1] == a[n - 1]);
    }
}

proof fn lemma_violations_concat(a: Seq<CheckpointModel>, b: Seq<CheckpointModel>, counted: Seq<GuardClass>, n: int)
    requires
        0 <= n <= b.len(),
    ensures
        violations_upto(a + b, counted, a.len() + n) == violations_upto(a, counted, a.len() as int)
            + violations_upto(b, counted, n),
    decreases n,
{
    if n == 0 {
        lemma_violations_prefix(a, b, counted, a.len() as int);
        assert(violations_upto(a, counted, a.len() as int) + violations_upto(b, counted, 0) =~= violations_upto(
            a,
            counted,
            a.len() as int,
        ));
    } else {
        lemma_violations_concat(a, b, counted, n - 1);
        assert((a + b)[a.len() + n - 1] == b[n - 1]);
        let x = violations_upto(a, counted, a.len() as int);
        let y = violations_upto(b, counted, n - 1);
        match violation_of(b[n - 1], counted) {
            Some(v) => {
                assert((x + y).push(v) =~= x + y.push(v));
            },
            None => {},
        }
    }
}

/// Checking two lists of checkpoints separately and merging the two reports in
/// report order gives the report of checking them together.
pub proof fn lemma_check_merge(a: Seq<CheckpointModel>, b: Seq<CheckpointModel>, counted: Seq<GuardClass>)
    ensures
        check_spec(a + b, counted) == sort_by(check_spec(a, counted) + check_spec(b, counted), violation_lt()),
{
    lemma_violations_concat(a, b, counted, b.len() as int);
    lemma_violation_lt_weak();
    lemma_sort_merge(
        violations_upto(a, counted, a.len() as int),
        violations_upto(b, counted, b.len() as int),
        violation_lt(),
    );
    assert((a + b).len() == a.len() + b.len());
}

/// The classes of `held` that `counted` holds, in the order of `held`.
pub open spec fn kept_classes(held: Seq<(Local, GuardClass)>, counted: Seq<GuardClass>) -> Seq<GuardClass> {
    held.map_values(|p: (Local, GuardClass)| p.1).filter(|g: GuardClass| counted.contains(g))
}

/// Some live guard of the checkpoint has a class that `counted` holds.
pub open spec fn holds_counted(c: CheckpointModel, counted: Seq<GuardClass>) -> bool {
    exists|k: int| 0 <= k < c.held.len() && counted.contains(#[trigger] c.held[k].1)
}

/// The classes reported for a checkpoint are those of its live guards that
/// the detector counts, in the guards' order, with nothing dropped.
pub proof fn lemma_counted_classes(held: Seq<(Local, GuardClass)>, counted: Seq<GuardClass>)
    ensures
        counted_held(held, counted) == kept_classes(held, counted),
    decreases held.len(),
{
    reveal(Seq::filter);
    let m = held.map_values(|p: (Local, GuardClass)| p.1);
    if held.len() > 0 {
        lemma_counted_classes(held.drop_last(), counted);
        assert(m.drop_last() =~= held.drop_last().map_values(|p: (Local, GuardClass)| p.1));
        assert(m.last() == held.last().1);
    } else {
        assert(m =~= Seq::<GuardClass>::empty());
    }
}

/// `check` reports a violation for every checkpoint at which some counted
/// guard is live, at that checkpoint's site and kind with the counted classes
/// of its guards; it reports nothing else, one violation per such checkpoint.
pub proof fn lemma_check_reports(cs: Seq<CheckpointModel>, counted: Seq<GuardClass>)
    ensures
        forall|i: int| 0 <= i < cs.len() && #[trigger] holds_counted(cs[i], counted) ==> check_spec(cs, counted).contains(
            ViolationModel { func: cs[i].func, bb: cs[i].bb, kind: cs[i].kind, held: kept_classes(cs[i].held, counted) },
        ),
        forall|v: ViolationModel| #[trigger] check_spec(cs, counted).contains(v) ==> exists|i: int| {
            &&& 0 <= i < cs.len()
            &&& #[trigger] holds_counted(cs[i], counted)
            &&& v == ViolationModel {
                func: cs[i].func,
                bb: cs[i].bb,
                kind: cs[i].kind,
                held: kept_classes(cs[i].held, counted),
            }
        },
        check_spec(cs, counted).len() == cs.filter(|c: CheckpointModel| holds_counted(c, counted)).len(),
{
    broadcast use vstd::seq_lib::to_multiset_contains;
    let n = cs.len() as int;
    let r = check_spec(cs, counted);
    let w = violations_upto(cs, counted, n);
    lemma_check_sorted(cs, counted);
    assert forall|v: ViolationModel| r.contains(v) <==> w.contains(v) by {
        assert(r.to_multiset().count(v) == w.to_multiset().count(v));
    }
    assert forall|i: int| 0 <= i < cs.len() && #[trigger] holds_counted(cs[i], counted) implies r.contains(
        ViolationModel { func: cs[i].func, bb: cs[i].bb, kind: cs[i].kind, held: kept_classes(cs[i].held, counted) },
    ) by {
        lemma_violation_iff(cs[i], counted);
        lemma_counted_classes(cs[i].held, counted);
        lemma_violations_contains(cs, counted, n, violation_of(cs[i], counted)->0);
    }
    assert forall|v: ViolationModel| #[trigger] r.contains(v) implies exists|i: int| {
        &&& 0 <= i < cs.len()
        &&& #[trigger] holds_counted(cs[i], counted)
        &&& v == ViolationModel {
            func: cs[i].func,
            bb: cs[i].bb,
            kind: cs[i].kind,
            held: kept_classes(cs[i].held, counted),
        }
    } by {
        lemma_violations_contains(cs, counted, n, v);
        let i = choose|i: int| 0 <= i < n && #[trigger] violation_of(cs[i], counted) == Some(v);
        lemma_counted_classes(cs[i].held, counted);
        lemma_violation_iff(cs[i], counted);
        assert(holds_counted(cs[i], counted));
        assert(v == ViolationModel {
            func: cs[i].func,
            bb: cs[i].bb,
            kind: cs[i].kind,
            held: kept_classes(cs[i].held, counted),
        });
    }
    lemma_violations_len(cs, counted, n);
    assert(cs.take(n) =~= cs);
    vstd::seq_lib::to_multiset_len(r);
    vstd::seq_lib::to_multiset_len(w);
}

proof fn lemma_violations_len(cs: Seq<CheckpointModel>, counted: Seq<GuardClass>, n: int)
    requires
        0 <= n <= cs.len(),
    ensures
        violations_upto(cs, counted, n).len() == cs.take(n).filter(|c: CheckpointModel| holds_counted(c, counted)).len(),
    decreases n,
{
    reveal(Seq::filter);
    if n == 0 {
        assert(cs.take(0) =~= Seq::<CheckpointModel>::empty());
    } else {
        lemma_violations_len(cs, counted, n - 1);
        assert(cs.take(n).drop_last() =~= cs.take(n - 1));
        assert(cs.take(n).last() == cs[n - 1]);
        lemma_violation_iff(cs[n - 1], counted);
    }
}

/// Violations are reported in the order of their sites: by function name (a
/// name before every longer name it begins, otherwise by the first character
/// where they differ), then by block number.
pub proof fn lemma_violation_order(a: ViolationModel, b: ViolationModel)
    ensures
        (violation_lt())(a, b) <==> {
            ||| a.func.len() < b.func.len() && b.func.take(a.func.len() as int) == a.func
            ||| exists|i: int| {
                &&& 0 <= i < a.func.len()
                &&& i < b.func.len()
                &&& a.func.take(i) == b.func.take(i)
                &&& (#[trigger] a.func[i] as int) < (b.func[i] as int)
            }
            ||| a.func == b.func && a.bb < b.bb
        },
{
    crate::sorting::lemma_seq_lt_meaning(a.func, b.func);
}

} // verus!
