//! Guard-liveness typestate analysis over the abstract CFG.
//!
//! The abstract state at a program point is the set of live guard locals.
//! Join is set union at control-flow merges (may-held). The analysis is a
//! forward dataflow to the least fixpoint; it records a checkpoint at every
//! forbidden call and every suspend, carrying the guards live there.
use vstd::prelude::*;
use std::collections::BTreeMap;
use crate::ir::{successors_of, BasicBlock, Block, BlockModel, FunctionModel, Function, GuardClass, Local, Stmt, Successor, Term, TermModel};
use std::collections::BTreeSet;
use crate::locals::{ascending, listed, union_into, same_set, lemma_ascending_exists};
use crate::sorting::{insert_sorted, sort_by, seq_lt, str_lt, lemma_insert_at_first_greater, strict_order, sorted_by, lemma_sort_by_sorted, lemma_seq_lt_irreflexive, lemma_seq_lt_transitive, lemma_seq_lt_total};

verus! {


/// The two kinds of program point at which the restriction is tested.
#[derive(Debug, Clone, PartialEq, Eq)]
pub enum CheckpointKind {
    /// A call to a forbidden operation.
    Call { def_path: String },
    /// An await / coroutine suspend point.
    Suspend,
}

/// A recorded checkpoint and the guards live there.
#[derive(Debug, Clone)]
pub struct Checkpoint {
    pub func: String,
    pub bb: BasicBlock,
    pub kind: CheckpointKind,
    /// Guards live at the checkpoint, with their class, in increasing order of local.
    pub held: Vec<(Local, GuardClass)>,
}

/// The mathematical value of a `CheckpointKind`.
pub enum CheckpointKindModel {
    Call { def_path: Seq<char> },
    Suspend,
}

/// The mathematical value of a `Checkpoint`.
pub struct CheckpointModel {
    pub func: Seq<char>,
    pub bb: u32,
    pub kind: CheckpointKindModel,
    pub held: Seq<(Local, GuardClass)>,
}

impl View for CheckpointKind {
    type V = CheckpointKindModel;

    open spec fn view(&self) -> CheckpointKindModel {
        match self {
            CheckpointKind::Call { def_path } => CheckpointKindModel::Call { def_path: def_path@ },
            CheckpointKind::Suspend => CheckpointKindModel::Suspend,
        }
    }
}

impl View for Checkpoint {
    type V = CheckpointModel;

    open spec fn view(&self) -> CheckpointModel {
        CheckpointModel { func: self.func@, bb: self.bb.0, kind: self.kind@, held: self.held@ }
    }
}

/// The values of a sequence of checkpoints.
pub open spec fn checkpoints_view(v: Seq<Checkpoint>) -> Seq<CheckpointModel> {
    v.map_values(|c: Checkpoint| c@)
}

/// Program points are ordered by function name, then by block number.
pub open spec fn site_lt(func_a: Seq<char>, bb_a: u32, func_b: Seq<char>, bb_b: u32) -> bool {
    seq_lt(func_a, func_b) || (func_a == func_b && bb_a < bb_b)
}

pub open spec fn checkpoint_lt() -> spec_fn(CheckpointModel, CheckpointModel) -> bool {
    |a: CheckpointModel, b: CheckpointModel| site_lt(a.func, a.bb, b.func, b.bb)
}

/// The live guards of a set, in increasing order of local, each with its class.
pub open spec fn held_spec(classes: Map<u32, GuardClass>, live: Set<u32>) -> Seq<(Local, GuardClass)> {
    ascending(live).map_values(|l: u32| (Local(l), class_for(classes, l)))
}

/// The checkpoint, if any, recorded at the block at position `j` of `order`.
pub open spec fn checkpoint_at(
    f: FunctionModel,
    st: Map<u32, Set<u32>>,
    classes: Map<u32, GuardClass>,
    j: int,
) -> Option<CheckpointModel> {
    let held = held_spec(classes, live_after(f, st, j));
    match f.blocks[f.order[j]].term {
        TermModel::Call { def_path, is_forbidden, .. } => if is_forbidden {
            Some(CheckpointModel { func: f.name, bb: f.order[j], kind: CheckpointKindModel::Call { def_path }, held })
        } else {
            None
        },
        TermModel::Suspend { .. } => Some(
            CheckpointModel { func: f.name, bb: f.order[j], kind: CheckpointKindModel::Suspend, held },
        ),
        _ => None,
    }
}

/// The checkpoints of the blocks at the first `n` positions of `order`, in that order.
pub open spec fn checkpoints_upto(
    f: FunctionModel,
    st: Map<u32, Set<u32>>,
    classes: Map<u32, GuardClass>,
    n: int,
) -> Seq<CheckpointModel>
    decreases n,
{
    if n <= 0 {
        Seq::empty()
    } else {
        let r = checkpoints_upto(f, st, classes, n - 1);
        match checkpoint_at(f, st, classes, n - 1) {
            Some(c) => r.push(c),
            None => r,
        }
    }
}

/// The checkpoints of a function: one per forbidden call and per suspend, with
/// the guards live there under the least fixpoint, ordered by block number
/// (blocks with the same number keep their order in `order`).
pub open spec fn analysis_spec(f: FunctionModel) -> Seq<CheckpointModel> {
    sort_by(
        checkpoints_upto(f, least_fixpoint(f), guard_classes_spec(f), f.order.len() as int),
        checkpoint_lt(),
    )
}

// ---------------------------------------------------------------------------
// Transfer functions
// ---------------------------------------------------------------------------

/// The live set after running `stmts` from `s`: acquire adds, kill removes.
pub open spec fn apply_stmts_spec(stmts: Seq<Stmt>, s: Set<u32>) -> Set<u32>
    decreases stmts.len(),
{
    if stmts.len() == 0 {
        s
    } else {
        let s1 = apply_stmts_spec(stmts.drop_last(), s);
        match stmts.last() {
            Stmt::Acquire { local, .. } => s1.insert(local.0),
            Stmt::Kill { local } => s1.remove(local.0),
        }
    }
}

/// The number of successor edges of a terminator.
pub open spec fn edge_count(t: TermModel) -> nat {
    match t {
        TermModel::Call { .. } => 1,
        TermModel::Suspend { .. } => 1,
        TermModel::Drop { .. } => 1,
        TermModel::Branch { succs } => succs.len(),
        TermModel::Return => 0,
    }
}

/// The block that edge `k` of a terminator leads to.
pub open spec fn edge_target(t: TermModel, k: int) -> u32 {
    match t {
        TermModel::Call { target, .. } => target,
        TermModel::Suspend { target } => target,
        TermModel::Drop { target, .. } => target,
        TermModel::Branch { succs } => succs[k].target.0,
        TermModel::Return => 0,
    }
}

/// The live set carried along edge `k`, given the live set `after` the block's statements.
/// A drop releases its local; a branch edge may activate a guard.
pub open spec fn edge_out(t: TermModel, after: Set<u32>, k: int) -> Set<u32> {
    match t {
        TermModel::Drop { local, .. } => after.remove(local),
        TermModel::Branch { succs } => match succs[k].activate {
            Some(a) => after.insert((a.0).0),
            None => after,
        },
        _ => after,
    }
}

/// Edge `k` leads to `target` and carries `l`.
pub open spec fn edge_hit(t: TermModel, after: Set<u32>, k: int, target: u32, l: u32) -> bool {
    edge_target(t, k) == target && edge_out(t, after, k).contains(l)
}

/// One of the first `k` edges leads to `target` carrying `l`.
pub open spec fn edges_before(t: TermModel, after: Set<u32>, k: int, target: u32, l: u32) -> bool {
    exists|kk: int| 0 <= kk < k && #[trigger] edge_hit(t, after, kk, target, l)
}

/// Some edge of the terminator leads to `target` carrying `l`.
pub open spec fn carries(t: TermModel, after: Set<u32>, target: u32, l: u32) -> bool {
    edges_before(t, after, edge_count(t) as int, target, l)
}

/// The live set after the statements of the block at position `j` of `order`.
pub open spec fn live_after(f: FunctionModel, st: Map<u32, Set<u32>>, j: int) -> Set<u32> {
    apply_stmts_spec(f.blocks[f.order[j]].stmts, st[f.order[j]])
}

/// The block at position `j` of `order` sends `l` live into `target`.
pub open spec fn block_out(f: FunctionModel, st: Map<u32, Set<u32>>, j: int, target: u32, l: u32) -> bool {
    carries(f.blocks[f.order[j]].term, live_after(f, st, j), target, l)
}

/// One of the blocks at the first `i` positions of `order` sends `l` live into `target`.
pub open spec fn flows_before(f: FunctionModel, st: Map<u32, Set<u32>>, i: int, target: u32, l: u32) -> bool {
    exists|j: int| 0 <= j < i && #[trigger] block_out(f, st, j, target, l)
}

/// The union of what all blocks of `order` send into `target`.
pub open spec fn flow_into(f: FunctionModel, st: Map<u32, Set<u32>>, target: u32) -> Set<u32> {
    Set::new(|l: u32| flows_before(f, st, f.order.len() as int, target, l))
}

/// What the blocks at the first `i` positions of `order` send into `target`.
pub open spec fn flow_upto(f: FunctionModel, st: Map<u32, Set<u32>>, i: int, target: u32) -> Set<u32> {
    Set::new(|l: u32| flows_before(f, st, i, target, l))
}

/// What the first `k` edges of a terminator send into `target`.
pub open spec fn edges_upto(t: TermModel, after: Set<u32>, k: int, target: u32) -> Set<u32> {
    Set::new(|l: u32| edges_before(t, after, k, target, l))
}

/// The blocks that the analysis keeps a state for.
pub open spec fn block_ids(f: FunctionModel) -> Set<u32> {
    f.order.to_set()
}

/// One round of the analysis: every block starts with the union of what its
/// predecessors send it (a guard live on any path is treated as live).
pub open spec fn transfer(f: FunctionModel, st: Map<u32, Set<u32>>) -> Map<u32, Set<u32>> {
    Map::new(
        |id: u32| block_ids(f).contains(id),
        |id: u32| flow_into(f, st, id),
    )
}

/// The state in which no guard is live anywhere.
pub open spec fn bottom(f: FunctionModel) -> Map<u32, Set<u32>> {
    Map::new(|id: u32| block_ids(f).contains(id), |id: u32| Set::<u32>::empty())
}

/// Pointwise inclusion of two states over the same blocks.
pub open spec fn state_le(a: Map<u32, Set<u32>>, b: Map<u32, Set<u32>>) -> bool {
    &&& a.dom() == b.dom()
    &&& forall|k: u32| #[trigger] a.dom().contains(k) ==> a[k].subset_of(b[k])
}

/// `s` is closed under one round of the analysis.
pub open spec fn is_prefixpoint(f: FunctionModel, s: Map<u32, Set<u32>>) -> bool {
    s.dom() == block_ids(f) && state_le(transfer(f, s), s)
}

/// `r` is the least state that one round of the analysis leaves unchanged.
pub open spec fn is_least_fixpoint(f: FunctionModel, r: Map<u32, Set<u32>>) -> bool {
    &&& r.dom() == block_ids(f)
    &&& transfer(f, r) == r
    &&& forall|s: Map<u32, Set<u32>>| #[trigger] is_prefixpoint(f, s) ==> state_le(r, s)
}

/// The in-state of every block: the least fixpoint of `transfer`.
pub open spec fn least_fixpoint(f: FunctionModel) -> Map<u32, Set<u32>> {
    choose|r: Map<u32, Set<u32>>| is_least_fixpoint(f, r)
}

// ---------------------------------------------------------------------------
// Guard classes
// ---------------------------------------------------------------------------

/// Records the class of each acquisition in `stmts`, later ones overriding earlier.
pub open spec fn stmt_classes(m: Map<u32, GuardClass>, stmts: Seq<Stmt>) -> Map<u32, GuardClass>
    decreases stmts.len(),
{
    if stmts.len() == 0 {
        m
    } else {
        let m1 = stmt_classes(m, stmts.drop_last());
        match stmts.last() {
            Stmt::Acquire { local, class } => m1.insert(local.0, class),
            Stmt::Kill { .. } => m1,
        }
    }
}

/// Records the class of each edge activation in `succs`, later ones overriding earlier.
pub open spec fn succ_classes(m: Map<u32, GuardClass>, succs: Seq<Successor>) -> Map<u32, GuardClass>
    decreases succs.len(),
{
    if succs.len() == 0 {
        m
    } else {
        let m1 = succ_classes(m, succs.drop_last());
        match succs.last().activate {
            Some(a) => m1.insert((a.0).0, a.1),
            None => m1,
        }
    }
}

pub open spec fn block_classes(m: Map<u32, GuardClass>, b: BlockModel) -> Map<u32, GuardClass> {
    let m1 = stmt_classes(m, b.stmts);
    match b.term {
        TermModel::Branch { succs } => succ_classes(m1, succs),
        _ => m1,
    }
}

/// The classes recorded by the blocks at the first `n` positions of `order`.
pub open spec fn classes_upto(f: FunctionModel, n: int) -> Map<u32, GuardClass>
    decreases n,
{
    if n <= 0 {
        Map::empty()
    } else {
        block_classes(classes_upto(f, n - 1), f.blocks[f.order[n - 1]])
    }
}

/// The class of every guard local mentioned in the function.
pub open spec fn guard_classes_spec(f: FunctionModel) -> Map<u32, GuardClass> {
    classes_upto(f, f.order.len() as int)
}

/// The class reported for a live local: its recorded class, else `Sleepable`.
pub open spec fn class_for(classes: Map<u32, GuardClass>, l: u32) -> GuardClass {
    if classes.contains_key(l) { classes[l] } else { GuardClass::Sleepable }
}

// ---------------------------------------------------------------------------
// Monotonicity
// ---------------------------------------------------------------------------

pub proof fn lemma_apply_mono(stmts: Seq<Stmt>, a: Set<u32>, b: Set<u32>)
    requires
        a.subset_of(b),
    ensures
        apply_stmts_spec(stmts, a).subset_of(apply_stmts_spec(stmts, b)),
    decreases stmts.len(),
{
    if stmts.len() > 0 {
        lemma_apply_mono(stmts.drop_last(), a, b);
    }
}

/// One round of the analysis is monotone in the state.
pub proof fn lemma_transfer_mono(f: FunctionModel, a: Map<u32, Set<u32>>, b: Map<u32, Set<u32>>)
    requires
        a.dom() == block_ids(f),
        state_le(a, b),
    ensures
        state_le(transfer(f, a), transfer(f, b)),
{
    assert forall|id: u32| #[trigger] transfer(f, a).dom().contains(id) implies transfer(f, a)[id].subset_of(
        transfer(f, b)[id],
    ) by {
        {
            assert forall|l: u32| transfer(f, a)[id].contains(l) implies transfer(f, b)[id].contains(l) by {
                assert(flows_before(f, a, f.order.len() as int, id, l));
                let j = choose|j: int| 0 <= j < f.order.len() && #[trigger] block_out(f, a, j, id, l);
                let t = f.blocks[f.order[j]].term;
                let aa = live_after(f, a, j);
                let bb = live_after(f, b, j);
                assert(f.order.to_set().contains(f.order[j]));
                assert(a.dom().contains(f.order[j]));
                lemma_apply_mono(f.blocks[f.order[j]].stmts, a[f.order[j]], b[f.order[j]]);
                assert(aa.subset_of(bb));
                let kk = choose|kk: int| 0 <= kk < edge_count(t) && #[trigger] edge_hit(t, aa, kk, id, l);
                assert(edge_hit(t, bb, kk, id, l));
                assert(block_out(f, b, j, id, l));
            }
        }
    }
}

/// The least fixpoint is unique.
pub proof fn lemma_least_fixpoint_unique(f: FunctionModel, r: Map<u32, Set<u32>>)
    requires
        is_least_fixpoint(f, r),
    ensures
        least_fixpoint(f) == r,
{
    let c = least_fixpoint(f);
    assert(is_least_fixpoint(f, c));
    assert(is_prefixpoint(f, r));
    assert(is_prefixpoint(f, c));
    assert(state_le(c, r));
    assert(state_le(r, c));
    assert forall|k: u32| #[trigger] c.dom().contains(k) implies c[k] == r[k] by {
        assert(c[k] =~= r[k]);
    }
    assert(c =~= r);
}

// ---------------------------------------------------------------------------
// The finite universe of guard locals
// ---------------------------------------------------------------------------

pub open spec fn stmt_locals(stmts: Seq<Stmt>) -> Set<u32>
    decreases stmts.len(),
{
    if stmts.len() == 0 {
        Set::empty()
    } else {
        let s = stmt_locals(stmts.drop_last());
        match stmts.last() {
            Stmt::Acquire { local, .. } => s.insert(local.0),
            Stmt::Kill { .. } => s,
        }
    }
}

pub open spec fn succ_locals(succs: Seq<Successor>) -> Set<u32>
    decreases succs.len(),
{
    if succs.len() == 0 {
        Set::empty()
    } else {
        let s = succ_locals(succs.drop_last());
        match succs.last().activate {
            Some(a) => s.insert((a.0).0),
            None => s,
        }
    }
}

pub open spec fn term_locals(t: TermModel) -> Set<u32> {
    match t {
        TermModel::Branch { succs } => succ_locals(succs),
        _ => Set::empty(),
    }
}

/// Every local that the blocks at the first `n` positions of `order` can make live.
pub open spec fn locals_upto(f: FunctionModel, n: int) -> Set<u32>
    decreases n,
{
    if n <= 0 {
        Set::empty()
    } else {
        let b = f.blocks[f.order[n - 1]];
        locals_upto(f, n - 1).union(stmt_locals(b.stmts)).union(term_locals(b.term))
    }
}

proof fn lemma_stmt_locals_finite(stmts: Seq<Stmt>)
    ensures
        stmt_locals(stmts).finite(),
    decreases stmts.len(),
{
    if stmts.len() > 0 {
        lemma_stmt_locals_finite(stmts.drop_last());
    }
}

proof fn lemma_succ_locals_finite(succs: Seq<Successor>)
    ensures
        succ_locals(succs).finite(),
    decreases succs.len(),
{
    if succs.len() > 0 {
        lemma_succ_locals_finite(succs.drop_last());
    }
}

proof fn lemma_locals_finite(f: FunctionModel, n: int)
    ensures
        locals_upto(f, n).finite(),
    decreases n,
{
    if n > 0 {
        let b = f.blocks[f.order[n - 1]];
        lemma_locals_finite(f, n - 1);
        lemma_stmt_locals_finite(b.stmts);
        if let TermModel::Branch { succs } = b.term {
            lemma_succ_locals_finite(succs);
        }
    }
}

proof fn lemma_apply_within(stmts: Seq<Stmt>, s: Set<u32>)
    ensures
        apply_stmts_spec(stmts, s).subset_of(s.union(stmt_locals(stmts))),
    decreases stmts.len(),
{
    if stmts.len() > 0 {
        lemma_apply_within(stmts.drop_last(), s);
    }
}

proof fn lemma_succ_local_in(succs: Seq<Successor>, k: int)
    requires
        0 <= k < succs.len(),
        succs[k].activate is Some,
    ensures
        succ_locals(succs).contains(((succs[k].activate->0).0).0),
    decreases succs.len(),
{
    if k < succs.len() - 1 {
        lemma_succ_local_in(succs.drop_last(), k);
    }
}

proof fn lemma_block_within(f: FunctionModel, j: int, n: int)
    requires
        0 <= j < n,
    ensures
        stmt_locals(f.blocks[f.order[j]].stmts).subset_of(locals_upto(f, n)),
        term_locals(f.blocks[f.order[j]].term).subset_of(locals_upto(f, n)),
    decreases n,
{
    if j < n - 1 {
        lemma_block_within(f, j, n - 1);
    }
}

/// States whose sets lie in the universe stay there under `transfer`.
proof fn lemma_transfer_bounded(f: FunctionModel, st: Map<u32, Set<u32>>)
    requires
        st.dom() == block_ids(f),
        forall|k: u32| #[trigger] st.dom().contains(k) ==> st[k].subset_of(locals_upto(f, f.order.len() as int)),
    ensures
        forall|k: u32| #[trigger] transfer(f, st).dom().contains(k) ==> transfer(f, st)[k].subset_of(
            locals_upto(f, f.order.len() as int),
        ),
{
    let u = locals_upto(f, f.order.len() as int);
    assert forall|id: u32| #[trigger] transfer(f, st).dom().contains(id) implies transfer(f, st)[id].subset_of(u) by {
        {
            assert forall|l: u32| transfer(f, st)[id].contains(l) implies u.contains(l) by {
                assert(flows_before(f, st, f.order.len() as int, id, l));
                let j = choose|j: int| 0 <= j < f.order.len() && #[trigger] block_out(f, st, j, id, l);
                let b = f.blocks[f.order[j]];
                let aa = live_after(f, st, j);
                let kk = choose|kk: int| 0 <= kk < edge_count(b.term) && #[trigger] edge_hit(b.term, aa, kk, id, l);
                assert(f.order.to_set().contains(f.order[j]));
                lemma_apply_within(b.stmts, st[f.order[j]]);
                lemma_block_within(f, j, f.order.len() as int);
                if let TermModel::Branch { succs } = b.term {
                    if succs[kk].activate is Some {
                        lemma_succ_local_in(succs, kk);
                    }
                }
            }
        }
    }
}

// ---------------------------------------------------------------------------
// The termination measure
// ---------------------------------------------------------------------------

/// The sum of the sizes of the states of the blocks named at the first `n`
/// positions of `order`, each block counted once.
pub open spec fn total_size(st: Map<u32, Set<u32>>, order: Seq<u32>, n: int) -> int
    decreases n,
{
    if n <= 0 {
        0
    } else if order.take(n - 1).contains(order[n - 1]) {
        total_size(st, order, n - 1)
    } else {
        total_size(st, order, n - 1) + st[order[n - 1]].len()
    }
}

proof fn lemma_total_grows(a: Map<u32, Set<u32>>, b: Map<u32, Set<u32>>, order: Seq<u32>, n: int)
    requires
        0 <= n <= order.len(),
        forall|j: int| 0 <= j < n ==> (#[trigger] a[order[j]]).subset_of(b[order[j]]),
        forall|j: int| 0 <= j < n ==> (#[trigger] b[order[j]]).finite(),
    ensures
        total_size(a, order, n) <= total_size(b, order, n),
        (exists|j: int| 0 <= j < n && #[trigger] a[order[j]] != b[order[j]]) ==> total_size(a, order, n)
            < total_size(b, order, n),
    decreases n,
{
    if n > 0 {
        lemma_total_grows(a, b, order, n - 1);
        let x = a[order[n - 1]];
        let y = b[order[n - 1]];
        assert(x.subset_of(y));
        assert(y.finite());
        vstd::set_lib::lemma_len_subset(x, y);
        if x != y {
            if x.len() == y.len() {
                vstd::set_lib::lemma_subset_equality(x, y);
                assert(x == y);
            }
        }
        if exists|j: int| 0 <= j < n && #[trigger] a[order[j]] != b[order[j]] {
            if !(exists|j: int| 0 <= j < n - 1 && #[trigger] a[order[j]] != b[order[j]]) {
                if order.take(n - 1).contains(order[n - 1]) {
                    let j = choose|j: int| 0 <= j < n - 1 && #[trigger] order.take(n - 1)[j] == order[n - 1];
                    assert(a[order[j]] != b[order[j]]);
                }
            }
        }
    }
}

proof fn lemma_total_bound(st: Map<u32, Set<u32>>, order: Seq<u32>, n: int, u: Set<u32>)
    requires
        0 <= n <= order.len(),
        u.finite(),
        forall|j: int| 0 <= j < n ==> (#[trigger] st[order[j]]).subset_of(u),
    ensures
        0 <= total_size(st, order, n) <= order.take(n).to_set().len() * u.len(),
    decreases n,
{
    if n == 0 {
        assert(order.take(0).to_set() =~= Set::<u32>::empty());
    } else {
        lemma_total_bound(st, order, n - 1, u);
        let p = order.take(n - 1);
        let x = order[n - 1];
        assert(order.take(n) =~= p.push(x));
        p.lemma_push_to_set_commute(x);
        vstd::seq_lib::seq_to_set_is_finite(p);
        let c = p.to_set().len();
        if p.contains(x) {
            assert(p.to_set().insert(x) =~= p.to_set());
        } else {
            vstd::set_lib::lemma_len_subset(st[x], u);
            assert(c * u.len() + u.len() == (c + 1) * u.len()) by (nonlinear_arith);
        }
    }
}

/// The state after `n` rounds of the analysis from `bottom`.
pub open spec fn kleene(f: FunctionModel, n: nat) -> Map<u32, Set<u32>>
    decreases n,
{
    if n == 0 {
        bottom(f)
    } else {
        transfer(f, kleene(f, (n - 1) as nat))
    }
}

proof fn lemma_kleene_chain(f: FunctionModel, n: nat)
    ensures
        kleene(f, n).dom() == block_ids(f),
        state_le(kleene(f, n), kleene(f, n + 1)),
        forall|k: u32| #[trigger] kleene(f, n).dom().contains(k) ==> kleene(f, n)[k].subset_of(
            locals_upto(f, f.order.len() as int),
        ),
    decreases n,
{
    assert(transfer(f, kleene(f, n)).dom() =~= block_ids(f));
    if n == 0 {
        assert(bottom(f).dom() =~= block_ids(f));
    } else {
        lemma_kleene_chain(f, (n - 1) as nat);
        assert(kleene(f, n).dom() =~= block_ids(f));
        lemma_transfer_mono(f, kleene(f, (n - 1) as nat), kleene(f, n));
        lemma_transfer_bounded(f, kleene(f, (n - 1) as nat));
    }
}

proof fn lemma_kleene_below(f: FunctionModel, n: nat, s: Map<u32, Set<u32>>)
    requires
        is_prefixpoint(f, s),
    ensures
        state_le(kleene(f, n), s),
    decreases n,
{
    lemma_kleene_chain(f, n);
    if n > 0 {
        let p = kleene(f, (n - 1) as nat);
        lemma_kleene_below(f, (n - 1) as nat, s);
        lemma_kleene_chain(f, (n - 1) as nat);
        lemma_transfer_mono(f, p, s);
        assert forall|k: u32| #[trigger] kleene(f, n).dom().contains(k) implies kleene(f, n)[k].subset_of(s[k]) by {
            assert(transfer(f, p).dom().contains(k));
            assert(transfer(f, s).dom().contains(k));
        }
    }
}

proof fn lemma_kleene_grows(f: FunctionModel, n: nat)
    requires
        forall|m: nat| m < n ==> #[trigger] kleene(f, m + 1) != kleene(f, m),
    ensures
        total_size(kleene(f, n), f.order, f.order.len() as int) >= n,
    decreases n,
{
    let u = locals_upto(f, f.order.len() as int);
    lemma_locals_finite(f, f.order.len() as int);
    lemma_kleene_chain(f, n);
    if n == 0 {
        lemma_total_bound(kleene(f, n), f.order, f.order.len() as int, u);
    } else {
        let a = kleene(f, (n - 1) as nat);
        let b = kleene(f, n);
        lemma_kleene_grows(f, (n - 1) as nat);
        lemma_kleene_chain(f, (n - 1) as nat);
        assert(kleene(f, ((n - 1) as nat) + 1) != a);
        assert(exists|k: u32| #[trigger] a.dom().contains(k) && a[k] != b[k]) by {
            if forall|k: u32| #[trigger] a.dom().contains(k) ==> a[k] == b[k] {
                assert(a =~= b);
            }
        }
        let k = choose|k: u32| #[trigger] a.dom().contains(k) && a[k] != b[k];
        assert(f.order.to_set().contains(k));
        let j = choose|j: int| 0 <= j < f.order.len() && f.order[j] == k;
        assert forall|i: int| 0 <= i < f.order.len() implies (#[trigger] a[f.order[i]]).subset_of(b[f.order[i]]) by {
            assert(f.order.to_set().contains(f.order[i]));
        }
        assert forall|i: int| 0 <= i < f.order.len() implies (#[trigger] b[f.order[i]]).finite() by {
            assert(f.order.to_set().contains(f.order[i]));
            assert(b.dom().contains(f.order[i]));
            vstd::set_lib::lemma_len_subset(b[f.order[i]], u);
            assert(b[f.order[i]] == b[f.order[i]].intersect(u));
        }
        assert(a[f.order[j]] != b[f.order[j]]);
        lemma_total_grows(a, b, f.order, f.order.len() as int);
    }
}

/// Every function has a least fixpoint, reached from `bottom` within as many
/// rounds as there are blocks times locals that can be live.
pub proof fn lemma_least_fixpoint_exists(f: FunctionModel)
    ensures
        is_least_fixpoint(f, least_fixpoint(f)),
        exists|m: nat| m <= block_ids(f).len() * locals_upto(f, f.order.len() as int).len() && #[trigger] kleene(f, m)
            == least_fixpoint(f),
{
    let u = locals_upto(f, f.order.len() as int);
    lemma_locals_finite(f, f.order.len() as int);
    let bound: nat = (block_ids(f).len() * u.len()) as nat;
    assert(0 <= block_ids(f).len() * u.len()) by (nonlinear_arith);
    assert(f.order.take(f.order.len() as int) =~= f.order);
    assert(exists|m: nat| m <= bound && #[trigger] kleene(f, m + 1) == kleene(f, m)) by {
        if !(exists|m: nat| m <= bound && #[trigger] kleene(f, m + 1) == kleene(f, m)) {
            lemma_kleene_grows(f, bound + 1);
            lemma_kleene_chain(f, bound + 1);
            lemma_total_bound(kleene(f, bound + 1), f.order, f.order.len() as int, u);
            assert forall|i: int| 0 <= i < f.order.len() implies (#[trigger] kleene(f, bound + 1)[f.order[i]]).subset_of(u) by {
                assert(f.order.to_set().contains(f.order[i]));
            }
        }
    }
    let m = choose|m: nat| m <= bound && #[trigger] kleene(f, m + 1) == kleene(f, m);
    let r = kleene(f, m);
    lemma_kleene_chain(f, m);
    assert forall|s: Map<u32, Set<u32>>| #[trigger] is_prefixpoint(f, s) implies state_le(r, s) by {
        lemma_kleene_below(f, m, s);
    }
    assert(is_least_fixpoint(f, r));
    lemma_least_fixpoint_unique(f, r);
}

// ---------------------------------------------------------------------------
// Executable analysis
// ---------------------------------------------------------------------------

/// Collect the class of every guard local mentioned in the function.
fn guard_classes(f: &Function) -> (m: BTreeMap<u32, GuardClass>)
    requires
        f@.has_all_blocks(),
    ensures
        m@ == guard_classes_spec(f@),
{
    let mut m: BTreeMap<u32, GuardClass> = BTreeMap::new();
    let mut i: usize = 0;
    while i < f.order.len()
        invariant
            f@.has_all_blocks(),
            i <= f.order@.len(),
            m@ == classes_upto(f@, i as int),
        decreases f.order@.len() - i,
    {
        let id = f.order[i].0;
        assert(f@.order[i as int] == id);
        assert(f@.blocks.contains_key(id));
        let b = match f.blocks.get(&id) {
            Some(b) => b,
            None => { assert(false); return m; },
        };
        assert(b@ == f@.blocks[id]);
        let ghost m0 = m@;
        let mut k: usize = 0;
        while k < b.stmts.len()
            invariant
                k <= b.stmts@.len(),
                m@ == stmt_classes(m0, b.stmts@.take(k as int)),
            decreases b.stmts@.len() - k,
        {
            assert(b.stmts@.take(k + 1).drop_last() =~= b.stmts@.take(k as int));
            match b.stmts[k] {
                Stmt::Acquire { local, class } => {
                    m.insert(local.0, class);
                },
                Stmt::Kill { .. } => {},
            }
            k = k + 1;
        }
        assert(b.stmts@.take(k as int) =~= b.stmts@);
        if let Term::Branch { succs } = &b.term {
            let ghost m1 = m@;
            let mut k: usize = 0;
            while k < succs.len()
                invariant
                    k <= succs@.len(),
                    m@ == succ_classes(m1, succs@.take(k as int)),
                decreases succs@.len() - k,
            {
                assert(succs@.take(k + 1).drop_last() =~= succs@.take(k as int));
                if let Some((local, class)) = succs[k].activate {
                    m.insert(local.0, class);
                }
                k = k + 1;
            }
            assert(succs@.take(k as int) =~= succs@);
        }
        i = i + 1;
    }
    m
}

/// Apply a block's statements to the working set.
fn apply_stmts(b: &Block, set: &mut BTreeSet<u32>)
    requires
    ensures
        final(set)@ == apply_stmts_spec(b.stmts@, old(set)@),
{
    let mut k: usize = 0;
    while k < b.stmts.len()
        invariant
            k <= b.stmts@.len(),
            set@ == apply_stmts_spec(b.stmts@.take(k as int), old(set)@),
        decreases b.stmts@.len() - k,
    {
        assert(b.stmts@.take(k + 1).drop_last() =~= b.stmts@.take(k as int));
        match b.stmts[k] {
            Stmt::Acquire { local, .. } => {
                set.insert(local.0);
            },
            Stmt::Kill { local } => {
                set.remove(&local.0);
            },
        }
        k = k + 1;
    }
    assert(b.stmts@.take(k as int) =~= b.stmts@);
}

/// The outgoing set along each successor edge from a block, given the working
/// set after the block's statements have been applied.
pub fn edge_outputs(term: &Term, after_stmts: &BTreeSet<u32>) -> (r: Vec<(BasicBlock, BTreeSet<u32>)>)
    requires
    ensures
        r@.len() == edge_count(term@),
        forall|k: int| 0 <= k < r@.len() ==> {
            &&& ((#[trigger] r@[k]).0).0 == edge_target(term@, k)
            &&& r@[k].1@ == edge_out(term@, after_stmts@, k)
        },
        r@.len() == successors_of(term@).len(),
        forall|k: int| 0 <= k < r@.len() ==> (#[trigger] r@[k]).0 == successors_of(term@)[k].target,
{
    proof {
        lemma_edges_are_successors(term@);
    }
    match term {
        Term::Call { target, .. } => vec![(*target, after_stmts.clone())],
        Term::Suspend { target } => vec![(*target, after_stmts.clone())],
        Term::Drop { local, target } => {
            let mut s = after_stmts.clone();
            s.remove(&local.0);
            vec![(*target, s)]
        },
        Term::Branch { succs } => {
            let mut r: Vec<(BasicBlock, BTreeSet<u32>)> = Vec::new();
            let mut k: usize = 0;
            while k < succs.len()
                invariant
                    k <= succs@.len(),
                    r@.len() == k,
                    forall|j: int| 0 <= j < k ==> {
                        &&& ((#[trigger] r@[j]).0).0 == edge_target(term@, j)
                        &&& r@[j].1@ == edge_out(term@, after_stmts@, j)
                    },
                    term@ == (TermModel::Branch { succs: succs@ }),
                decreases succs@.len() - k,
            {
                let succ = succs[k];
                let mut s = after_stmts.clone();
                if let Some((local, _)) = succ.activate {
                    s.insert(local.0);
                }
                r.push((succ.target, s));
                k = k + 1;
            }
            r
        },
        Term::Return => Vec::new(),
    }
}

/// The sets held in a map of sets of locals.
pub open spec fn state_of(m: Map<u32, BTreeSet<u32>>) -> Map<u32, Set<u32>> {
    Map::new(|k: u32| m.contains_key(k), |k: u32| m[k]@)
}

/// A map from every block id of `order` to the empty set.
fn empty_state(f: &Function) -> (m: BTreeMap<u32, BTreeSet<u32>>)
    ensures
        m@.dom() == block_ids(f@),
        state_of(m@) == bottom(f@),
{
    let mut m: BTreeMap<u32, BTreeSet<u32>> = BTreeMap::new();
    let mut i: usize = 0;
    while i < f.order.len()
        invariant
            i <= f.order@.len(),
            forall|k: u32| #[trigger] m@.contains_key(k) <==> exists|j: int| 0 <= j < i && f@.order[j] == k,
            forall|k: u32| #[trigger] m@.contains_key(k) ==> m@[k]@ == Set::<u32>::empty(),
        decreases f.order@.len() - i,
    {
        let id = f.order[i].0;
        assert(f@.order[i as int] == id);
        m.insert(id, BTreeSet::new());
        i = i + 1;
    }
    proof {
        assert forall|k: u32| state_of(m@).dom().contains(k) <==> bottom(f@).dom().contains(k) by {
            if bottom(f@).dom().contains(k) {
                let j = choose|j: int| 0 <= j < f@.order.len() && f@.order[j] == k;
                assert(exists|j: int| 0 <= j < i && f@.order[j] == k);
            }
            if state_of(m@).dom().contains(k) {
                let j = choose|j: int| 0 <= j < i && f@.order[j] == k;
                assert(f@.order.to_set().contains(k));
            }
        }
        assert(state_of(m@) =~= bottom(f@));
        assert(m@.dom() =~= block_ids(f@));
    }
    m
}

/// Forward fixpoint: returns the in-state (guards live on entry) of each block,
/// and the number of rounds it took.
/// The result is the least fixpoint of `transfer`, the state after that many
/// rounds from `bottom`; there are at most one more rounds than blocks times
/// locals that can be live, since every round but the last adds a guard to
/// some block.
fn fixpoint(f: &Function) -> (r: (BTreeMap<u32, BTreeSet<u32>>, Ghost<nat>))
    requires
        f@.has_all_blocks(),
    ensures
        is_least_fixpoint(f@, state_of(r.0@)),
        state_of(r.0@) == kleene(f@, r.1@),
        1 <= r.1@ <= 1 + block_ids(f@).len() * locals_upto(f@, f@.order.len() as int).len(),
{
    let ghost fm = f@;
    let ghost u = locals_upto(fm, fm.order.len() as int);
    let ghost n = fm.order.len() as int;
    let ghost bk = block_ids(fm).len();
    proof {
        lemma_locals_finite(fm, n);
        assert(fm.order.take(n) =~= fm.order);
    }
    let mut in_state = empty_state(f);
    let mut changed = true;
    let ghost mut rounds: nat = 0;
    proof {
        assert(state_of(in_state@).dom() =~= block_ids(fm));
        lemma_transfer_bounded(fm, state_of(in_state@));
        assert(state_le(state_of(in_state@), transfer(fm, state_of(in_state@))));
        lemma_total_bound(state_of(in_state@), fm.order, n, u);
    }
    while changed
        invariant
            fm == f@,
            fm.has_all_blocks(),
            n == fm.order.len(),
            u == locals_upto(fm, n),
            u.finite(),
            state_of(in_state@).dom() == block_ids(fm),
            state_le(state_of(in_state@), transfer(fm, state_of(in_state@))),
            forall|s: Map<u32, Set<u32>>| #[trigger] is_prefixpoint(fm, s) ==> state_le(state_of(in_state@), s),
            forall|k: u32| #[trigger] state_of(in_state@).dom().contains(k) ==> state_of(in_state@)[k].subset_of(u),
            !changed ==> transfer(fm, state_of(in_state@)) == state_of(in_state@),
            bk == block_ids(fm).len(),
            fm.order.take(n) == fm.order,
            0 <= total_size(state_of(in_state@), fm.order, n) <= bk * u.len(),
            state_of(in_state@) == kleene(fm, rounds),
            rounds <= total_size(state_of(in_state@), fm.order, n) + (if changed { 0int } else { 1int }),
            !changed ==> rounds >= 1,
        decreases bk * u.len() - total_size(state_of(in_state@), fm.order, n) + (if changed { 1int } else { 0int }),
    {
        let ghost s0 = state_of(in_state@);
        let ghost t0 = transfer(fm, s0);
        changed = false;
        let mut next = empty_state(f);
        proof {
            assert forall|id: u32| #[trigger] next@.contains_key(id) implies next@[id]@ == flow_upto(fm, s0, 0, id) by {
                assert(next@[id]@ == state_of(next@)[id]);
                assert(flow_upto(fm, s0, 0, id) =~= Set::<u32>::empty());
            }
        }
        // Accumulate what every block sends along its edges.
        let mut i: usize = 0;
        while i < f.order.len()
            invariant
                fm == f@,
                fm.has_all_blocks(),
                s0 == state_of(in_state@),
                s0.dom() == block_ids(fm),
                i <= fm.order.len(),
                next@.dom() == block_ids(fm),
                forall|id: u32| #[trigger] next@.contains_key(id) ==> next@[id]@ == flow_upto(fm, s0, i as int, id),
            decreases fm.order.len() - i,
        {
            let id = f.order[i].0;
            assert(fm.order[i as int] == id);
            assert(fm.blocks.contains_key(id));
            assert(fm.order.to_set().contains(id));
            let b = match f.blocks.get(&id) {
                Some(b) => b,
                None => { assert(false); return (in_state, Ghost(rounds)); },
            };
            assert(b@ == fm.blocks[id]);
            let mut cur = match in_state.get(&id) {
                Some(c) => c.clone(),
                None => { assert(false); return (in_state, Ghost(rounds)); },
            };
            apply_stmts(b, &mut cur);
            let ghost after = cur@;
            assert(after == live_after(fm, s0, i as int));
            let outs = edge_outputs(&b.term, &cur);
            let ghost t = b.term@;
            let mut k: usize = 0;
            while k < outs.len()
                invariant
                    fm == f@,
                    next@.dom() == block_ids(fm),
                    k <= outs@.len(),
                    outs@.len() == edge_count(t),
                    forall|kk: int| 0 <= kk < outs@.len() ==> {
                        &&& ((#[trigger] outs@[kk]).0).0 == edge_target(t, kk)
                        &&& outs@[kk].1@ == edge_out(t, after, kk)
                    },
                    forall|id: u32| #[trigger] next@.contains_key(id) ==> next@[id]@ == flow_upto(fm, s0, i as int, id).union(
                        edges_upto(t, after, k as int, id)),
                decreases outs@.len() - k,
            {
                let target = outs[k].0.0;
                let ghost nx0 = next@;
                if next.contains_key(&target) {
                    let mut d = match next.remove(&target) {
                        Some(d) => d,
                        None => { assert(false); return (in_state, Ghost(rounds)); },
                    };
                    union_into(&mut d, &outs[k].1);
                    next.insert(target, d);
                }
                proof {
                    assert forall|id: u32| #[trigger] next@.contains_key(id) implies next@[id]@ == flow_upto(fm, s0, i as int, id).union(
                        edges_upto(t, after, k + 1, id)) by {
                        assert(nx0.contains_key(id));
                        assert forall|l: u32| #[trigger] edges_upto(t, after, k + 1, id).contains(l) <==> (edges_upto(t, after, k as int, id).contains(l)
                            || edge_hit(t, after, k as int, id, l)) by {
                            if edges_before(t, after, k + 1, id, l) && !edges_before(t, after, k as int, id, l) {
                                let kk = choose|kk: int| 0 <= kk < k + 1 && #[trigger] edge_hit(t, after, kk, id, l);
                                assert(kk == k);
                            }
                            if edges_before(t, after, k as int, id, l) {
                                let kk = choose|kk: int| 0 <= kk < k && #[trigger] edge_hit(t, after, kk, id, l);
                                assert(edge_hit(t, after, kk, id, l));
                            }
                        }
                        if id == target {
                            assert forall|l: u32| #[trigger] outs@[k as int].1@.contains(l) implies edge_hit(t, after, k as int, id, l) by {}
                            assert forall|l: u32| edge_hit(t, after, k as int, id, l) implies #[trigger] outs@[k as int].1@.contains(l) by {}
                        } else {
                            assert forall|l: u32| !edge_hit(t, after, k as int, id, l) by {}
                        }
                        assert(next@[id]@ =~= flow_upto(fm, s0, i as int, id).union(edges_upto(t, after, k + 1, id)));
                    }
                }
                k = k + 1;
            }
            proof {
                assert forall|id: u32| #[trigger] next@.contains_key(id) implies next@[id]@ == flow_upto(fm, s0, i + 1, id) by {
                    assert forall|l: u32| #[trigger] flow_upto(fm, s0, i + 1, id).contains(l) <==> (flow_upto(fm, s0, i as int, id).contains(l)
                        || edges_upto(t, after, k as int, id).contains(l)) by {
                        if flows_before(fm, s0, i + 1, id, l) {
                            let j = choose|j: int| 0 <= j < i + 1 && #[trigger] block_out(fm, s0, j, id, l);
                            if j < i {
                                assert(flows_before(fm, s0, i as int, id, l));
                            } else {
                                assert(carries(t, after, id, l));
                            }
                        }
                        if flows_before(fm, s0, i as int, id, l) {
                            let j = choose|j: int| 0 <= j < i && #[trigger] block_out(fm, s0, j, id, l);
                            assert(block_out(fm, s0, j, id, l));
                        }
                        if edges_before(t, after, k as int, id, l) {
                            assert(block_out(fm, s0, i as int, id, l));
                        }
                    }
                    assert(next@[id]@ =~= flow_upto(fm, s0, i + 1, id));
                }
            }
            i = i + 1;
        }
        proof {
            assert forall|id: u32| #[trigger] next@.contains_key(id) implies next@[id]@ == t0[id] by {
                assert(next@[id]@ =~= t0[id]);
            }
        }
        // Merge: each block's new in-state is what its predecessors sent it.
        let mut i: usize = 0;
        while i < f.order.len()
            invariant
                fm == f@,
                s0.dom() == block_ids(fm),
                t0 == transfer(fm, s0),
                i <= fm.order.len(),
                next@.dom() == block_ids(fm),
                forall|id: u32| #[trigger] next@.contains_key(id) ==> next@[id]@ == t0[id],
                state_of(in_state@).dom() == block_ids(fm),
                forall|id: u32| #[trigger] state_of(in_state@).dom().contains(id) ==> (state_of(in_state@)[id]
                    == t0[id] || state_of(in_state@)[id] == s0[id]),
                forall|j: int| 0 <= j < i ==> state_of(in_state@)[#[trigger] fm.order[j]] == t0[fm.order[j]],
                changed <==> exists|j: int| 0 <= j < i && t0[#[trigger] fm.order[j]] != s0[fm.order[j]],
                forall|id: u32| #[trigger] state_of(in_state@).dom().contains(id) && state_of(in_state@)[id]
                    != s0[id] ==> changed,
            decreases fm.order.len() - i,
        {
            let id = f.order[i].0;
            assert(fm.order[i as int] == id);
            assert(fm.order.to_set().contains(id));
            let merged = match next.get(&id) {
                Some(d) => d.clone(),
                None => { assert(false); return (in_state, Ghost(rounds)); },
            };
            assert(merged@ == t0[id]);
            let same = match in_state.get(&id) {
                Some(c) => same_set(&merged, c),
                None => { assert(false); return (in_state, Ghost(rounds)); },
            };
            let ghost c0 = changed;
            let ghost st_before = state_of(in_state@);
            if !same {
                in_state.insert(id, merged);
                changed = true;
                assert(state_of(in_state@) =~= st_before.insert(id, t0[id]));
            }
            proof {
                assert forall|j: int| 0 <= j < i + 1 implies state_of(in_state@)[#[trigger] fm.order[j]]
                    == t0[fm.order[j]] by {
                    if j < i {
                        assert(fm.order.to_set().contains(fm.order[j]));
                    }
                }
                if changed {
                    if c0 {
                        let j = choose|j: int| 0 <= j < i && t0[#[trigger] fm.order[j]] != s0[fm.order[j]];
                        assert(0 <= j < i + 1 && t0[fm.order[j]] != s0[fm.order[j]]);
                    } else {
                        assert(st_before[id] == s0[id] || st_before[id] == t0[id]);
                        assert(t0[fm.order[i as int]] != s0[fm.order[i as int]]);
                    }
                } else {
                    assert forall|j: int| 0 <= j < i + 1 implies !(t0[#[trigger] fm.order[j]] != s0[fm.order[j]]) by {
                        if j == i {
                            assert(st_before[id] == s0[id]);
                        }
                    }
                }
            }
            i = i + 1;
        }
        proof {
            let s1 = state_of(in_state@);
            assert forall|id: u32| #[trigger] s1.dom().contains(id) implies s1[id] == t0[id] by {
                assert(fm.order.to_set().contains(id));
                let j = choose|j: int| 0 <= j < fm.order.len() && fm.order[j] == id;
                assert(s1[fm.order[j]] == t0[fm.order[j]]);
            }
            assert(s1 =~= t0);
            // Kleene iteration stays below every prefixpoint.
            lemma_transfer_mono(fm, s0, t0);
            assert forall|s: Map<u32, Set<u32>>| #[trigger] is_prefixpoint(fm, s) implies state_le(s1, s) by {
                lemma_transfer_mono(fm, s0, s);
                assert forall|k: u32| #[trigger] s1.dom().contains(k) implies s1[k].subset_of(s[k]) by {
                    assert(transfer(fm, s0)[k].subset_of(transfer(fm, s)[k]));
                    assert(transfer(fm, s)[k].subset_of(s[k]));
                }
            }
            lemma_transfer_bounded(fm, s0);
            if !changed {
                assert forall|k: u32| #[trigger] s1.dom().contains(k) implies s1[k] == s0[k] by {
                    assert(fm.order.to_set().contains(k));
                    let j = choose|j: int| 0 <= j < fm.order.len() && fm.order[j] == k;
                    assert(!(t0[fm.order[j]] != s0[fm.order[j]]));
                }
                assert(s1 =~= s0);
            }
            assert forall|j: int| 0 <= j < n implies (#[trigger] s0[fm.order[j]]).subset_of(s1[fm.order[j]]) by {
                assert(fm.order.to_set().contains(fm.order[j]));
            }
            assert forall|j: int| 0 <= j < n implies (#[trigger] s1[fm.order[j]]).finite() by {
                assert(fm.order.to_set().contains(fm.order[j]));
                vstd::set_lib::lemma_set_subset_finite(u, s1[fm.order[j]]);
            }
            assert forall|j: int| 0 <= j < n implies (#[trigger] s1[fm.order[j]]).subset_of(u) by {
                assert(fm.order.to_set().contains(fm.order[j]));
            }
            lemma_total_grows(s0, s1, fm.order, n);
            lemma_total_bound(s1, fm.order, n, u);
            if changed {
                let j = choose|j: int| 0 <= j < n && t0[#[trigger] fm.order[j]] != s0[fm.order[j]];
                assert(s0[fm.order[j]] != s1[fm.order[j]]);
            }
            assert(kleene(fm, rounds + 1) == transfer(fm, kleene(fm, rounds)));
            rounds = rounds + 1;
        }
    }
    (in_state, Ghost(rounds))
}

/// The guards of `live`, in increasing order of local, with the class recorded for each.
fn held_of(live: &BTreeSet<u32>, classes: &BTreeMap<u32, GuardClass>) -> (h: Vec<(Local, GuardClass)>)
    ensures
        h@ == held_spec(classes@, live@),
{
    let ls = listed(live);
    let mut h: Vec<(Local, GuardClass)> = Vec::new();
    let mut j: usize = 0;
    while j < ls.len()
        invariant
            ls@ == ascending(live@),
            j <= ls@.len(),
            h@ == ls@.take(j as int).map_values(|l: u32| (Local(l), class_for(classes@, l))),
        decreases ls@.len() - j,
    {
        let l = ls[j];
        let class = match classes.get(&l) {
            Some(c) => *c,
            None => GuardClass::Sleepable,
        };
        h.push((Local(l), class));
        j = j + 1;
        assert(h@ =~= ls@.take(j as int).map_values(|l: u32| (Local(l), class_for(classes@, l))));
    }
    assert(ls@.take(j as int) =~= ls@);
    h
}

/// Whether checkpoint `a` sorts strictly before checkpoint `b`.
fn checkpoint_before(a: &Checkpoint, b: &Checkpoint) -> (r: bool)
    ensures
        r == (checkpoint_lt())(a@, b@),
{
    if str_lt(a.func.as_str(), b.func.as_str()) {
        true
    } else {
        a.func == b.func && a.bb.0 < b.bb.0
    }
}

/// Inserts `c` after every checkpoint that it does not sort before.
fn insert_checkpoint(out: &mut Vec<Checkpoint>, c: Checkpoint)
    ensures
        checkpoints_view(final(out)@) == insert_sorted(checkpoints_view(old(out)@), c@, checkpoint_lt()),
{
    let mut p: usize = 0;
    while p < out.len() && !checkpoint_before(&c, &out[p])
        invariant
            p <= out@.len(),
            forall|k: int| 0 <= k < p ==> !(checkpoint_lt())(c@, #[trigger] checkpoints_view(out@)[k]),
        decreases out@.len() - p,
    {
        p = p + 1;
    }
    let ghost q = checkpoints_view(out@);
    proof {
        lemma_insert_at_first_greater(q, c@, checkpoint_lt(), p as int);
    }
    out.insert(p, c);
    assert(checkpoints_view(out@) =~= q.insert(p as int, c@));
}

/// Analyze one function and return its checkpoints, ordered by block number.
pub fn analyze(f: &Function) -> (out: Vec<Checkpoint>)
    requires
        f@.has_all_blocks(),
    ensures
        checkpoints_view(out@) == analysis_spec(f@),
{
    let classes = guard_classes(f);
    let (in_state, _rounds) = fixpoint(f);
    let ghost fm = f@;
    let ghost st = state_of(in_state@);
    proof {
        lemma_least_fixpoint_unique(fm, st);
    }
    let mut out: Vec<Checkpoint> = Vec::new();
    let mut i: usize = 0;
    while i < f.order.len()
        invariant
            fm == f@,
            fm.has_all_blocks(),
            st == state_of(in_state@),
            st.dom() == block_ids(fm),
            classes@ == guard_classes_spec(fm),
            i <= fm.order.len(),
            checkpoints_view(out@) == sort_by(checkpoints_upto(fm, st, classes@, i as int), checkpoint_lt()),
        decreases fm.order.len() - i,
    {
        let bb = f.order[i];
        let id = bb.0;
        assert(fm.order[i as int] == id);
        assert(fm.blocks.contains_key(id));
        assert(fm.order.to_set().contains(id));
        let b = match f.blocks.get(&id) {
            Some(b) => b,
            None => { assert(false); return out; },
        };
        assert(b@ == fm.blocks[id]);
        let mut cur = match in_state.get(&id) {
            Some(c) => c.clone(),
            None => { assert(false); return out; },
        };
        apply_stmts(b, &mut cur);
        assert(cur@ == live_after(fm, st, i as int));
        let held = held_of(&cur, &classes);
        let ghost prev = checkpoints_upto(fm, st, classes@, i as int);
        match &b.term {
            Term::Call { callee, .. } => {
                if callee.is_forbidden {
                    let c = Checkpoint {
                        func: f.name.clone(),
                        bb,
                        kind: CheckpointKind::Call { def_path: callee.def_path.clone() },
                        held,
                    };
                    insert_checkpoint(&mut out, c);
                    assert(prev.push(c@).drop_last() =~= prev);
                }
            },
            Term::Suspend { .. } => {
                let c = Checkpoint { func: f.name.clone(), bb, kind: CheckpointKind::Suspend, held };
                insert_checkpoint(&mut out, c);
                assert(prev.push(c@).drop_last() =~= prev);
            },
            _ => {},
        }
        i = i + 1;
    }
    out
}

/// The checkpoints of the first `n` functions, function after function.
pub open spec fn module_checkpoints(fs: Seq<FunctionModel>, n: int) -> Seq<CheckpointModel>
    decreases n,
{
    if n <= 0 {
        Seq::empty()
    } else {
        module_checkpoints(fs, n - 1) + analysis_spec(fs[n - 1])
    }
}

/// Analyzes every function of a module and orders all checkpoints by function
/// name, then block number.
pub fn analyze_all(funcs: &[Function]) -> (out: Vec<Checkpoint>)
    requires
        forall|i: int| 0 <= i < funcs@.len() ==> (#[trigger] funcs@[i])@.has_all_blocks(),
    ensures
        checkpoints_view(out@) == sort_by(
            module_checkpoints(funcs@.map_values(|f: Function| f@), funcs@.len() as int),
            checkpoint_lt(),
        ),
{
    let ghost fs = funcs@.map_values(|f: Function| f@);
    let mut out: Vec<Checkpoint> = Vec::new();
    let mut i: usize = 0;
    while i < funcs.len()
        invariant
            i <= funcs@.len(),
            fs == funcs@.map_values(|f: Function| f@),
            forall|j: int| 0 <= j < funcs@.len() ==> (#[trigger] funcs@[j])@.has_all_blocks(),
            checkpoints_view(out@) == sort_by(module_checkpoints(fs, i as int), checkpoint_lt()),
        decreases funcs@.len() - i,
    {
        assert(fs[i as int] == funcs@[i as int]@);
        let mut cps = analyze(&funcs[i]);
        let ghost cv = checkpoints_view(cps@);
        let n0 = cps.len();
        assert(cv.len() == n0);
        let ghost before = module_checkpoints(fs, i as int);
        let mut k: usize = 0;
        while cps.len() > 0
            invariant
                k <= cv.len(),
                cv.len() <= usize::MAX,
                cps@.len() + k == cv.len(),
                checkpoints_view(cps@) == cv.skip(k as int),
                checkpoints_view(out@) == sort_by(before + cv.take(k as int), checkpoint_lt()),
            decreases cps@.len(),
        {
            let ghost c0 = checkpoints_view(cps@);
            assert(c0[0] == cv[k as int]);
            let c = cps.remove(0);
            assert(c@ == c0[0]);
            assert(checkpoints_view(cps@) =~= c0.drop_first());
            assert((before + cv.take(k + 1)).drop_last() =~= before + cv.take(k as int));
            assert((before + cv.take(k + 1)).last() == cv[k as int]);
            insert_checkpoint(&mut out, c);
            k = k + 1;
            assert(checkpoints_view(cps@) =~= cv.skip(k as int));
        }
        assert(cv.take(k as int) =~= cv);
        i = i + 1;
    }
    out
}

// ---------------------------------------------------------------------------
// Laws
// ---------------------------------------------------------------------------

/// Program points are strictly ordered by function name, then block number.
pub proof fn lemma_site_order(fa: Seq<char>, ba: u32, fb: Seq<char>, bb: u32, fc: Seq<char>, bc: u32)
    ensures
        !site_lt(fa, ba, fa, ba),
        site_lt(fa, ba, fb, bb) && site_lt(fb, bb, fc, bc) ==> site_lt(fa, ba, fc, bc),
{
    lemma_seq_lt_irreflexive(fa);
    if site_lt(fa, ba, fb, bb) && site_lt(fb, bb, fc, bc) {
        if seq_lt(fa, fb) && seq_lt(fb, fc) {
            lemma_seq_lt_transitive(fa, fb, fc);
        }
    }
}

/// Two sites are ordered one way or the other, or they are the same site; so
/// a site below `b` sorts below any `c` that `b` does not sort below.
pub proof fn lemma_site_weak(fa: Seq<char>, ba: u32, fb: Seq<char>, bb: u32, fc: Seq<char>, bc: u32)
    ensures
        site_lt(fa, ba, fb, bb) || site_lt(fb, bb, fa, ba) || (fa == fb && ba == bb),
        site_lt(fa, ba, fb, bb) ==> site_lt(fa, ba, fc, bc) || site_lt(fc, bc, fb, bb),
{
    if fa != fb {
        lemma_seq_lt_total(fa, fb);
    }
    if site_lt(fa, ba, fb, bb) && !site_lt(fa, ba, fc, bc) && !site_lt(fc, bc, fb, bb) {
        if fa != fc {
            lemma_seq_lt_total(fa, fc);
        }
        if fc != fb {
            lemma_seq_lt_total(fc, fb);
        }
        lemma_site_order(fb, bb, fc, bc, fa, ba);
        lemma_site_order(fa, ba, fb, bb, fa, ba);
        if seq_lt(fb, fc) && seq_lt(fc, fa) {
            lemma_seq_lt_transitive(fb, fc, fa);
        }
        if seq_lt(fa, fb) && seq_lt(fb, fa) {
            lemma_seq_lt_transitive(fa, fb, fa);
            lemma_seq_lt_irreflexive(fa);
        }
    }
}

pub proof fn lemma_checkpoint_lt_strict()
    ensures
        strict_order(checkpoint_lt()),
{
    assert forall|a: CheckpointModel| !#[trigger] (checkpoint_lt())(a, a) by {
        lemma_site_order(a.func, a.bb, a.func, a.bb, a.func, a.bb);
    }
    assert forall|a: CheckpointModel, b: CheckpointModel, c: CheckpointModel|
        #[trigger] (checkpoint_lt())(a, b) && #[trigger] (checkpoint_lt())(b, c) implies (checkpoint_lt())(a, c) by {
        lemma_site_order(a.func, a.bb, b.func, b.bb, c.func, c.bb);
    }
}

/// The checkpoints of a function are ordered by block number, and they are
/// exactly the checkpoints of its forbidden calls and suspends.
pub proof fn lemma_analysis_sorted(f: FunctionModel)
    ensures
        sorted_by(analysis_spec(f), checkpoint_lt()),
        analysis_spec(f).to_multiset() == checkpoints_upto(
            f,
            least_fixpoint(f),
            guard_classes_spec(f),
            f.order.len() as int,
        ).to_multiset(),
{
    lemma_checkpoint_lt_strict();
    lemma_sort_by_sorted(
        checkpoints_upto(f, least_fixpoint(f), guard_classes_spec(f), f.order.len() as int),
        checkpoint_lt(),
    );
}

/// A block that no edge leads to is clear on entry: no guard is live there.
pub proof fn lemma_unreached_clear(f: FunctionModel, r: Map<u32, Set<u32>>, target: u32)
    requires
        is_least_fixpoint(f, r),
        f.order.contains(target),
        forall|j: int, k: int| 0 <= j < f.order.len() && 0 <= k < edge_count(f.blocks[f.order[j]].term) ==> #[trigger] edge_target(
            f.blocks[f.order[j]].term,
            k,
        ) != target,
    ensures
        r[target] == Set::<u32>::empty(),
{
    assert(transfer(f, r)[target] == r[target]);
    assert forall|l: u32| !r[target].contains(l) by {
        if r[target].contains(l) {
            assert(flows_before(f, r, f.order.len() as int, target, l));
            let j = choose|j: int| 0 <= j < f.order.len() && #[trigger] block_out(f, r, j, target, l);
            let t = f.blocks[f.order[j]].term;
            let kk = choose|kk: int| 0 <= kk < edge_count(t) && #[trigger] edge_hit(t, live_after(f, r, j), kk, target, l);
            assert(edge_target(t, kk) != target);
        }
    }
    assert(r[target] =~= Set::<u32>::empty());
}

/// May-held: a guard that some block sends live into another block is live on
/// entry to that block, whichever block it is.
pub proof fn lemma_live_on_some_path(f: FunctionModel, r: Map<u32, Set<u32>>, j: int, target: u32, l: u32)
    requires
        is_least_fixpoint(f, r),
        0 <= j < f.order.len(),
        f.order.contains(target),
        block_out(f, r, j, target, l),
    ensures
        r[target].contains(l),
{
    assert(flows_before(f, r, f.order.len() as int, target, l));
    assert(transfer(f, r)[target] == r[target]);
}

/// Precision: a guard live on entry to a block was sent there by some block.
pub proof fn lemma_live_has_a_source(f: FunctionModel, r: Map<u32, Set<u32>>, target: u32, l: u32)
    requires
        is_least_fixpoint(f, r),
        f.order.contains(target),
        r[target].contains(l),
    ensures
        exists|j: int| 0 <= j < f.order.len() && #[trigger] block_out(f, r, j, target, l),
{
    assert(transfer(f, r)[target] == r[target]);
}

/// The edges the analysis follows are the successor edges of the terminator,
/// in the same order.
pub proof fn lemma_edges_are_successors(t: TermModel)
    ensures
        edge_count(t) == successors_of(t).len(),
        forall|k: int| 0 <= k < edge_count(t) ==> #[trigger] edge_target(t, k) == successors_of(t)[k].target.0,
{
}

// ---------------------------------------------------------------------------
// What the analysis reports, block by block
// ---------------------------------------------------------------------------

/// The block at position `j` of `order` ends in a call marked forbidden.
pub open spec fn forbidden_call_at(f: FunctionModel, j: int) -> bool {
    f.blocks[f.order[j]].term is Call && f.blocks[f.order[j]].term->is_forbidden
}

/// The block at position `j` of `order` ends in a suspend point.
pub open spec fn suspend_at(f: FunctionModel, j: int) -> bool {
    f.blocks[f.order[j]].term is Suspend
}

/// Whether a block with this terminator is a place where guards are tested.
pub open spec fn tested_term(t: TermModel) -> bool {
    t is Suspend || (t is Call && t->is_forbidden)
}

proof fn lemma_checkpoints_upto_sites(f: FunctionModel, st: Map<u32, Set<u32>>, cl: Map<u32, GuardClass>, n: int)
    requires
        0 <= n <= f.order.len(),
    ensures
        forall|c: CheckpointModel| #[trigger] checkpoints_upto(f, st, cl, n).contains(c) <==> exists|j: int|
            0 <= j < n && #[trigger] checkpoint_at(f, st, cl, j) == Some(c),
        checkpoints_upto(f, st, cl, n).len() == f.order.take(n).filter(|id: u32| tested_term(f.blocks[id].term)).len(),
    decreases n,
{
    let pred = |id: u32| tested_term(f.blocks[id].term);
    reveal(Seq::filter);
    if n == 0 {
        assert(f.order.take(0).filter(pred) =~= Seq::<u32>::empty());
    } else {
        lemma_checkpoints_upto_sites(f, st, cl, n - 1);
        let r1 = checkpoints_upto(f, st, cl, n - 1);
        let r = checkpoints_upto(f, st, cl, n);
        assert(f.order.take(n).drop_last() =~= f.order.take(n - 1));
        assert(f.order.take(n).last() == f.order[n - 1]);
        assert forall|x: CheckpointModel| #[trigger] r.contains(x) implies exists|j: int|
            0 <= j < n && #[trigger] checkpoint_at(f, st, cl, j) == Some(x) by {
            let i = choose|i: int| 0 <= i < r.len() && r[i] == x;
            if i < r1.len() {
                assert(r1[i] == x);
                assert(r1.contains(x));
            } else {
                assert(checkpoint_at(f, st, cl, n - 1) == Some(x));
            }
        }
        assert forall|x: CheckpointModel| (exists|j: int| 0 <= j < n && #[trigger] checkpoint_at(f, st, cl, j) == Some(x))
            implies #[trigger] r.contains(x) by {
            let j = choose|j: int| 0 <= j < n && #[trigger] checkpoint_at(f, st, cl, j) == Some(x);
            if j < n - 1 {
                assert(r1.contains(x));
                let i = choose|i: int| 0 <= i < r1.len() && r1[i] == x;
                assert(r[i] == x);
            } else {
                assert(r[r.len() - 1] == x);
            }
        }
    }
}

/// The analysis reports a checkpoint at every block that ends in a call marked
/// forbidden (whatever the callee) or in a suspend point, with that call's path
/// or the suspend as its kind; it reports nothing else, and one checkpoint per
/// such block.
pub proof fn lemma_checkpoints_are_the_tested_blocks(f: FunctionModel)
    ensures
        forall|j: int| 0 <= j < f.order.len() && #[trigger] forbidden_call_at(f, j) ==> exists|c: CheckpointModel| {
            &&& #[trigger] analysis_spec(f).contains(c)
            &&& c.func == f.name
            &&& c.bb == f.order[j]
            &&& c.kind == CheckpointKindModel::Call { def_path: f.blocks[f.order[j]].term->def_path }
        },
        forall|j: int| 0 <= j < f.order.len() && #[trigger] suspend_at(f, j) ==> exists|c: CheckpointModel| {
            &&& #[trigger] analysis_spec(f).contains(c)
            &&& c.func == f.name
            &&& c.bb == f.order[j]
            &&& c.kind == CheckpointKindModel::Suspend
        },
        forall|c: CheckpointModel| #[trigger] analysis_spec(f).contains(c) ==> c.func == f.name && exists|j: int| {
            &&& 0 <= j < f.order.len()
            &&& c.bb == f.order[j]
            &&& {
                ||| #[trigger] forbidden_call_at(f, j) && c.kind == CheckpointKindModel::Call {
                    def_path: f.blocks[f.order[j]].term->def_path,
                }
                ||| suspend_at(f, j) && c.kind == CheckpointKindModel::Suspend
            }
        },
        analysis_spec(f).len() == f.order.filter(|id: u32| tested_term(f.blocks[id].term)).len(),
{
    broadcast use vstd::seq_lib::to_multiset_contains;
    let st = least_fixpoint(f);
    let cl = guard_classes_spec(f);
    let n = f.order.len() as int;
    let s = checkpoints_upto(f, st, cl, n);
    let r = analysis_spec(f);
    lemma_checkpoint_lt_strict();
    lemma_sort_by_sorted(s, checkpoint_lt());
    lemma_checkpoints_upto_sites(f, st, cl, n);
    assert(f.order.take(n) =~= f.order);
    assert forall|c: CheckpointModel| r.contains(c) <==> s.contains(c) by {
        assert(r.to_multiset().count(c) == s.to_multiset().count(c));
    }
    assert forall|j: int| 0 <= j < n && #[trigger] forbidden_call_at(f, j) implies exists|c: CheckpointModel| {
        &&& #[trigger] r.contains(c)
        &&& c.func == f.name
        &&& c.bb == f.order[j]
        &&& c.kind == CheckpointKindModel::Call { def_path: f.blocks[f.order[j]].term->def_path }
    } by {
        let c = checkpoint_at(f, st, cl, j)->0;
        assert(checkpoint_at(f, st, cl, j) == Some(c));
        assert(s.contains(c));
    }
    assert forall|j: int| 0 <= j < n && #[trigger] suspend_at(f, j) implies exists|c: CheckpointModel| {
        &&& #[trigger] r.contains(c)
        &&& c.func == f.name
        &&& c.bb == f.order[j]
        &&& c.kind == CheckpointKindModel::Suspend
    } by {
        let c = checkpoint_at(f, st, cl, j)->0;
        assert(checkpoint_at(f, st, cl, j) == Some(c));
        assert(s.contains(c));
    }
    assert forall|c: CheckpointModel| #[trigger] r.contains(c) implies c.func == f.name && exists|j: int| {
        &&& 0 <= j < n
        &&& c.bb == f.order[j]
        &&& {
            ||| #[trigger] forbidden_call_at(f, j) && c.kind == CheckpointKindModel::Call {
                def_path: f.blocks[f.order[j]].term->def_path,
            }
            ||| suspend_at(f, j) && c.kind == CheckpointKindModel::Suspend
        }
    } by {
        assert(s.contains(c));
        let j = choose|j: int| 0 <= j < n && #[trigger] checkpoint_at(f, st, cl, j) == Some(c);
        assert(forbidden_call_at(f, j) || suspend_at(f, j));
    }
    vstd::seq_lib::to_multiset_len(r);
    vstd::seq_lib::to_multiset_len(s);
}

/// The number of times `c` occurs among the checkpoints of the first `n` functions.
pub open spec fn occurrences(fs: Seq<FunctionModel>, n: int, c: CheckpointModel) -> nat
    decreases n,
{
    if n <= 0 {
        0
    } else {
        occurrences(fs, n - 1, c) + analysis_spec(fs[n - 1]).to_multiset().count(c)
    }
}

/// The checkpoints of the first `n` functions, counted.
pub open spec fn checkpoint_total(fs: Seq<FunctionModel>, n: int) -> nat
    decreases n,
{
    if n <= 0 {
        0
    } else {
        checkpoint_total(fs, n - 1) + analysis_spec(fs[n - 1]).len()
    }
}

proof fn lemma_module_counts(fs: Seq<FunctionModel>, n: int)
    requires
        0 <= n <= fs.len(),
    ensures
        forall|c: CheckpointModel| #[trigger] module_checkpoints(fs, n).to_multiset().count(c) == occurrences(fs, n, c),
        module_checkpoints(fs, n).len() == checkpoint_total(fs, n),
    decreases n,
{
    broadcast use vstd::seq_lib::lemma_multiset_commutative, vstd::seq_lib::to_multiset_contains;
    if n == 0 {
        assert forall|c: CheckpointModel| #[trigger] module_checkpoints(fs, 0).to_multiset().count(c) == 0 by {
            assert(!module_checkpoints(fs, 0).contains(c));
        }
    } else {
        lemma_module_counts(fs, n - 1);
        let a = module_checkpoints(fs, n - 1);
        let b = analysis_spec(fs[n - 1]);
        assert forall|c: CheckpointModel| #[trigger] module_checkpoints(fs, n).to_multiset().count(c) == occurrences(fs, n, c) by {
            assert((a + b).to_multiset() == a.to_multiset().add(b.to_multiset()));
            assert(a.to_multiset().count(c) == occurrences(fs, n - 1, c));
        }
    }
}

/// The checkpoints of a module are those of its functions, all of them and
/// nothing else: each occurs as often as it does across the functions'
/// analyses, and their number is the sum of the functions' numbers.
pub proof fn lemma_module_is_all_functions(fs: Seq<FunctionModel>)
    ensures
        forall|c: CheckpointModel| #[trigger] sort_by(module_checkpoints(fs, fs.len() as int), checkpoint_lt()).to_multiset().count(
            c,
        ) == occurrences(fs, fs.len() as int, c),
        sort_by(module_checkpoints(fs, fs.len() as int), checkpoint_lt()).len() == checkpoint_total(fs, fs.len() as int),
{
    let m = module_checkpoints(fs, fs.len() as int);
    lemma_checkpoint_lt_strict();
    lemma_sort_by_sorted(m, checkpoint_lt());
    lemma_module_counts(fs, fs.len() as int);
    vstd::seq_lib::to_multiset_len(m);
    vstd::seq_lib::to_multiset_len(sort_by(m, checkpoint_lt()));
}

/// The edges of a terminator and the live set along each: a branch has one
/// edge per successor, to that successor's target; a call, a suspend point and
/// a drop have one edge, to their target; a return has none. A branch edge
/// that activates a guard adds its local (whichever edge it is), a drop
/// removes its local, and every other edge carries the live set unchanged.
pub proof fn lemma_edge_sets(t: TermModel, after: Set<u32>, k: int)
    requires
        0 <= k < edge_count(t),
    ensures
        t is Branch ==> edge_target(t, k) == t->succs[k].target.0,
        t is Call ==> k == 0 && edge_target(t, k) == t->Call_target,
        t is Suspend ==> k == 0 && edge_target(t, k) == t->Suspend_target,
        t is Drop ==> k == 0 && edge_target(t, k) == t->Drop_target,
        t is Branch && t->succs[k].activate is Some ==> edge_out(t, after, k) == after.insert(((t->succs[k].activate->0).0).0),
        t is Branch && t->succs[k].activate is None ==> edge_out(t, after, k) == after,
        t is Drop ==> edge_out(t, after, k) == after.remove(t->local),
        t is Call || t is Suspend ==> edge_out(t, after, k) == after,
{
}

/// A guard activated on any edge of a branch is live on entry to that edge's
/// target under the least fixpoint.
pub proof fn lemma_activation_is_live(f: FunctionModel, j: int, k: int)
    requires
        0 <= j < f.order.len(),
        f.blocks[f.order[j]].term is Branch,
        0 <= k < f.blocks[f.order[j]].term->succs.len(),
        f.blocks[f.order[j]].term->succs[k].activate is Some,
        f.order.contains(f.blocks[f.order[j]].term->succs[k].target.0),
    ensures
        least_fixpoint(f)[f.blocks[f.order[j]].term->succs[k].target.0].contains(
            ((f.blocks[f.order[j]].term->succs[k].activate->0).0).0,
        ),
{
    let t = f.blocks[f.order[j]].term;
    let target = t->succs[k].target.0;
    let l = ((t->succs[k].activate->0).0).0;
    let r = least_fixpoint(f);
    lemma_least_fixpoint_exists(f);
    let after = live_after(f, r, j);
    assert(edge_hit(t, after, k, target, l));
    assert(block_out(f, r, j, target, l));
    lemma_live_on_some_path(f, r, j, target, l);
}

/// The statement `x` acquires or releases `l`.
pub open spec fn touches(x: Stmt, l: u32) -> bool {
    match x {
        Stmt::Acquire { local, .. } => local.0 == l,
        Stmt::Kill { local } => local.0 == l,
    }
}

/// After a block's statements, a local is live exactly when the last statement
/// that touches it acquires it, or none touches it and it was live before.
pub proof fn lemma_statements_effect(stmts: Seq<Stmt>, s: Set<u32>, l: u32)
    ensures
        apply_stmts_spec(stmts, s).contains(l) <==> {
            ||| exists|i: int| {
                &&& 0 <= i < stmts.len()
                &&& #[trigger] stmts[i] is Acquire
                &&& touches(stmts[i], l)
                &&& forall|k: int| i < k < stmts.len() ==> !touches(#[trigger] stmts[k], l)
            }
            ||| s.contains(l) && forall|k: int| 0 <= k < stmts.len() ==> !touches(#[trigger] stmts[k], l)
        },
    decreases stmts.len(),
{
    if stmts.len() > 0 {
        let p = stmts.drop_last();
        let n = stmts.len() - 1;
        lemma_statements_effect(p, s, l);
        let last_acq = exists|i: int| {
            &&& 0 <= i < stmts.len()
            &&& #[trigger] stmts[i] is Acquire
            &&& touches(stmts[i], l)
            &&& forall|k: int| i < k < stmts.len() ==> !touches(#[trigger] stmts[k], l)
        };
        if touches(stmts[n], l) {
            if stmts[n] is Acquire {
                assert(forall|k: int| n < k < stmts.len() ==> !touches(#[trigger] stmts[k], l));
                assert(last_acq);
            } else {
                assert(!last_acq) by {
                    if last_acq {
                        let i = choose|i: int| {
                            &&& 0 <= i < stmts.len()
                            &&& #[trigger] stmts[i] is Acquire
                            &&& touches(stmts[i], l)
                            &&& forall|k: int| i < k < stmts.len() ==> !touches(#[trigger] stmts[k], l)
                        };
                        assert(i != n);
                        assert(!touches(stmts[n], l));
                    }
                }
                assert(!touches(stmts[n], l) || !(forall|k: int| 0 <= k < stmts.len() ==> !touches(#[trigger] stmts[k], l)));
            }
        } else {
            assert forall|k: int| 0 <= k < p.len() implies p[k] == stmts[k] by {}
            if last_acq {
                let i = choose|i: int| {
                    &&& 0 <= i < stmts.len()
                    &&& #[trigger] stmts[i] is Acquire
                    &&& touches(stmts[i], l)
                    &&& forall|k: int| i < k < stmts.len() ==> !touches(#[trigger] stmts[k], l)
                };
                assert(i < n);
                assert(p[i] is Acquire && touches(p[i], l));
                assert forall|k: int| i < k < p.len() implies !touches(#[trigger] p[k], l) by {
                    assert(p[k] == stmts[k]);
                }
            }
            if exists|i: int| {
                &&& 0 <= i < p.len()
                &&& #[trigger] p[i] is Acquire
                &&& touches(p[i], l)
                &&& forall|k: int| i < k < p.len() ==> !touches(#[trigger] p[k], l)
            } {
                let i = choose|i: int| {
                    &&& 0 <= i < p.len()
                    &&& #[trigger] p[i] is Acquire
                    &&& touches(p[i], l)
                    &&& forall|k: int| i < k < p.len() ==> !touches(#[trigger] p[k], l)
                };
                assert(stmts[i] == p[i]);
                assert forall|k: int| i < k < stmts.len() implies !touches(#[trigger] stmts[k], l) by {
                    if k < n {
                        assert(p[k] == stmts[k]);
                    }
                }
                assert(last_acq);
            }
            if forall|k: int| 0 <= k < p.len() ==> !touches(#[trigger] p[k], l) {
                assert forall|k: int| 0 <= k < stmts.len() implies !touches(#[trigger] stmts[k], l) by {
                    if k < n {
                        assert(p[k] == stmts[k]);
                    }
                }
            }
            if forall|k: int| 0 <= k < stmts.len() ==> !touches(#[trigger] stmts[k], l) {
                assert forall|k: int| 0 <= k < p.len() implies !touches(#[trigger] p[k], l) by {
                    assert(p[k] == stmts[k]);
                }
            }
        }
    }
}

/// The guards that a checkpoint lists are the locals live after its block's
/// statements under the least fixpoint, in strictly increasing order, each
/// with the class recorded for it (sleepable when none is).
pub proof fn lemma_checkpoint_held(f: FunctionModel, c: CheckpointModel)
    requires
        analysis_spec(f).contains(c),
    ensures
        exists|j: int| {
            &&& 0 <= j < f.order.len()
            &&& c.bb == f.order[j]
            &&& forall|l: u32| (exists|k: int| 0 <= k < c.held.len() && (#[trigger] c.held[k]).0.0 == l)
                <==> #[trigger] apply_stmts_spec(f.blocks[f.order[j]].stmts, least_fixpoint(f)[f.order[j]]).contains(l)
        },
        forall|a: int, b: int| 0 <= a < b < c.held.len() ==> (#[trigger] c.held[a]).0.0 < (#[trigger] c.held[b]).0.0,
        forall|k: int| 0 <= k < c.held.len() ==> (#[trigger] c.held[k]).1 == (if guard_classes_spec(f).contains_key(
            c.held[k].0.0,
        ) {
            guard_classes_spec(f)[c.held[k].0.0]
        } else {
            GuardClass::Sleepable
        }),
{
    broadcast use vstd::seq_lib::to_multiset_contains;
    let st = least_fixpoint(f);
    let cl = guard_classes_spec(f);
    let n = f.order.len() as int;
    let s = checkpoints_upto(f, st, cl, n);
    lemma_checkpoint_lt_strict();
    lemma_sort_by_sorted(s, checkpoint_lt());
    lemma_checkpoints_upto_sites(f, st, cl, n);
    assert(analysis_spec(f).to_multiset().count(c) == s.to_multiset().count(c));
    assert(s.contains(c));
    let j = choose|j: int| 0 <= j < n && #[trigger] checkpoint_at(f, st, cl, j) == Some(c);
    let id = f.order[j];
    let live = live_after(f, st, j);
    // The live set is finite: the in-state lies among the locals of the function.
    lemma_least_fixpoint_exists(f);
    let m = choose|m: nat| m <= block_ids(f).len() * locals_upto(f, f.order.len() as int).len() && #[trigger] kleene(f, m)
        == least_fixpoint(f);
    lemma_kleene_chain(f, m);
    lemma_locals_finite(f, n);
    assert(f.order.to_set().contains(id));
    vstd::set_lib::lemma_set_subset_finite(locals_upto(f, n), st[id]);
    lemma_apply_within(f.blocks[id].stmts, st[id]);
    lemma_stmt_locals_finite(f.blocks[id].stmts);
    vstd::set_lib::lemma_set_subset_finite(st[id].union(stmt_locals(f.blocks[id].stmts)), live);
    lemma_ascending_exists(live);
    let q = ascending(live);
    assert(c.held == q.map_values(|l: u32| (Local(l), class_for(cl, l))));
    assert forall|l: u32| (exists|k: int| 0 <= k < c.held.len() && (#[trigger] c.held[k]).0.0 == l)
        <==> #[trigger] apply_stmts_spec(f.blocks[f.order[j]].stmts, st[f.order[j]]).contains(l) by {
        if exists|k: int| 0 <= k < c.held.len() && (#[trigger] c.held[k]).0.0 == l {
            let k = choose|k: int| 0 <= k < c.held.len() && (#[trigger] c.held[k]).0.0 == l;
            assert(q[k] == l);
            assert(q.to_set().contains(l));
        }
        if live.contains(l) {
            assert(q.to_set().contains(l));
            let k = choose|k: int| 0 <= k < q.len() && q[k] == l;
            assert(c.held[k].0.0 == l);
        }
    }
    assert forall|a: int, b: int| 0 <= a < b < c.held.len() implies (#[trigger] c.held[a]).0.0 < (#[trigger] c.held[b]).0.0 by {
        assert(c.held[a].0.0 == q[a] && c.held[b].0.0 == q[b]);
    }
}

/// A return has no edges; a branch has one per successor; the others have one.
pub proof fn lemma_edge_counts(t: TermModel)
    ensures
        t is Return ==> edge_count(t) == 0,
        t is Branch ==> edge_count(t) == t->succs.len(),
        t is Call || t is Suspend || t is Drop ==> edge_count(t) == 1,
{
}

/// Checkpoints are ordered by function name, a name before every longer name
/// it begins and otherwise by the first character where they differ, and
/// within a function by block number.
pub proof fn lemma_checkpoint_order(a: CheckpointModel, b: CheckpointModel)
    ensures
        (checkpoint_lt())(a, b) <==> {
            ||| a.func.len() < b.func.len() && b.func.take(a.func.len() as int) == a.func
            ||| exists|i: int| {
                &&& 0 <= i < a.func.len()
                &&& i < b.func.len()
                &&& a.func.take(i) == b.func.take(i)
                &&& (#[trigger] a.func[i] as int) < (b.func[i] as int)
            }
            ||| a.func == b.func && a.bb < b.bb
        },
{
    crate::sorting::lemma_seq_lt_meaning(a.func, b.func);
}

} // verus!
