//! The analysis of a function does not depend on the order in which its
//! blocks are listed.
use vstd::prelude::*;
use crate::analysis::{
    block_ids, block_out, flow_into, flows_before, transfer, is_prefixpoint, is_least_fixpoint, least_fixpoint,
    lemma_least_fixpoint_exists, lemma_least_fixpoint_unique, stmt_classes, succ_classes, block_classes,
    classes_upto, guard_classes_spec, checkpoint_at, checkpoints_upto, analysis_spec, checkpoint_lt,
    lemma_checkpoint_lt_strict, CheckpointModel,
};
use crate::sorting::lemma_sort_unique;
use crate::ir::{BlockModel, FunctionModel, GuardClass, Local, Stmt, Successor, TermModel};

verus! {

/// `f2` lists the same blocks as `f`, each once, possibly in another order.
pub open spec fn reordered(f: FunctionModel, f2: FunctionModel) -> bool {
    &&& f2.name == f.name
    &&& f2.entry == f.entry
    &&& f2.blocks == f.blocks
    &&& f.order.no_duplicates()
    &&& f2.order.to_multiset() == f.order.to_multiset()
}

proof fn lemma_reordered_sets(f: FunctionModel, f2: FunctionModel)
    requires
        reordered(f, f2),
    ensures
        f2.order.no_duplicates(),
        f2.order.to_set() == f.order.to_set(),
{
    broadcast use vstd::seq_lib::to_multiset_contains;
    f.order.lemma_multiset_has_no_duplicates();
    f2.order.lemma_multiset_has_no_duplicates_conv();
    assert forall|x: u32| f2.order.contains(x) <==> f.order.contains(x) by {
        assert(f2.order.to_multiset().count(x) == f.order.to_multiset().count(x));
    }
    assert(f2.order.to_set() =~= f.order.to_set());
}

/// One round of the analysis sees the blocks only as a set.
proof fn lemma_transfer_reordered(f: FunctionModel, f2: FunctionModel, st: Map<u32, Set<u32>>)
    requires
        f2.blocks == f.blocks,
        f2.order.to_set() == f.order.to_set(),
    ensures
        transfer(f2, st) == transfer(f, st),
{
    assert forall|id: u32| #[trigger] block_ids(f).contains(id) implies flow_into(f2, st, id) == flow_into(f, st, id) by {
        assert forall|l: u32| flow_into(f2, st, id).contains(l) <==> #[trigger] flow_into(f, st, id).contains(l) by {
            if flows_before(f2, st, f2.order.len() as int, id, l) {
                let j = choose|j: int| 0 <= j < f2.order.len() && #[trigger] block_out(f2, st, j, id, l);
                assert(f2.order.to_set().contains(f2.order[j]));
                let j1 = choose|j1: int| 0 <= j1 < f.order.len() && f.order[j1] == f2.order[j];
                assert(block_out(f, st, j1, id, l));
            }
            if flows_before(f, st, f.order.len() as int, id, l) {
                let j = choose|j: int| 0 <= j < f.order.len() && #[trigger] block_out(f, st, j, id, l);
                assert(f.order.to_set().contains(f.order[j]));
                let j1 = choose|j1: int| 0 <= j1 < f2.order.len() && f2.order[j1] == f.order[j];
                assert(block_out(f2, st, j1, id, l));
            }
        }
        assert(flow_into(f2, st, id) =~= flow_into(f, st, id));
    }
    assert(transfer(f2, st) =~= transfer(f, st));
}

/// The in-states do not depend on the order of the blocks.
pub proof fn lemma_fixpoint_reordered(f: FunctionModel, f2: FunctionModel)
    requires
        f2.blocks == f.blocks,
        f2.order.to_set() == f.order.to_set(),
    ensures
        least_fixpoint(f2) == least_fixpoint(f),
{
    lemma_least_fixpoint_exists(f);
    let r = least_fixpoint(f);
    lemma_transfer_reordered(f, f2, r);
    assert forall|s: Map<u32, Set<u32>>| #[trigger] is_prefixpoint(f2, s) implies is_prefixpoint(f, s) by {
        lemma_transfer_reordered(f, f2, s);
    }
    assert(is_least_fixpoint(f2, r));
    lemma_least_fixpoint_unique(f2, r);
}

/// `stmts` acquire a guard of class `c` into `l`.
pub open spec fn stmt_acquires(stmts: Seq<Stmt>, l: u32, c: GuardClass) -> bool {
    exists|i: int| 0 <= i < stmts.len() && #[trigger] stmts[i] == (Stmt::Acquire { local: Local(l), class: c })
}

/// An edge of the terminator activates a guard of class `c` in `l`.
pub open spec fn term_acquires(t: TermModel, l: u32, c: GuardClass) -> bool {
    match t {
        TermModel::Branch { succs } => exists|k: int|
            0 <= k < succs.len() && #[trigger] succs[k].activate == Some((Local(l), c)),
        _ => false,
    }
}

/// The block makes `l` a guard of class `c`.
pub open spec fn block_acquires(b: BlockModel, l: u32, c: GuardClass) -> bool {
    stmt_acquires(b.stmts, l, c) || term_acquires(b.term, l, c)
}

/// No local is made a guard of two different classes.
pub open spec fn one_class_per_local(f: FunctionModel) -> bool {
    forall|i: int, j: int, l: u32, c1: GuardClass, c2: GuardClass|
        0 <= i < f.order.len() && 0 <= j < f.order.len() && #[trigger] block_acquires(f.blocks[f.order[i]], l, c1)
            && #[trigger] block_acquires(f.blocks[f.order[j]], l, c2) ==> c1 == c2
}

proof fn lemma_stmt_classes(m: Map<u32, GuardClass>, stmts: Seq<Stmt>, l: u32)
    ensures
        stmt_classes(m, stmts).contains_key(l) ==> stmt_acquires(stmts, l, stmt_classes(m, stmts)[l]) || (
        m.contains_key(l) && stmt_classes(m, stmts)[l] == m[l]),
        forall|c: GuardClass| #[trigger] stmt_acquires(stmts, l, c) ==> stmt_classes(m, stmts).contains_key(l),
        m.contains_key(l) ==> stmt_classes(m, stmts).contains_key(l),
    decreases stmts.len(),
{
    if stmts.len() > 0 {
        let p = stmts.drop_last();
        let n = stmts.len() - 1;
        lemma_stmt_classes(m, p, l);
        let r1 = stmt_classes(m, p);
        let r = stmt_classes(m, stmts);
        if r.contains_key(l) {
            match stmts.last() {
                Stmt::Acquire { local, class } => {
                    if local.0 == l {
                        assert(stmts[n] == (Stmt::Acquire { local: Local(l), class: r[l] }));
                    } else if stmt_acquires(p, l, r1[l]) {
                        let i = choose|i: int| 0 <= i < p.len() && #[trigger] p[i] == (Stmt::Acquire { local: Local(l), class: r1[l] });
                        assert(stmts[i] == p[i]);
                    }
                },
                Stmt::Kill { .. } => {
                    if stmt_acquires(p, l, r1[l]) {
                        let i = choose|i: int| 0 <= i < p.len() && #[trigger] p[i] == (Stmt::Acquire { local: Local(l), class: r1[l] });
                        assert(stmts[i] == p[i]);
                    }
                },
            }
        }
        assert forall|c: GuardClass| #[trigger] stmt_acquires(stmts, l, c) implies r.contains_key(l) by {
            let i = choose|i: int| 0 <= i < stmts.len() && #[trigger] stmts[i] == (Stmt::Acquire { local: Local(l), class: c });
            if i < n {
                assert(p[i] == stmts[i]);
                assert(stmt_acquires(p, l, c));
            }
        }
    }
}

proof fn lemma_succ_classes(m: Map<u32, GuardClass>, succs: Seq<Successor>, l: u32)
    ensures
        succ_classes(m, succs).contains_key(l) ==> term_acquires(
            TermModel::Branch { succs },
            l,
            succ_classes(m, succs)[l],
        ) || (m.contains_key(l) && succ_classes(m, succs)[l] == m[l]),
        forall|c: GuardClass| #[trigger] term_acquires(TermModel::Branch { succs }, l, c) ==> succ_classes(
            m,
            succs,
        ).contains_key(l),
        m.contains_key(l) ==> succ_classes(m, succs).contains_key(l),
    decreases succs.len(),
{
    if succs.len() > 0 {
        let p = succs.drop_last();
        let n = succs.len() - 1;
        lemma_succ_classes(m, p, l);
        let r1 = succ_classes(m, p);
        let r = succ_classes(m, succs);
        if r.contains_key(l) {
            if succs.last().activate is Some && ((succs.last().activate->0).0).0 == l {
                let a = succs.last().activate->0;
                assert(a.0 == Local(l));
                assert(succs[n].activate == Some((Local(l), r[l])));
            } else if term_acquires(TermModel::Branch { succs: p }, l, r1[l]) {
                let k = choose|k: int| 0 <= k < p.len() && #[trigger] p[k].activate == Some((Local(l), r1[l]));
                assert(succs[k] == p[k]);
            }
        }
        assert forall|c: GuardClass| #[trigger] term_acquires(TermModel::Branch { succs }, l, c) implies r.contains_key(l) by {
            let k = choose|k: int| 0 <= k < succs.len() && #[trigger] succs[k].activate == Some((Local(l), c));
            if k < n {
                assert(p[k] == succs[k]);
                assert(term_acquires(TermModel::Branch { succs: p }, l, c));
            }
        }
    }
}

proof fn lemma_block_classes(m: Map<u32, GuardClass>, b: BlockModel, l: u32)
    ensures
        block_classes(m, b).contains_key(l) ==> block_acquires(b, l, block_classes(m, b)[l]) || (m.contains_key(l)
            && block_classes(m, b)[l] == m[l]),
        forall|c: GuardClass| #[trigger] block_acquires(b, l, c) ==> block_classes(m, b).contains_key(l),
        m.contains_key(l) ==> block_classes(m, b).contains_key(l),
{
    lemma_stmt_classes(m, b.stmts, l);
    let m1 = stmt_classes(m, b.stmts);
    match b.term {
        TermModel::Branch { succs } => {
            lemma_succ_classes(m1, succs, l);
        },
        _ => {},
    }
}

proof fn lemma_classes_upto(f: FunctionModel, n: int, l: u32)
    requires
        0 <= n <= f.order.len(),
    ensures
        classes_upto(f, n).contains_key(l) ==> exists|j: int|
            0 <= j < n && #[trigger] block_acquires(f.blocks[f.order[j]], l, classes_upto(f, n)[l]),
        forall|j: int, c: GuardClass|
            0 <= j < n && #[trigger] block_acquires(f.blocks[f.order[j]], l, c) ==> classes_upto(f, n).contains_key(l),
    decreases n,
{
    if n > 0 {
        lemma_classes_upto(f, n - 1, l);
        let r1 = classes_upto(f, n - 1);
        let b = f.blocks[f.order[n - 1]];
        lemma_block_classes(r1, b, l);
        let r = classes_upto(f, n);
        if r.contains_key(l) {
            if block_acquires(b, l, r[l]) {
                assert(block_acquires(f.blocks[f.order[n - 1]], l, r[l]));
            } else {
                let j = choose|j: int| 0 <= j < n - 1 && #[trigger] block_acquires(f.blocks[f.order[j]], l, r1[l]);
                assert(block_acquires(f.blocks[f.order[j]], l, r[l]));
            }
        }
    }
}

/// A local has a recorded class exactly when some block acquires it or
/// activates it on an edge, and the class recorded is one it is given there;
/// so with one class per local it is that class.
pub proof fn lemma_guard_classes(f: FunctionModel, l: u32)
    ensures
        guard_classes_spec(f).contains_key(l) <==> exists|j: int, c: GuardClass|
            0 <= j < f.order.len() && #[trigger] block_acquires(f.blocks[f.order[j]], l, c),
        guard_classes_spec(f).contains_key(l) ==> exists|j: int|
            0 <= j < f.order.len() && #[trigger] block_acquires(f.blocks[f.order[j]], l, guard_classes_spec(f)[l]),
        one_class_per_local(f) ==> forall|j: int, c: GuardClass|
            0 <= j < f.order.len() && #[trigger] block_acquires(f.blocks[f.order[j]], l, c) ==> guard_classes_spec(f)[l]
                == c,
{
    let n = f.order.len() as int;
    let g = guard_classes_spec(f);
    lemma_classes_upto(f, n, l);
    if g.contains_key(l) {
        let j = choose|j: int| 0 <= j < n && #[trigger] block_acquires(f.blocks[f.order[j]], l, g[l]);
        assert(block_acquires(f.blocks[f.order[j]], l, g[l]));
    }
    if one_class_per_local(f) {
        assert forall|j: int, c: GuardClass| 0 <= j < n && #[trigger] block_acquires(f.blocks[f.order[j]], l, c)
            implies g[l] == c by {
            let j2 = choose|j2: int| 0 <= j2 < n && #[trigger] block_acquires(f.blocks[f.order[j2]], l, g[l]);
        }
    }
}

/// With one class per local, the classes of the guards do not depend on the
/// order of the blocks.
pub proof fn lemma_classes_reordered(f: FunctionModel, f2: FunctionModel)
    requires
        f2.blocks == f.blocks,
        f2.order.to_set() == f.order.to_set(),
        one_class_per_local(f),
    ensures
        guard_classes_spec(f2) == guard_classes_spec(f),
{
    let g = guard_classes_spec(f);
    let g2 = guard_classes_spec(f2);
    let n = f.order.len() as int;
    let n2 = f2.order.len() as int;
    assert forall|l: u32| g.contains_key(l) <==> g2.contains_key(l) by {
        lemma_classes_upto(f, n, l);
        lemma_classes_upto(f2, n2, l);
        if g.contains_key(l) {
            let j = choose|j: int| 0 <= j < n && #[trigger] block_acquires(f.blocks[f.order[j]], l, g[l]);
            assert(f.order.to_set().contains(f.order[j]));
            let j2 = choose|j2: int| 0 <= j2 < n2 && f2.order[j2] == f.order[j];
            assert(block_acquires(f2.blocks[f2.order[j2]], l, g[l]));
        }
        if g2.contains_key(l) {
            let j2 = choose|j2: int| 0 <= j2 < n2 && #[trigger] block_acquires(f2.blocks[f2.order[j2]], l, g2[l]);
            assert(f2.order.to_set().contains(f2.order[j2]));
            let j = choose|j: int| 0 <= j < n && f.order[j] == f2.order[j2];
            assert(block_acquires(f.blocks[f.order[j]], l, g2[l]));
        }
    }
    assert forall|l: u32| g.contains_key(l) implies g[l] == g2[l] by {
        lemma_classes_upto(f, n, l);
        lemma_classes_upto(f2, n2, l);
        let j = choose|j: int| 0 <= j < n && #[trigger] block_acquires(f.blocks[f.order[j]], l, g[l]);
        let j2 = choose|j2: int| 0 <= j2 < n2 && #[trigger] block_acquires(f2.blocks[f2.order[j2]], l, g2[l]);
        assert(f2.order.to_set().contains(f2.order[j2]));
        let j3 = choose|j3: int| 0 <= j3 < n && f.order[j3] == f2.order[j2];
        assert(block_acquires(f.blocks[f.order[j3]], l, g2[l]));
    }
    assert(g =~= g2);
}

proof fn lemma_checkpoints_upto(f: FunctionModel, st: Map<u32, Set<u32>>, cl: Map<u32, GuardClass>, n: int)
    requires
        0 <= n <= f.order.len(),
        f.order.no_duplicates(),
    ensures
        checkpoints_upto(f, st, cl, n).no_duplicates(),
        forall|c: CheckpointModel| #[trigger] checkpoints_upto(f, st, cl, n).contains(c) <==> exists|j: int|
            0 <= j < n && #[trigger] checkpoint_at(f, st, cl, j) == Some(c),
    decreases n,
{
    if n > 0 {
        lemma_checkpoints_upto(f, st, cl, n - 1);
        let r1 = checkpoints_upto(f, st, cl, n - 1);
        let r = checkpoints_upto(f, st, cl, n);
        match checkpoint_at(f, st, cl, n - 1) {
            Some(c) => {
                assert forall|x: CheckpointModel| #[trigger] r.contains(x) <==> (r1.contains(x) || x == c) by {
                    if r.contains(x) {
                        let i = choose|i: int| 0 <= i < r.len() && r[i] == x;
                        if i < r1.len() {
                            assert(r1[i] == x);
                        }
                    }
                    if r1.contains(x) {
                        let i = choose|i: int| 0 <= i < r1.len() && r1[i] == x;
                        assert(r[i] == x);
                    }
                    if x == c {
                        assert(r[r1.len() as int] == x);
                    }
                }
                assert(!r1.contains(c)) by {
                    if r1.contains(c) {
                        let j = choose|j: int| 0 <= j < n - 1 && #[trigger] checkpoint_at(f, st, cl, j) == Some(c);
                        assert(f.order[j] != f.order[n - 1]);
                    }
                }
                assert forall|i: int, k: int| 0 <= i < r.len() && 0 <= k < r.len() && i != k implies r[i] != r[k] by {
                    if i < r1.len() && k < r1.len() {
                        assert(r[i] == r1[i] && r[k] == r1[k]);
                    } else if i < r1.len() {
                        assert(r1.contains(r[i]));
                    } else {
                        assert(r1.contains(r[k]));
                    }
                }
                assert forall|x: CheckpointModel| #[trigger] r.contains(x) implies exists|j: int|
                    0 <= j < n && #[trigger] checkpoint_at(f, st, cl, j) == Some(x) by {
                    if x == c {
                        assert(checkpoint_at(f, st, cl, n - 1) == Some(x));
                    } else {
                        assert(r1.contains(x));
                    }
                }
                assert forall|x: CheckpointModel| (exists|j: int| 0 <= j < n && #[trigger] checkpoint_at(f, st, cl, j) == Some(x))
                    implies #[trigger] r.contains(x) by {
                    let j = choose|j: int| 0 <= j < n && #[trigger] checkpoint_at(f, st, cl, j) == Some(x);
                    if j < n - 1 {
                        assert(r1.contains(x));
                    }
                }
            },
            None => {
                assert forall|x: CheckpointModel| (exists|j: int| 0 <= j < n && #[trigger] checkpoint_at(f, st, cl, j) == Some(x))
                    implies #[trigger] r.contains(x) by {
                    let j = choose|j: int| 0 <= j < n && #[trigger] checkpoint_at(f, st, cl, j) == Some(x);
                    if j < n - 1 {
                        assert(r1.contains(x));
                    }
                }
            },
        }
    }
}

/// Listing the blocks of a function in another order does not change its
/// checkpoints, as long as no local is made a guard of two different classes.
pub proof fn lemma_analysis_reordered(f: FunctionModel, f2: FunctionModel)
    requires
        reordered(f, f2),
        one_class_per_local(f),
    ensures
        analysis_spec(f2) == analysis_spec(f),
{
    lemma_reordered_sets(f, f2);
    lemma_fixpoint_reordered(f, f2);
    lemma_classes_reordered(f, f2);
    lemma_checkpoint_lt_strict();
    let st = least_fixpoint(f);
    let cl = guard_classes_spec(f);
    let n = f.order.len() as int;
    let n2 = f2.order.len() as int;
    let s = checkpoints_upto(f, st, cl, n);
    let s2 = checkpoints_upto(f2, st, cl, n2);
    lemma_checkpoints_upto(f, st, cl, n);
    lemma_checkpoints_upto(f2, st, cl, n2);
    assert forall|c: CheckpointModel| s.contains(c) <==> s2.contains(c) by {
        if s.contains(c) {
            let j = choose|j: int| 0 <= j < n && #[trigger] checkpoint_at(f, st, cl, j) == Some(c);
            assert(f.order.to_set().contains(f.order[j]));
            let j2 = choose|j2: int| 0 <= j2 < n2 && f2.order[j2] == f.order[j];
            assert(checkpoint_at(f2, st, cl, j2) == Some(c));
        }
        if s2.contains(c) {
            let j2 = choose|j2: int| 0 <= j2 < n2 && #[trigger] checkpoint_at(f2, st, cl, j2) == Some(c);
            assert(f2.order.to_set().contains(f2.order[j2]));
            let j = choose|j: int| 0 <= j < n && f.order[j] == f2.order[j2];
            assert(checkpoint_at(f, st, cl, j) == Some(c));
        }
    }
    assert(s.to_set() =~= s2.to_set());
    assert forall|a: CheckpointModel, b: CheckpointModel| s.contains(a) && s.contains(b) && a != b implies (checkpoint_lt())(a, b)
        || (checkpoint_lt())(b, a) by {
        let ja = choose|j: int| 0 <= j < n && #[trigger] checkpoint_at(f, st, cl, j) == Some(a);
        let jb = choose|j: int| 0 <= j < n && #[trigger] checkpoint_at(f, st, cl, j) == Some(b);
        assert(ja != jb);
        assert(f.order[ja] != f.order[jb]);
    }
    lemma_sort_unique(s, s2, checkpoint_lt());
}

} // verus!
