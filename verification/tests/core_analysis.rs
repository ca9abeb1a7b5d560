use guardstate::analysis::{analyze, analyze_all, edge_outputs, Checkpoint, CheckpointKind};
use guardstate::config::{check, Detector};
use guardstate::guards::{default_guards, ReturnShape};
use guardstate::ir::{BasicBlock, Block, Callee, Function, GuardClass, Local, Stmt, Successor, Term};
use std::collections::BTreeMap;

fn block(id: u32, stmts: Vec<Stmt>, term: Term) -> Block {
    Block { id: BasicBlock(id), stmts, term }
}

fn function(name: &str, entry: u32, blocks: Vec<Block>) -> Function {
    let order: Vec<BasicBlock> = blocks.iter().map(|b| b.id).collect();
    let mut map = BTreeMap::new();
    for b in blocks {
        map.insert(b.id.0, b);
    }
    Function { name: name.to_string(), entry: BasicBlock(entry), blocks: map, order }
}

fn call(path: &str, forbidden: bool, target: u32) -> Term {
    Term::Call {
        callee: Callee { def_path: path.to_string(), is_foreign: true, is_forbidden: forbidden },
        target: BasicBlock(target),
    }
}

fn acquire(l: u32, class: GuardClass) -> Stmt {
    Stmt::Acquire { local: Local(l), class }
}

#[test]
fn plain_successor_activates_nothing() {
    let s = Successor::plain(BasicBlock(4));
    assert_eq!(s, Successor { target: BasicBlock(4), activate: None });
}

#[test]
fn successors_of_each_terminator() {
    let f = function("f", 0, vec![]);
    assert_eq!(f.successors(&call("x", false, 3)), vec![Successor::plain(BasicBlock(3))]);
    assert_eq!(f.successors(&Term::Suspend { target: BasicBlock(1) }), vec![Successor::plain(BasicBlock(1))]);
    assert_eq!(
        f.successors(&Term::Drop { local: Local(0), target: BasicBlock(2) }),
        vec![Successor::plain(BasicBlock(2))]
    );
    let succs = vec![
        Successor { target: BasicBlock(5), activate: Some((Local(1), GuardClass::Sleepable)) },
        Successor::plain(BasicBlock(6)),
    ];
    assert_eq!(f.successors(&Term::Branch { succs: succs.clone() }), succs);
    assert!(f.successors(&Term::Return).is_empty());
}

#[test]
fn has_all_blocks_detects_missing_bodies() {
    let mut f = function("f", 0, vec![block(0, vec![], Term::Return)]);
    assert!(f.has_all_blocks());
    f.order.push(BasicBlock(9));
    assert!(!f.has_all_blocks());
}

#[test]
fn checkpoints_are_ordered_by_block_number() {
    // Source order 5, 2, 7; checkpoints come out ordered 2, 5, 7.
    let f = function("f", 5, vec![
        block(5, vec![acquire(0, GuardClass::PreemptDisabling)], Term::Suspend { target: BasicBlock(2) }),
        block(2, vec![], call("msleep", true, 7)),
        block(7, vec![Stmt::Kill { local: Local(0) }], Term::Suspend { target: BasicBlock(8) }),
    ]);
    let cps = analyze(&f);
    let bbs: Vec<u32> = cps.iter().map(|c| c.bb.0).collect();
    assert_eq!(bbs, vec![2, 5, 7]);
    assert_eq!(cps[0].kind, CheckpointKind::Call { def_path: "msleep".to_string() });
    assert_eq!(cps[0].held, vec![(Local(0), GuardClass::PreemptDisabling)]);
    assert_eq!(cps[1].held, vec![(Local(0), GuardClass::PreemptDisabling)]);
    assert!(cps[2].held.is_empty());
}

#[test]
fn back_edge_into_entry_carries_its_guard() {
    // bb1 acquires and loops back to the entry: the guard is live on entry to bb0.
    let f = function("f", 0, vec![
        block(0, vec![], Term::Suspend { target: BasicBlock(1) }),
        block(1, vec![acquire(3, GuardClass::Sleepable)], Term::Branch { succs: vec![Successor::plain(BasicBlock(0))] }),
    ]);
    let cps = analyze(&f);
    assert_eq!(cps.len(), 1);
    assert_eq!(cps[0].held, vec![(Local(3), GuardClass::Sleepable)]);
}

#[test]
fn entry_without_predecessors_is_clear() {
    let f = function("f", 0, vec![
        block(0, vec![], Term::Suspend { target: BasicBlock(1) }),
        block(1, vec![acquire(3, GuardClass::Sleepable)], Term::Return),
    ]);
    let cps = analyze(&f);
    assert_eq!(cps.len(), 1);
    assert!(cps[0].held.is_empty());
}

#[test]
fn non_forbidden_calls_and_returns_are_not_checkpoints() {
    let f = function("f", 0, vec![
        block(0, vec![acquire(0, GuardClass::PreemptDisabling)], call("printk", false, 1)),
        block(1, vec![], Term::Return),
    ]);
    assert!(analyze(&f).is_empty());
}

#[test]
fn drop_terminator_releases_its_local_only() {
    let f = function("f", 0, vec![
        block(0, vec![acquire(0, GuardClass::PreemptDisabling), acquire(1, GuardClass::Sleepable)],
            Term::Drop { local: Local(0), target: BasicBlock(1) }),
        block(1, vec![], Term::Suspend { target: BasicBlock(2) }),
    ]);
    let cps = analyze(&f);
    assert_eq!(cps[0].held, vec![(Local(1), GuardClass::Sleepable)]);
}

#[test]
fn later_acquisition_class_wins() {
    // The same local acquired with two classes: the class recorded last is reported.
    let f = function("f", 0, vec![
        block(0, vec![acquire(0, GuardClass::PreemptDisabling)], Term::Suspend { target: BasicBlock(1) }),
        block(1, vec![acquire(0, GuardClass::Sleepable)], Term::Return),
    ]);
    let cps = analyze(&f);
    assert_eq!(cps[0].held, vec![(Local(0), GuardClass::Sleepable)]);
}

#[test]
fn targets_outside_the_order_are_ignored() {
    let f = function("f", 0, vec![
        block(0, vec![acquire(0, GuardClass::PreemptDisabling)], Term::Branch { succs: vec![Successor::plain(BasicBlock(42))] }),
        block(1, vec![], Term::Suspend { target: BasicBlock(0) }),
    ]);
    let cps = analyze(&f);
    assert_eq!(cps.len(), 1);
    assert!(cps[0].held.is_empty());
}

#[test]
fn detectors_count_their_classes() {
    let d = Detector::block_in_atomic();
    assert_eq!(d.name, "block-in-atomic");
    assert_eq!(d.counted, vec![GuardClass::PreemptDisabling]);
    let a = Detector::any_guard();
    assert_eq!(a.name, "await-holding-guard");
    assert_eq!(a.counted, vec![GuardClass::PreemptDisabling, GuardClass::Sleepable]);
}

fn cp(func: &str, bb: u32, held: Vec<(u32, GuardClass)>) -> Checkpoint {
    Checkpoint {
        func: func.to_string(),
        bb: BasicBlock(bb),
        kind: CheckpointKind::Suspend,
        held: held.into_iter().map(|(l, c)| (Local(l), c)).collect(),
    }
}

#[test]
fn check_filters_classes_and_orders_by_function_then_block() {
    let cps = vec![
        cp("zeta", 1, vec![(0, GuardClass::PreemptDisabling)]),
        cp("alpha", 9, vec![(0, GuardClass::Sleepable), (1, GuardClass::PreemptDisabling)]),
        cp("alpha", 2, vec![(0, GuardClass::Sleepable)]),
        cp("alpha", 3, vec![]),
    ];
    let v = check(&cps, &Detector::block_in_atomic());
    let sites: Vec<(String, u32)> = v.iter().map(|x| (x.func.clone(), x.bb.0)).collect();
    assert_eq!(sites, vec![("alpha".to_string(), 9), ("zeta".to_string(), 1)]);
    assert_eq!(v[0].held, vec![GuardClass::PreemptDisabling]);

    let all = check(&cps, &Detector::any_guard());
    let sites: Vec<(String, u32)> = all.iter().map(|x| (x.func.clone(), x.bb.0)).collect();
    assert_eq!(sites, vec![("alpha".to_string(), 2), ("alpha".to_string(), 9), ("zeta".to_string(), 1)]);
    // The any-guard detector counts every live guard.
    assert_eq!(all[1].held, vec![GuardClass::Sleepable, GuardClass::PreemptDisabling]);
}

#[test]
fn check_keeps_order_of_equal_sites() {
    let mut a = cp("f", 1, vec![(0, GuardClass::PreemptDisabling)]);
    a.kind = CheckpointKind::Call { def_path: "first".to_string() };
    let b = cp("f", 1, vec![(0, GuardClass::PreemptDisabling)]);
    let v = check(&[a, b], &Detector::block_in_atomic());
    assert_eq!(v[0].kind, CheckpointKind::Call { def_path: "first".to_string() });
    assert_eq!(v[1].kind, CheckpointKind::Suspend);
}

#[test]
fn function_names_order_by_bytes() {
    let cps = vec![cp("b", 0, vec![(0, GuardClass::Sleepable)]), cp("B", 0, vec![(0, GuardClass::Sleepable)]),
        cp("ab", 0, vec![(0, GuardClass::Sleepable)]), cp("a", 5, vec![(0, GuardClass::Sleepable)])];
    let v = check(&cps, &Detector::any_guard());
    let names: Vec<&str> = v.iter().map(|x| x.func.as_str()).collect();
    assert_eq!(names, vec!["B", "a", "ab", "b"]);
}

#[test]
fn analyze_all_orders_across_functions() {
    let g = function("g", 0, vec![block(0, vec![], Term::Suspend { target: BasicBlock(1) })]);
    let f = function("f", 0, vec![block(3, vec![], Term::Suspend { target: BasicBlock(1) })]);
    let cps = analyze_all(&[g, f]);
    let sites: Vec<(String, u32)> = cps.iter().map(|x| (x.func.clone(), x.bb.0)).collect();
    assert_eq!(sites, vec![("f".to_string(), 3), ("g".to_string(), 0)]);
}

#[test]
fn default_guard_knowledge_base() {
    let kb = default_guards();
    let paths: Vec<&str> = kb.iter().map(|e| e.def_path).collect();
    assert_eq!(paths, vec![
        "std::sync::MutexGuard",
        "std::sync::RwLockReadGuard",
        "std::sync::RwLockWriteGuard",
        "parking_lot::MutexGuard",
        "kernel::sync::lock::Guard",
    ]);
    assert_eq!(kb[4].class, GuardClass::PreemptDisabling);
    assert_eq!(kb[3].shape, ReturnShape::Bare);
    assert_eq!(kb[0].shape, ReturnShape::Result);
    assert!(kb[..4].iter().all(|e| e.class == GuardClass::Sleepable));
}

fn sites(v: &[guardstate::config::Violation]) -> Vec<(String, u32, Vec<GuardClass>)> {
    v.iter().map(|x| (x.func.clone(), x.bb.0, x.held.clone())).collect()
}

#[test]
fn reordering_blocks_leaves_the_analysis_unchanged() {
    let blocks = || {
        vec![
            block(0, vec![acquire(2, GuardClass::PreemptDisabling)], call("msleep", true, 1)),
            block(1, vec![], Term::Branch {
                succs: vec![
                    Successor { target: BasicBlock(2), activate: Some((Local(4), GuardClass::Sleepable)) },
                    Successor::plain(BasicBlock(3)),
                ],
            }),
            block(2, vec![Stmt::Kill { local: Local(2) }], Term::Suspend { target: BasicBlock(3) }),
            block(3, vec![], call("schedule", true, 0)),
        ]
    };
    let f = function("f", 0, blocks());
    let mut reversed = blocks();
    reversed.reverse();
    let g = function("f", 0, reversed);
    let a = analyze(&f);
    let b = analyze(&g);
    assert_eq!(a.len(), 3);
    assert_eq!(a.len(), b.len());
    for (x, y) in a.iter().zip(b.iter()) {
        assert_eq!((&x.func, x.bb, &x.kind, &x.held), (&y.func, y.bb, &y.kind, &y.held));
    }
    assert_eq!(a[1].bb, BasicBlock(2));
    assert_eq!(a[1].held, vec![(Local(4), GuardClass::Sleepable)]);
    assert_eq!(
        a[2].held,
        vec![(Local(2), GuardClass::PreemptDisabling), (Local(4), GuardClass::Sleepable)]
    );
}

#[test]
fn counting_more_classes_loses_no_violation() {
    let cps = vec![
        cp("g", 4, vec![(0, GuardClass::Sleepable), (1, GuardClass::PreemptDisabling)]),
        cp("g", 1, vec![(3, GuardClass::Sleepable)]),
        cp("f", 7, vec![(2, GuardClass::PreemptDisabling)]),
    ];
    let narrow = check(&cps, &Detector::block_in_atomic());
    let wide = check(&cps, &Detector::any_guard());
    assert!(narrow.len() <= wide.len());
    assert_eq!(sites(&narrow), vec![
        ("f".to_string(), 7, vec![GuardClass::PreemptDisabling]),
        ("g".to_string(), 4, vec![GuardClass::PreemptDisabling]),
    ]);
    assert_eq!(sites(&wide), vec![
        ("f".to_string(), 7, vec![GuardClass::PreemptDisabling]),
        ("g".to_string(), 1, vec![GuardClass::Sleepable]),
        ("g".to_string(), 4, vec![GuardClass::Sleepable, GuardClass::PreemptDisabling]),
    ]);
}

#[test]
fn checking_in_parts_and_merging_gives_the_whole_report() {
    let a = vec![
        cp("m", 3, vec![(0, GuardClass::PreemptDisabling)]),
        cp("b", 1, vec![(0, GuardClass::PreemptDisabling)]),
    ];
    let b = vec![
        cp("m", 1, vec![(1, GuardClass::PreemptDisabling)]),
        cp("z", 0, vec![(0, GuardClass::Sleepable)]),
        cp("b", 1, vec![(2, GuardClass::PreemptDisabling)]),
    ];
    let det = Detector::block_in_atomic();
    let whole = check(&[a.clone(), b.clone()].concat(), &det);
    let first = check(&a, &det);
    let second = check(&b, &det);
    // Merge the two reports by site, the first report's entry first on ties.
    let mut merged = Vec::new();
    let (mut i, mut j) = (0, 0);
    while i < first.len() || j < second.len() {
        let take_first = j == second.len()
            || (i < first.len() && (first[i].func.as_bytes(), first[i].bb.0) <= (second[j].func.as_bytes(), second[j].bb.0));
        if take_first {
            merged.push(first[i].clone());
            i += 1;
        } else {
            merged.push(second[j].clone());
            j += 1;
        }
    }
    assert_eq!(sites(&whole), sites(&merged));
    assert_eq!(whole.len(), 4);
    assert_eq!((whole[0].func.as_str(), whole[0].bb.0), ("b", 1));
    assert_eq!((whole[1].func.as_str(), whole[1].bb.0), ("b", 1));
    assert_eq!((whole[2].func.as_str(), whole[2].bb.0), ("m", 1));
    assert_eq!((whole[3].func.as_str(), whole[3].bb.0), ("m", 3));
}

#[test]
fn edge_outputs_follow_the_successors() {
    let f = function("f", 0, vec![]);
    let mut live = std::collections::BTreeSet::new();
    live.insert(1u32);
    live.insert(3u32);
    let terms = vec![
        call("x", true, 4),
        Term::Suspend { target: BasicBlock(2) },
        Term::Drop { local: Local(3), target: BasicBlock(5) },
        Term::Branch {
            succs: vec![
                Successor { target: BasicBlock(7), activate: Some((Local(9), GuardClass::Sleepable)) },
                Successor::plain(BasicBlock(6)),
            ],
        },
        Term::Return,
    ];
    for t in &terms {
        let outs = edge_outputs(t, &live);
        let targets: Vec<BasicBlock> = outs.iter().map(|e| e.0).collect();
        let succ: Vec<BasicBlock> = f.successors(t).iter().map(|s| s.target).collect();
        assert_eq!(targets, succ);
    }
    let drop = edge_outputs(&terms[2], &live);
    assert_eq!(drop[0].1.iter().copied().collect::<Vec<u32>>(), vec![1]);
    let branch = edge_outputs(&terms[3], &live);
    assert_eq!(branch[0].1.iter().copied().collect::<Vec<u32>>(), vec![1, 3, 9]);
    assert_eq!(branch[1].1.iter().copied().collect::<Vec<u32>>(), vec![1, 3]);
}

#[test]
fn detectors_count_each_class_once() {
    for d in [Detector::block_in_atomic(), Detector::any_guard()] {
        for i in 0..d.counted.len() {
            for j in i + 1..d.counted.len() {
                assert_ne!(d.counted[i], d.counted[j]);
            }
        }
    }
}
