use guardstate::analysis::{analyze, CheckpointKind};
use guardstate::config::{check, Detector};
use guardstate::ir::{BasicBlock, GuardClass, Local, Stmt, Successor, Term};
use guardstate::text::{parse_module, parse_symbol_list, read_module, Interner, ModuleText};

fn forbidden(names: &[&str]) -> Vec<String> {
    names.iter().map(|s| s.to_string()).collect()
}

fn run(src: &str, forb: &[&str], det: &Detector) -> (usize, Vec<guardstate::config::Violation>) {
    let funcs = parse_module(src, &forbidden(forb)).expect("parses");
    let mut cps = Vec::new();
    for f in &funcs {
        cps.extend(analyze(f));
    }
    let v = check(&cps, det);
    (cps.len(), v)
}

#[test]
fn block_in_critical_section_is_reported() {
    let src = "fn bad\nbb0:\n  g = acquire spin_lock\n  call msleep -> bb1\nbb1:\n  drop g\n  ret\n";
    let (n, v) = run(src, &["msleep"], &Detector::block_in_atomic());
    assert_eq!(n, 1);
    assert_eq!(v.len(), 1);
    assert_eq!(v[0].func, "bad");
    assert_eq!(v[0].bb, BasicBlock(0));
    assert_eq!(v[0].kind, CheckpointKind::Call { def_path: "msleep".to_string() });
    assert_eq!(v[0].held, vec![GuardClass::PreemptDisabling]);
}

#[test]
fn guard_dropped_before_block_is_not_reported() {
    let src = "fn good\nbb0:\n  g = acquire spin_lock\n  drop g\n  call msleep -> bb1\nbb1:\n  ret\n";
    let (n, v) = run(src, &["msleep"], &Detector::block_in_atomic());
    assert_eq!(n, 1);
    assert!(v.is_empty());
}

#[test]
fn await_holding_guard_is_reported_by_any_guard() {
    let src = "fn bad\nbb0:\n  g = acquire mutex_lock\n  suspend -> bb1\nbb1:\n  drop g\n  ret\n";
    let (_, v) = run(src, &[], &Detector::any_guard());
    assert_eq!(v.len(), 1);
    assert_eq!(v[0].kind, CheckpointKind::Suspend);
    assert_eq!(v[0].held, vec![GuardClass::Sleepable]);
    // A sleepable guard does not count for the sleep-in-atomic detector.
    let (_, v2) = run(src, &[], &Detector::block_in_atomic());
    assert!(v2.is_empty());
}

#[test]
fn await_after_drop_is_not_reported() {
    let src = "fn good\nbb0:\n  g = acquire mutex_lock\n  drop_call g -> bb1\nbb1:\n  suspend -> bb2\nbb2:\n  ret\n";
    let (n, v) = run(src, &[], &Detector::any_guard());
    assert_eq!(n, 1);
    assert!(v.is_empty());
}

#[test]
fn forget_call_does_not_release() {
    let src = "fn f\nbb0:\n  g = acquire spin_lock\n  forget_call g -> bb1\nbb1:\n  call msleep -> bb2\nbb2:\n  ret\n";
    let (_, v) = run(src, &["msleep"], &Detector::block_in_atomic());
    assert_eq!(v.len(), 1);
    assert_eq!(v[0].bb, BasicBlock(1));
}

#[test]
fn try_lock_guard_is_live_only_on_success_edge() {
    let src = "fn f\nbb0:\n  try g = spin_lock -> ok fail\nok:\n  call msleep -> done\nfail:\n  call msleep -> done\ndone:\n  ret\n";
    let funcs = parse_module(src, &forbidden(&["msleep"])).unwrap();
    let cps = analyze(&funcs[0]);
    assert_eq!(cps.len(), 2);
    // Blocks are numbered in first-seen order: bb0=0, ok=1, fail=2, done=3.
    assert_eq!(cps[0].bb, BasicBlock(1));
    assert_eq!(cps[0].held, vec![(Local(0), GuardClass::PreemptDisabling)]);
    assert_eq!(cps[1].bb, BasicBlock(2));
    assert!(cps[1].held.is_empty());
}

#[test]
fn guard_live_on_one_path_is_live_at_the_merge() {
    let src = "fn f\nentry:\n  goto a\na:\n  g = acquire spin_lock\n  goto m\nb:\n  goto m\nm:\n  call msleep -> x\nx:\n  ret\n";
    let funcs = parse_module(src, &forbidden(&["msleep"])).unwrap();
    let cps = analyze(&funcs[0]);
    assert_eq!(cps.len(), 1);
    assert_eq!(cps[0].held, vec![(Local(0), GuardClass::PreemptDisabling)]);
}

#[test]
fn loop_reaches_a_fixpoint() {
    let src = "fn f\nbb0:\n  goto head\nhead:\n  suspend -> body\nbody:\n  g = acquire spin_lock\n  goto head\n";
    let funcs = parse_module(src, &forbidden(&[])).unwrap();
    let cps = analyze(&funcs[0]);
    assert_eq!(cps.len(), 1);
    assert_eq!(cps[0].bb, BasicBlock(1));
    assert_eq!(cps[0].held, vec![(Local(0), GuardClass::PreemptDisabling)]);
}

#[test]
fn guard_live_on_a_back_edge_into_the_entry_is_reported() {
    let src = "fn f\nbb0:\n  call msleep -> bb1\nbb1:\n  g = acquire spin_lock\n  goto bb0\n";
    let funcs = parse_module(src, &forbidden(&["msleep"])).unwrap();
    let cps = analyze(&funcs[0]);
    assert_eq!(cps.len(), 1);
    assert_eq!(cps[0].bb, BasicBlock(0));
    assert_eq!(cps[0].held, vec![(Local(0), GuardClass::PreemptDisabling)]);
}

#[test]
fn held_guards_are_listed_by_local() {
    let src = "fn f\nbb0:\n  b = acquire mutex_lock\n  a = acquire raw_spin_lock\n  suspend -> bb1\nbb1:\n  ret\n";
    let funcs = parse_module(src, &forbidden(&[])).unwrap();
    let cps = analyze(&funcs[0]);
    assert_eq!(cps[0].held, vec![(Local(0), GuardClass::Sleepable), (Local(1), GuardClass::PreemptDisabling)]);
}

#[test]
fn storage_dead_releases_like_drop() {
    let src = "fn f\nbb0:\n  g = acquire spin_lock\n  storage_dead g\n  suspend -> bb1\nbb1:\n  ret\n";
    let funcs = parse_module(src, &forbidden(&[])).unwrap();
    let cps = analyze(&funcs[0]);
    assert_eq!(cps.len(), 1);
    assert!(cps[0].held.is_empty());
}

#[test]
fn call_symbol_joins_words_and_marks_forbidden() {
    let src = "fn f\nbb0:\n  call std :: thread :: sleep -> bb1\nbb1:\n  ret\n";
    let funcs = parse_module(src, &forbidden(&["std :: thread :: sleep"])).unwrap();
    match &funcs[0].blocks[&0].term {
        Term::Call { callee, target } => {
            assert_eq!(callee.def_path, "std :: thread :: sleep");
            assert!(callee.is_foreign);
            assert!(callee.is_forbidden);
            assert_eq!(*target, BasicBlock(1));
        }
        other => panic!("unexpected {:?}", other),
    }
}

#[test]
fn parse_builds_blocks_order_and_entry() {
    let src = "# comment line\nfn first   # trailing comment\nbb7:\n  x = acquire spin_lock\n  drop x\nbb3:\n  ret\nfn second\nstart::\n";
    let funcs = parse_module(src, &forbidden(&[])).unwrap();
    assert_eq!(funcs.len(), 2);
    let f = &funcs[0];
    assert_eq!(f.name, "first");
    assert_eq!(f.entry, BasicBlock(0));
    assert_eq!(f.order, vec![BasicBlock(0), BasicBlock(1)]);
    let b0 = &f.blocks[&0];
    assert_eq!(b0.stmts, vec![
        Stmt::Acquire { local: Local(0), class: GuardClass::PreemptDisabling },
        Stmt::Kill { local: Local(0) },
    ]);
    // A block without a terminator returns.
    assert_eq!(b0.term, Term::Return);
    assert_eq!(funcs[1].name, "second");
    assert_eq!(funcs[1].order, vec![BasicBlock(0)]);
    assert_eq!(funcs[1].blocks[&0].term, Term::Return);
}

#[test]
fn function_without_blocks_has_entry_zero() {
    let funcs = parse_module("fn empty\n", &forbidden(&[])).unwrap();
    assert_eq!(funcs.len(), 1);
    assert_eq!(funcs[0].entry, BasicBlock(0));
    assert!(funcs[0].blocks.is_empty());
    assert!(funcs[0].order.is_empty());
}

#[test]
fn try_branch_has_activation_on_success_edge() {
    let src = "fn f\nbb0:\n  try g = mutex_lock -> s t\n";
    let funcs = parse_module(src, &forbidden(&[])).unwrap();
    assert_eq!(
        funcs[0].blocks[&0].term,
        Term::Branch {
            succs: vec![
                Successor { target: BasicBlock(1), activate: Some((Local(0), GuardClass::Sleepable)) },
                Successor::plain(BasicBlock(2)),
            ]
        }
    );
}

#[test]
fn parse_errors_name_the_line() {
    let cases: Vec<(&str, &str)> = vec![
        ("fn\n", "line 1: missing function name (`fn`)"),
        ("bb0:\n", "line 1: statement outside a function (`bb0:`)"),
        ("fn f\n  ret\n", "line 2: statement outside a block (`ret`)"),
        ("fn f\nbb0:\n  suspend bb1\n", "line 3: suspend needs -> (`suspend bb1`)"),
        ("fn f\nbb0:\n  call foo bb1\n", "line 3: call needs -> (`call foo bb1`)"),
        ("fn f\nbb0:\n  drop_call g bb1\n", "line 3: drop_call needs -> (`drop_call g bb1`)"),
        ("fn f\nbb0:\n  forget_call g bb1\n", "line 3: forget_call needs -> (`forget_call g bb1`)"),
        ("fn f\nbb0:\n  try g spin_lock -> a b\n", "line 3: try syntax: try LOCAL = KIND -> succ fail (`try g spin_lock -> a b`)"),
        ("fn f\nbb0:\n  try g = spin_lock a b\n", "line 3: try needs -> (`try g = spin_lock a b`)"),
        ("fn f\nbb0:\n  try g = spin_lock -> a\n", "line 3: try needs fail target (`try g = spin_lock -> a`)"),
        ("fn f\nbb0:\n  jump bb1   # nope\n", "line 3: unrecognised statement (`jump bb1`)"),
    ];
    for (src, msg) in cases {
        assert_eq!(parse_module(src, &forbidden(&[])).unwrap_err(), msg);
    }
}

#[test]
fn line_numbers_count_blank_and_comment_lines() {
    let src = "\n\n# c\n\n\n\n\n\n\n\nfn f\nbb0:\n  bogus\n";
    assert_eq!(parse_module(src, &forbidden(&[])).unwrap_err(), "line 13: unrecognised statement (`bogus`)");
}

#[test]
fn unreadable_lines_abort() {
    for src in ["fn f\nbb0:\n  drop\n", "fn f\nbb0:\n  goto\n", "fn f\nbb0:\n  suspend ->\n", "fn f\nbb0:\n  try -> =\n"] {
        assert!(matches!(read_module(src, &forbidden(&[])), ModuleText::Aborted));
    }
    assert!(matches!(read_module("fn f\nbb0:\n  ret\n", &forbidden(&[])), ModuleText::Parsed(_)));
}

#[test]
fn symbol_list_skips_comments_and_blank_lines() {
    let list = parse_symbol_list("# forbidden\nmsleep\n  schedule  # sleeps\n\n   \nmsleep\n");
    assert_eq!(list, vec!["msleep".to_string(), "schedule".to_string()]);
    let list = parse_symbol_list("b\na\nb # again\n  a\nc");
    assert_eq!(list, vec!["b".to_string(), "a".to_string(), "c".to_string()]);
}

#[test]
fn appended_comments_and_inserted_blank_lines_change_nothing() {
    let fb = forbidden(&["msleep"]);
    let src = "fn f\nbb0:\n  g = acquire spin_lock\n  call msleep -> bb1\nbb1:\n  drop g\n  ret\n";
    let commented = "fn f# one\nbb0:#\n  g = acquire spin_lock #two words\n  call msleep -> bb1\nbb1:\n  drop g\n  ret\n# tail";
    let spaced = "\n# head\nfn f\n\nbb0:\n  g = acquire spin_lock\n   \t\n  call msleep -> bb1\n  # note\nbb1:\n  drop g\n  ret\n\n";
    let base = parse_module(src, &fb);
    assert!(base.is_ok());
    assert_eq!(parse_module(commented, &fb), base);
    assert_eq!(parse_module(spaced, &fb), base);
    // Errors read alike too when only comments were added.
    let bad = "fn f\n  ret\n";
    let bad_commented = "fn f # c\n  ret # d\n";
    assert_eq!(parse_module(bad_commented, &fb), parse_module(bad, &fb));
    assert_eq!(parse_module(bad, &fb), Err("line 2: statement outside a block (`ret`)".to_string()));
}

#[test]
fn forbidden_list_only_marks_calls() {
    let src = "fn f\nbb0:\n  call msleep -> bb1\nbb1:\n  call kfree -> bb2\nbb2:\n  ret\n";
    let a = parse_module(src, &forbidden(&["msleep"])).unwrap();
    let b = parse_module(src, &forbidden(&["kfree", "other"])).unwrap();
    let marks = |fs: &Vec<guardstate::ir::Function>| -> Vec<bool> {
        fs[0].order.iter().filter_map(|id| match &fs[0].blocks[&id.0].term {
            Term::Call { callee, .. } => Some(callee.is_forbidden),
            _ => None,
        }).collect()
    };
    assert_eq!(marks(&a), vec![true, false]);
    assert_eq!(marks(&b), vec![false, true]);
    let erase = |mut fs: Vec<guardstate::ir::Function>| {
        for f in fs.iter_mut() {
            for b in f.blocks.values_mut() {
                if let Term::Call { callee, .. } = &mut b.term {
                    callee.is_forbidden = false;
                }
            }
        }
        fs
    };
    assert_eq!(erase(a), erase(b));
    let bad = "fn f\nbb0:\n  call foo bb1\n";
    assert_eq!(parse_module(bad, &forbidden(&["foo"])), parse_module(bad, &forbidden(&[])));
}

#[test]
fn interner_numbers_names_in_first_seen_order() {
    let chars = |s: &str| -> Vec<char> { s.chars().collect() };
    let mut it = Interner::new();
    assert_eq!(it.block(&chars("entry")), BasicBlock(0));
    assert_eq!(it.block(&chars("loop")), BasicBlock(1));
    assert_eq!(it.block(&chars("entry")), BasicBlock(0));
    assert_eq!(it.block(&chars("exit")), BasicBlock(2));
    assert_eq!(it.local(&chars("g")), Local(0));
    assert_eq!(it.local(&chars("h")), Local(1));
    assert_eq!(it.local(&chars("g")), Local(0));
    assert_eq!(it.block(&chars("loop")), BasicBlock(1));
}
