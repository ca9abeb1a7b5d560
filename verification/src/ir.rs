//! The abstract control-flow graph that every frontend lowers into.
use vstd::prelude::*;
use std::collections::BTreeMap;

verus! {

/// A MIR-style local slot (interned to an index by each frontend).
#[derive(Debug, Clone, Copy, PartialEq, Eq, PartialOrd, Ord, Hash, Structural)]
pub struct Local(pub u32);

/// A basic-block identifier.
#[derive(Debug, Clone, Copy, PartialEq, Eq, PartialOrd, Ord, Hash, Structural)]
pub struct BasicBlock(pub u32);

/// How a guard relates to the restricted context a detector cares about.
#[derive(Debug, Clone, Copy, PartialEq, Eq, PartialOrd, Ord, Hash, Structural)]
pub enum GuardClass {
    /// spinlock family, raw spinlocks, IRQ/preempt-disabling guards.
    PreemptDisabling,
    /// mutex / rwsem style: sleepable, does not forbid blocking.
    Sleepable,
}

/// A resolved call target.
#[derive(Debug, Clone, PartialEq, Eq)]
pub struct Callee {
    pub def_path: String,
    pub is_foreign: bool,
    /// True when this callee is a forbidden operation for the active detector.
    pub is_forbidden: bool,
}

/// A control-flow successor edge, optionally activating a guard on that edge.
#[derive(Debug, Clone, Copy, PartialEq, Eq)]
pub struct Successor {
    pub target: BasicBlock,
    pub activate: Option<(Local, GuardClass)>,
}

impl Successor {
    /// A plain edge that activates no guard.
    pub fn plain(target: BasicBlock) -> (s: Successor)
        ensures
            s == (Successor { target, activate: None }),
    {
        Successor { target, activate: None }
    }
}

/// Straight-line statements.
#[derive(Debug, Clone, Copy, PartialEq, Eq)]
pub enum Stmt {
    /// Unconditional guard acquisition: after this point `local` holds a guard.
    Acquire { local: Local, class: GuardClass },
    /// The guard held in `local` is released.
    Kill { local: Local },
}

/// Block terminators.
#[derive(Debug, Clone, PartialEq, Eq)]
pub enum Term {
    /// A call; a checkpoint iff `callee.is_forbidden`.
    Call { callee: Callee, target: BasicBlock },
    /// An `.await` / coroutine suspend point; always a checkpoint.
    Suspend { target: BasicBlock },
    /// A drop-as-terminator: releases `local`, then continues.
    Drop { local: Local, target: BasicBlock },
    /// Generalized control flow: goto, switch, and conditional acquisition.
    Branch { succs: Vec<Successor> },
    /// Return / no successor.
    Return,
}

#[derive(Debug, Clone, PartialEq, Eq)]
pub struct Block {
    pub id: BasicBlock,
    pub stmts: Vec<Stmt>,
    pub term: Term,
}

/// A function: its blocks are keyed by the number inside their `BasicBlock` id.
#[derive(Debug, Clone, PartialEq, Eq)]
pub struct Function {
    pub name: String,
    pub entry: BasicBlock,
    pub blocks: BTreeMap<u32, Block>,
    /// Source order of blocks, for deterministic iteration.
    pub order: Vec<BasicBlock>,
}

/// The mathematical value of a `Term`.
pub enum TermModel {
    Call { def_path: Seq<char>, is_foreign: bool, is_forbidden: bool, target: u32 },
    Suspend { target: u32 },
    Drop { local: u32, target: u32 },
    Branch { succs: Seq<Successor> },
    Return,
}

/// The mathematical value of a `Block`.
pub struct BlockModel {
    pub id: u32,
    pub stmts: Seq<Stmt>,
    pub term: TermModel,
}

/// The mathematical value of a `Function`.
pub struct FunctionModel {
    pub name: Seq<char>,
    pub entry: u32,
    pub blocks: Map<u32, BlockModel>,
    pub order: Seq<u32>,
}

impl View for Term {
    type V = TermModel;

    open spec fn view(&self) -> TermModel {
        match self {
            Term::Call { callee, target } => TermModel::Call {
                def_path: callee.def_path@,
                is_foreign: callee.is_foreign,
                is_forbidden: callee.is_forbidden,
                target: target.0,
            },
            Term::Suspend { target } => TermModel::Suspend { target: target.0 },
            Term::Drop { local, target } => TermModel::Drop { local: local.0, target: target.0 },
            Term::Branch { succs } => TermModel::Branch { succs: succs@ },
            Term::Return => TermModel::Return,
        }
    }
}

impl View for Block {
    type V = BlockModel;

    open spec fn view(&self) -> BlockModel {
        BlockModel { id: self.id.0, stmts: self.stmts@, term: self.term@ }
    }
}

impl View for Function {
    type V = FunctionModel;

    open spec fn view(&self) -> FunctionModel {
        FunctionModel {
            name: self.name@,
            entry: self.entry.0,
            blocks: Map::new(|k: u32| self.blocks@.contains_key(k), |k: u32| self.blocks@[k]@),
            order: self.order@.map_values(|b: BasicBlock| b.0),
        }
    }
}

impl FunctionModel {
    /// Every block named in `order` has a body in `blocks`.
    pub open spec fn has_all_blocks(self) -> bool {
        forall|i: int| 0 <= i < self.order.len() ==> #[trigger] self.blocks.contains_key(self.order[i])
    }
}

/// The successor edges of a terminator, as `Function::successors` lists them.
pub open spec fn successors_of(t: TermModel) -> Seq<Successor> {
    match t {
        TermModel::Call { target, .. } => seq![Successor { target: BasicBlock(target), activate: None }],
        TermModel::Suspend { target } => seq![Successor { target: BasicBlock(target), activate: None }],
        TermModel::Drop { target, .. } => seq![Successor { target: BasicBlock(target), activate: None }],
        TermModel::Branch { succs } => succs,
        TermModel::Return => Seq::empty(),
    }
}

impl Function {
    /// Whether every block named in `order` has a body in `blocks`.
    pub fn has_all_blocks(&self) -> (b: bool)
        ensures
            b == self@.has_all_blocks(),
    {
        let mut i: usize = 0;
        while i < self.order.len()
            invariant
                i <= self.order@.len(),
                forall|k: int| 0 <= k < i ==> #[trigger] self@.blocks.contains_key(self@.order[k]),
            decreases self.order@.len() - i,
        {
            let id = self.order[i].0;
            assert(self@.order[i as int] == id);
            if !self.blocks.contains_key(&id) {
                assert(!self@.blocks.contains_key(self@.order[i as int]));
                return false;
            }
            i = i + 1;
        }
        true
    }

    /// The successor edges of `term`; call, suspend and drop continue on one plain edge.
    pub fn successors(&self, term: &Term) -> (r: Vec<Successor>)
        ensures
            r@ == successors_of(term@),
    {
        match term {
            Term::Call { target, .. } => vec![Successor::plain(*target)],
            Term::Suspend { target } => vec![Successor::plain(*target)],
            Term::Drop { target, .. } => vec![Successor::plain(*target)],
            Term::Branch { succs } => {
                let mut v: Vec<Successor> = Vec::new();
                let mut i: usize = 0;
                while i < succs.len()
                    invariant
                        i <= succs@.len(),
                        v@ == succs@.take(i as int),
                    decreases succs@.len() - i,
                {
                    v.push(succs[i]);
                    i = i + 1;
                    assert(v@ =~= succs@.take(i as int));
                }
                assert(succs@.take(succs@.len() as int) =~= succs@);
                v
            },
            Term::Return => Vec::new(),
        }
    }
}

} // verus!
