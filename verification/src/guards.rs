//! Knowledge base of guard types: which type paths are guards, their class,
//! and the shape in which an acquiring call returns them.
use vstd::prelude::*;
use crate::ir::GuardClass;

verus! {

/// How an acquiring call hands out the guard.
#[derive(Clone, Copy, PartialEq, Eq, Debug, Structural)]
pub enum ReturnShape {
    Bare,
    Result,
    Option,
}

pub struct GuardEntry {
    pub def_path: &'static str,
    pub class: GuardClass,
    pub shape: ReturnShape,
}

/// The default std / Rust-for-Linux guard knowledge base.
pub fn default_guards() -> (r: Vec<GuardEntry>)
    ensures
        r@.len() == 5,
        r@[0].def_path@ == "std::sync::MutexGuard"@,
        r@[0].class == GuardClass::Sleepable,
        r@[0].shape == ReturnShape::Result,
        r@[1].def_path@ == "std::sync::RwLockReadGuard"@,
        r@[1].class == GuardClass::Sleepable,
        r@[1].shape == ReturnShape::Result,
        r@[2].def_path@ == "std::sync::RwLockWriteGuard"@,
        r@[2].class == GuardClass::Sleepable,
        r@[2].shape == ReturnShape::Result,
        r@[3].def_path@ == "parking_lot::MutexGuard"@,
        r@[3].class == GuardClass::Sleepable,
        r@[3].shape == ReturnShape::Bare,
        r@[4].def_path@ == "kernel::sync::lock::Guard"@,
        r@[4].class == GuardClass::PreemptDisabling,
        r@[4].shape == ReturnShape::Bare,
{
    vec![
        GuardEntry { def_path: "std::sync::MutexGuard", class: GuardClass::Sleepable, shape: ReturnShape::Result },
        GuardEntry { def_path: "std::sync::RwLockReadGuard", class: GuardClass::Sleepable, shape: ReturnShape::Result },
        GuardEntry { def_path: "std::sync::RwLockWriteGuard", class: GuardClass::Sleepable, shape: ReturnShape::Result },
        GuardEntry { def_path: "parking_lot::MutexGuard", class: GuardClass::Sleepable, shape: ReturnShape::Bare },
        GuardEntry { def_path: "kernel::sync::lock::Guard", class: GuardClass::PreemptDisabling, shape: ReturnShape::Bare },
    ]
}

} // verus!
