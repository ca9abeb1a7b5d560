//! Guard-liveness analysis over an abstract control-flow graph.
//!
//! `ir` is the lowering target; `analysis` is the forward dataflow to the least
//! fixpoint and the checkpoints it records, and `reorder` shows that it
//! does not depend on the order of the blocks; `config` is the detector rule;
//! `text` reads the line-oriented MIR-shaped format (with `scan` for its
//! characters); `guards` is the knowledge base of guard types; `locals` and
//! `sorting` are the sets and orders the others rely on.
pub mod ir;
pub mod locals;
pub mod analysis;
pub mod reorder;
pub mod sorting;
pub mod config;
pub mod guards;
pub mod scan;
pub mod text;
