# guardstate

A verified guard-liveness analysis: it reports where a lock guard may still be
live at a forbidden call (sleep-in-atomic) or at an await point.

- `src/ir.rs` — the abstract control-flow graph (functions, blocks, statements,
  terminators) and its mathematical model.
- `src/analysis.rs` — the transfer functions, the least-fixpoint computation of
  the guards live on entry to each block, and the checkpoints; contracts are
  stated against the least fixpoint of `transfer`.
- `src/reorder.rs` — the analysis depends on the blocks of a function only as
  a set, not on the order in which they are listed.
- `src/config.rs` — detectors and the rule that turns checkpoints into violations.
- `src/text.rs`, `src/scan.rs` — the text frontend, specified line by line.
- `src/guards.rs` — the default guard knowledge base.
- `src/locals.rs`, `src/sorting.rs` — sets of locals (`BTreeSet<u32>`) listed in
  increasing order, and stable sorting with its laws.
- `app/main.rs` — the command-line tool: file I/O, arguments and printing.
