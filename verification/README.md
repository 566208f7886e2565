# sherlock_graph

A transaction-graph library for fraud analysis, verified with Verus.

- `src/types.rs`, `src/graph.rs`: the transaction multigraph (entity nodes, one edge per
  transaction) and its model as a `GraphView`.
- `src/csv.rs`, `src/rows.rs`: CSV splitting and the typed rows of each data source.
- `src/ingest.rs`: loading rows into the graph.
- `src/algorithms.rs`, `src/paths.rs`: iterative Tarjan component labelling, with its
  correctness proof over reachability.
- `src/cycles.rs`: bounded enumeration of simple cycles within components, each listed once.
- `src/summary.rs`, `src/pipeline.rs`, `src/progress.rs`: counts for the report, the
  analysis stage, and the progress bar's state.
- `src/rng.rs`, `src/synth.rs`: the xorshift64* generator and the integer steps of the
  transaction synthesizer (apportioning the budget, owner pool, Fisher–Yates shuffle).
- `app/`: the command-line program: file I/O, floating-point parsing and sampling,
  terminal output, and the synthesizers.

Floating-point values (amounts, scores) are carried as IEEE-754 bit patterns (`u64`).
