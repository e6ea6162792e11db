# dataflow

The model and evaluation logic of a small dataflow editor, verified with Verus.

- `src/node.rs` — node settings (load a CSV file, multiply, sum, head, tail).
- `src/ids.rs` — node identifiers (UUID values) and names.
- `src/graph.rs` — the graph: nodes and the edges between them, and its edits.
- `src/lineage.rs` — the chain of sources a node reads from.
- `src/cache_key.rs` — the hash under which a node's result is cached.
- `src/compute.rs` — what computing one node takes: its plan or its error.
- `src/calculation.rs` — bringing a node up to date, one frame computation at a time.
- `app/` — the desktop shell: commands, events, and the polars frame work.
