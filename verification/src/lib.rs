//! The data model and the evaluation logic of a small dataflow editor.
//!
//! A graph holds nodes (each with its settings and, once computed, its
//! results) and edges (each destination node reads from one source node).
//! Computing a node first brings every node it reads from up to date. A
//! stored result is reused as long as the node's own settings and those of
//! its direct source are what they were when it was produced: a change
//! further up the chain does not, by itself, make it stale.
//! What a computation does to the data frames themselves is left to the
//! caller: the library decides what must be run, in which order, on which
//! input, and records what came back.

pub mod node;
pub mod error;
pub mod ids;
pub mod cache_key;
pub mod graph;
pub mod lineage;
pub mod compute;
pub mod calculation;
