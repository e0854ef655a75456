//! Runs a dataflow: rows go from the scans through the operators, and watermarks make steps.

pub mod barrier;
pub mod checkpoint;
pub mod graph_builder;
pub mod ingest;
pub mod instantiate;
pub mod ranks;
pub mod stream_operator;
pub mod tick_loop;
