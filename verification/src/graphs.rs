//! Graphs.

pub mod graph;
