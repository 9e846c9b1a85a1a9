//! Shortest paths over weighted, undirected graphs.
//!
//! The `graph` module holds the graph model and its textual format; the
//! `algorithms` module holds the shortest-path engine.

pub mod graph;
pub mod algorithms;
