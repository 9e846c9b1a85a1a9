//! Path-finding algorithms.

pub mod shortest_path;
pub mod dijkstra;

pub use shortest_path::ShortestPathAlgorithm;
pub use dijkstra::Dijkstra;
