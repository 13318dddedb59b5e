//! A small directed graph container with typed vertices and edges.
//!
//! The graph keeps a vertex table and an adjacency table, answers
//! reachability queries, and reads and writes the Trivial Graph Format.

pub mod error;
pub mod model;
pub mod laws;
pub mod graph;
pub mod reach;
pub mod tgf;
pub mod codec;
pub mod round_trip;

pub use error::GraphError;
pub use graph::Graph;
pub use model::GraphView;
