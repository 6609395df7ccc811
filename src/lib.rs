//! Scale-free random graphs after the Barabási–Albert preferential
//! attachment model, over a minimal append-only directed graph.

pub mod generator;
pub mod graph;

pub use generator::barabasi_albert_graph;
pub use graph::Graph;
