pub mod adjacency;
pub mod contraction;
pub mod graph;

pub use graph::GraphRep;
