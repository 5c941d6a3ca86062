//! Structural analysis of an undirected route network: connectivity queries,
//! closeness centrality and a greedy approximation of the densest subgraph.

pub mod model;
pub mod store;
pub mod ranking;
pub mod graph;
pub mod ratio;
pub mod densest;
pub mod centrality;
pub mod star;
