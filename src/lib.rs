//! In-memory graphs (undirected, directed and weighted), a goal-directed
//! search, Dijkstra's shortest path, and a registry of graphs keyed by
//! session identifiers.

pub mod adjacency;
pub mod algorithms;
pub mod graph;
pub mod manager;
pub mod node;
