//! Degrees-of-separation statistics over an undirected, unweighted graph.
//!
//! `graph` builds the adjacency structure, `bfs` computes shortest-path
//! distances by breadth-first search, and `stats` reduces an all-pairs
//! distance table, filtered by a hop threshold, to summary statistics.

pub mod graph;
pub mod bfs;
pub mod stats;
