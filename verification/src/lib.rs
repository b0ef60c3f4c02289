//! An in-memory graph container for directed and undirected graphs, with
//! breadth-first and depth-first traversal and unweighted path reconstruction.

pub mod graph;
