//! A rooted, weighted tree stored as an arena of nodes, with bulk
//! construction from an edge list and breadth-first / depth-first traversal.

pub mod error;
pub mod edges;
pub mod tree;
pub mod traversal;
