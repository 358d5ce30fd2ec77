//! Structural statistics over an undirected graph held as adjacency lists:
//! degrees, breadth-first distances and neighbourhood similarity.

pub mod network;
pub mod traversal;
pub mod degrees;
pub mod similarity;
pub mod loader;
