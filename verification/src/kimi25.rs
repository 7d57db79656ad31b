//! A database of vectors indexed by an HNSW graph, with a binary file format.

pub mod distance;
pub mod error;
pub mod hnsw;
pub mod persistence;
