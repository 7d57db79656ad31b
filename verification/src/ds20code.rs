//! A flat or graph-indexed database of `u64`-keyed vectors.

pub mod distance;
pub mod error;

pub mod vector_db;
