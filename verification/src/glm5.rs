//! A flat database of `u64`-keyed vectors.

pub mod error;
pub mod vector_db;

pub use crate::ds20code::distance::DistanceMetric;
