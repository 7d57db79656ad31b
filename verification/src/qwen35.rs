//! A flat database of `i64`-keyed vectors with a binary file format.

pub mod description;
pub mod distance;
pub mod error;
pub mod format;
pub mod vector_db;
pub mod vector_db_optimized;

use vstd::prelude::*;

use crate::qwen35::distance::DistanceMetric;
use crate::qwen35::format::EntryView;
use crate::qwen35::vector_db::{Stats, VectorDB};

verus! {

/// An empty database: see [`VectorDB::new`].
pub fn create_db(dimension: usize, metric: DistanceMetric) -> (db: VectorDB)
    ensures
        db.wf(),
        db@ == Seq::<EntryView>::empty(),
        db.spec_dimension() == dimension,
        db.spec_metric() == metric,
        db.spec_normalized() == (metric == DistanceMetric::Cosine),
        db.spec_stats() == Stats::zero(),
        !db.spec_stats_enabled(),
{
    VectorDB::new(dimension, metric)
}

/// An empty database with room reserved: see [`VectorDB::with_capacity`].
pub fn create_db_with_capacity(dimension: usize, metric: DistanceMetric, capacity: usize) -> (db: VectorDB)
    ensures
        db.wf(),
        db@ == Seq::<EntryView>::empty(),
        db.spec_dimension() == dimension,
        db.spec_metric() == metric,
        db.spec_normalized() == (metric == DistanceMetric::Cosine),
        db.spec_stats() == Stats::zero(),
        !db.spec_stats_enabled(),
{
    VectorDB::with_capacity(dimension, metric, capacity)
}

} // verus!
