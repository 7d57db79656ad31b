//! Distance metrics.

use vstd::prelude::*;

verus! {

/// How the distance between two vectors is measured.
#[derive(Debug, Clone, Copy, PartialEq, Structural)]
pub enum DistanceMetric {
    Cosine,
    Euclidean,
    DotProduct,
    Manhattan,
}

impl Default for DistanceMetric {
    /// The cosine metric.
    fn default() -> (m: Self)
        ensures
            m == DistanceMetric::Cosine,
    {
        DistanceMetric::Cosine
    }
}

impl DistanceMetric {
    /// The name a file records for the metric.
    pub fn name(&self) -> (s: &'static str)
        ensures
            *self == DistanceMetric::Cosine ==> s@ == "cosine"@,
            *self == DistanceMetric::Euclidean ==> s@ == "euclidean"@,
            *self == DistanceMetric::DotProduct ==> s@ == "dot_product"@,
            *self == DistanceMetric::Manhattan ==> s@ == "manhattan"@,
    {
        match self {
            DistanceMetric::Cosine => "cosine",
            DistanceMetric::Euclidean => "euclidean",
            DistanceMetric::DotProduct => "dot_product",
            DistanceMetric::Manhattan => "manhattan",
        }
    }
}

} // verus!
