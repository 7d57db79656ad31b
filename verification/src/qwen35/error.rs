//! Errors of the database.

use vstd::prelude::*;

verus! {

/// Why reading or writing bytes failed.
#[derive(Debug, Clone, PartialEq, Eq)]
pub enum IoFailure {
    /// The bytes ended before a value that should follow.
    UnexpectedEof,
    /// The file system refused an operation, with its message.
    Other(String),
}

/// Why an operation of the database failed.
#[derive(Debug, Clone, PartialEq, Eq)]
pub enum Error {
    DimensionMismatch { expected: usize, got: usize },
    DuplicateId(i64),
    NotFound(i64),
    CapacityExceeded,
    InvalidVector,
    IoError(IoFailure),
    SerializationError(String),
    InvalidDistanceMetric,
}

} // verus!
