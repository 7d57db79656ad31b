//! Errors of the database.

use vstd::prelude::*;

verus! {

/// Why an operation of the database failed.
#[derive(Debug, Clone, PartialEq, Eq)]
pub enum Error {
    InvalidDimension { expected: usize, got: usize },
    DuplicateId(u64),
    NotFound(u64),
    IoError(String),
    SerializationError(String),
    InvalidFileFormat(String),
    VersionMismatch { expected: u32, got: u32 },
    CorruptedData(String),
}

} // verus!
