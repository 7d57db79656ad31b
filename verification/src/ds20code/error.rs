//! Errors of the database.

use vstd::prelude::*;

verus! {

/// Why an operation of the database failed.
#[derive(Debug, Clone, PartialEq, Eq)]
pub enum Error {
    InvalidDimension { expected: usize, got: usize },
    DuplicateId(u64),
    NotFound(u64),
    InvalidParameter(String),
    IoError(String),
}

} // verus!
