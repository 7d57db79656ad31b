//! Errors of the database.

use vstd::prelude::*;

verus! {

/// `std::io::Error`, which converts into [`Error`].
#[verifier::external_type_specification]
#[verifier::external_body]
pub struct ExIoError(std::io::Error);

/// Why an operation failed.
#[derive(Debug, Clone, Copy, PartialEq, Eq, Structural)]
pub enum Error {
    NotFound,
    InvalidDimension,
    DuplicateId,
    OutOfMemory,
    InvalidInput,
}

impl Error {
    /// The error's message.
    pub fn message(&self) -> (s: &'static str)
        ensures
            *self == Error::NotFound ==> s@ == "Entry not found"@,
            *self == Error::InvalidDimension ==> s@ == "Invalid vector dimension"@,
            *self == Error::DuplicateId ==> s@ == "Duplicate ID"@,
            *self == Error::OutOfMemory ==> s@ == "Out of memory"@,
            *self == Error::InvalidInput ==> s@ == "Invalid input"@,
    {
        match self {
            Error::NotFound => "Entry not found",
            Error::InvalidDimension => "Invalid vector dimension",
            Error::DuplicateId => "Duplicate ID",
            Error::OutOfMemory => "Out of memory",
            Error::InvalidInput => "Invalid input",
        }
    }
}

impl From<std::io::Error> for Error {
    /// Every I/O error is an invalid input.
    fn from(e: std::io::Error) -> (r: Self) {
        Error::InvalidInput
    }
}

impl vstd::std_specs::convert::FromSpecImpl<std::io::Error> for Error {
    open spec fn obeys_from_spec() -> bool {
        true
    }

    open spec fn from_spec(v: std::io::Error) -> Self {
        Error::InvalidInput
    }
}

} // verus!
