//! Errors of the database and of its file format.

use vstd::prelude::*;

verus! {

/// Why an operation failed.
#[derive(Debug)]
pub enum Error {
    /// Encoding, decoding, checking or file access failed; the text says
    /// what and why.
    SerializationError(String),
}

} // verus!
