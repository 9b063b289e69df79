//! The error taxonomy: filesystem failures surface as `IOError`, malformed
//! binary payloads as `SerializationError`. A missing key is never an error;
//! it is reported as an empty result.

use vstd::prelude::*;

verus! {

/// The failures a store operation can report.
#[derive(Clone, Copy, Debug, PartialEq, Eq, Structural)]
pub enum DbError {
    /// A filesystem operation (create directory, read, write, remove) failed.
    IOError,
    /// A binary payload (snapshot contents at load time) could not be decoded.
    SerializationError,
}

impl DbError {
    /// A short human-readable description of the error.
    pub fn describe(&self) -> (r: &'static str)
        ensures
            self is IOError ==> r@ == "i/o failure"@,
            self is SerializationError ==> r@ == "malformed binary payload"@,
    {
        match self {
            DbError::IOError => "i/o failure",
            DbError::SerializationError => "malformed binary payload",
        }
    }
}

} // verus!
