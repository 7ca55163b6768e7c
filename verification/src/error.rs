use vstd::prelude::*;

verus! {

#[verifier::external_type_specification]
#[verifier::external_body]
pub struct ExIoError(std::io::Error);

/// Errors reported by the storage engine.
#[derive(Debug)]
pub enum DbError {
    /// A failure of the underlying file system.
    Io(std::io::Error),
    /// Bytes that could not be decoded.
    Parse(String),
    /// A row or id that is not there.
    NotFound(String),
    /// A statement that the parser refuses.
    InvalidQuery(String),
}

} // verus!
