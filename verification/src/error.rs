use vstd::prelude::*;

verus! {

/// How reading or writing a snapshot fails: the file could not be read or
/// written at all, or it was read but its content is not a well-formed
/// snapshot encoding.
#[derive(Debug, Clone, Copy, PartialEq, Eq, Structural)]
pub enum CacheError {
    IoError,
    SerializationError,
}

impl CacheError {
    /// A short description, for callers that report the failure.
    pub fn message(&self) -> (r: &'static str)
        ensures
            *self is IoError ==> r@ == "I/O error"@,
            *self is SerializationError ==> r@ == "Serialization error"@,
    {
        match self {
            CacheError::IoError => "I/O error",
            CacheError::SerializationError => "Serialization error",
        }
    }
}

/// How loading an externally produced library file fails.
#[derive(Debug, Clone, Copy, PartialEq, Eq, Structural)]
pub enum LoaderError {
    IoError,
    SerializationError,
}

/// A failed fetch from the remote source; the refresh cycle that sees one is
/// skipped and the previous snapshot stays.
#[derive(Debug, Clone, Copy, PartialEq, Eq, Structural)]
pub struct FetchError {
    pub retriable: bool,
}

} // verus!
