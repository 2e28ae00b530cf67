//! The library's error taxonomy.

use vstd::prelude::*;

verus! {

/// Every failure a library operation can report.
///
/// `NotFound` names an absent collection or document, `AlreadyExists` a
/// duplicate collection name, `InvalidInput` a rejected argument (an unknown
/// search-mode tag, a malformed metadata payload, a missing import column).
/// `EmbeddingError` and `StorageError` carry failures of the external
/// embedding provider and persistence layer through the library unchanged.
#[derive(Debug)]
pub enum Error {
    NotFound(String),
    AlreadyExists(String),
    InvalidInput(String),
    EmbeddingError(String),
    StorageError(String),
}

impl Error {
    /// The human-readable message carried by the error.
    pub fn message(&self) -> (m: String)
        ensures
            m@ == self.spec_message(),
    {
        match self {
            Error::NotFound(m) => m.clone(),
            Error::AlreadyExists(m) => m.clone(),
            Error::InvalidInput(m) => m.clone(),
            Error::EmbeddingError(m) => m.clone(),
            Error::StorageError(m) => m.clone(),
        }
    }

    pub open spec fn spec_message(&self) -> Seq<char> {
        match self {
            Error::NotFound(m) => m@,
            Error::AlreadyExists(m) => m@,
            Error::InvalidInput(m) => m@,
            Error::EmbeddingError(m) => m@,
            Error::StorageError(m) => m@,
        }
    }
}

} // verus!
