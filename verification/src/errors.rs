//! The error kinds of the engine, as the callers see them.

use vstd::prelude::*;

verus! {

/// What can go wrong in the engine and its surroundings.
#[derive(Debug, PartialEq, Eq)]
pub enum IndexError {
    /// The synchronization target is not a directory.
    NotADirectory,
    /// A file's extension is not recognized during extraction.
    UnsupportedFileType,
    /// Reading or parsing a file failed; carries the offending path.
    ContentExtractionFailure(String),
    /// The index could not be serialized.
    SerializationFailure,
    /// A persisted blob is corrupt or structurally invalid.
    DeserializationFailure,
    /// A persisted blob carries a zero cache capacity.
    InvalidCacheCapacity,
}

impl IndexError {
    /// A short description of the error.
    pub fn message(&self) -> String {
        match self {
            IndexError::NotADirectory => String::from_str("provided path is not a directory"),
            IndexError::UnsupportedFileType => String::from_str("unsupported file type"),
            IndexError::ContentExtractionFailure(p) => {
                let mut s = String::from_str("failed to extract content from ");
                s.append(p.as_str());
                s
            },
            IndexError::SerializationFailure => String::from_str("failed to encode index data"),
            IndexError::DeserializationFailure => String::from_str("failed to decode index data"),
            IndexError::InvalidCacheCapacity => String::from_str("cache capacity cannot be zero"),
        }
    }
}

} // verus!
