//! The failures of the store.

use vstd::prelude::*;

verus! {

/// The error that `fcsd` reports when a set of keys cannot be built.
#[verifier::external_type_specification]
#[verifier::external_body]
pub struct ExAnyhowError(anyhow::Error);

/// Every failure the store can report. Nothing is retried: each failure is
/// handed to the caller as it arises.
///
/// Variants that stand for a failure of the storage engine carry its message.
#[derive(Debug)]
pub enum ZarrDfError {
    /// Reading the source or touching the storage failed.
    Io(String),
    /// The source's extension names no known serialization.
    UnknownFormat(String),
    /// The probed array holds no chunk at this id.
    ChunkNotFound(u64),
    /// The index that the pattern needs was never opened.
    InvalidQuery,
    SubjectsNotInMetadata,
    PredicatesNotInMetadata,
    ObjectsNotInMetadata,
    /// A row length cannot be a chunk length of the array.
    RectangularDimensionConversion,
    PathNotFound(String),
    MetadataStorage(String),
    SettingCompressionLevel(String),
    ArrayCreation(String),
    FilesystemCreation(String),
    ChunkGridConversion(String),
    /// Probing a chunk failed for a reason other than its absence.
    ChunkStorage(String),
    DictionarySerialization(String),
    /// The ordered set of a position's terms could not be built.
    DictionaryCreation(anyhow::Error),
    ArraySubset(String),
}

} // verus!
