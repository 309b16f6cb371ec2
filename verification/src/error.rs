//! The ways in which the cache refuses an input.

use vstd::prelude::*;

verus! {

/// Why an operation on a cache failed.
#[derive(Clone, Copy, Debug, PartialEq, Eq, Structural)]
pub enum CacheError {
    /// The file system failed underneath.
    Io,
    /// The bytes are not a well-formed cache file.
    CorruptCache,
    /// The record class and schema version are not ones this library knows.
    UnsupportedSchemaVersion,
    /// Files of different revisions were offered for one view.
    InconsistentRevision,
    /// The writer was used after it had been committed or aborted.
    WriterFinalized,
    /// A key is longer than a key may be.
    KeyTooLarge,
    /// The file would be longer than a file may be.
    FileTooLarge,
}

/// What an error is called when it is shown.
pub open spec fn description_of(e: CacheError) -> Seq<char> {
    match e {
        CacheError::Io => "the file system failed"@,
        CacheError::CorruptCache => "the cache file is corrupt"@,
        CacheError::UnsupportedSchemaVersion => "the schema version is not supported"@,
        CacheError::InconsistentRevision => "the cache files are of different revisions"@,
        CacheError::WriterFinalized => "the writer was committed or aborted before"@,
        CacheError::KeyTooLarge => "the key is too large"@,
        CacheError::FileTooLarge => "the file would be too large"@,
    }
}

impl CacheError {
    /// What the error is called when it is shown.
    pub fn description(self) -> (text: &'static str)
        ensures
            text@ == description_of(self),
    {
        match self {
            CacheError::Io => "the file system failed",
            CacheError::CorruptCache => "the cache file is corrupt",
            CacheError::UnsupportedSchemaVersion => "the schema version is not supported",
            CacheError::InconsistentRevision => "the cache files are of different revisions",
            CacheError::WriterFinalized => "the writer was committed or aborted before",
            CacheError::KeyTooLarge => "the key is too large",
            CacheError::FileTooLarge => "the file would be too large",
        }
    }
}

} // verus!
