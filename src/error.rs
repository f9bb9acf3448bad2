//! The kinds of failure that the store reports.
use vstd::prelude::*;

verus! {

/// Database errors.
#[derive(Debug, Clone, Copy, PartialEq, Eq, Structural)]
pub enum DbError {
    /// The storage directory could not be created.
    DirCreationFailed,
    /// A failure with no further detail (for example an unknown identifier).
    Unspecified,
    /// The compression failed.
    FailedCompression,
    /// A segment or a record could not be decoded.
    FailedDeserialization,
    /// A record could not be encoded.
    FailedSerialization,
    /// Data could not be read.
    FailedReading,
    /// Data could not be written, or the write lock could not be taken.
    FailedWriting,
}

/// The sentence that describes each error.
pub open spec fn message_text(e: DbError) -> Seq<char> {
    match e {
        DbError::DirCreationFailed => "The directory could not be created."@,
        DbError::Unspecified => "Unknown error"@,
        DbError::FailedCompression => "An error occurred during compression"@,
        DbError::FailedDeserialization => "An error occurred during deserialization"@,
        DbError::FailedSerialization => "An error occurred during serialization, check the serde implementation"@,
        DbError::FailedReading => "The data was not read correctly"@,
        DbError::FailedWriting => "Cannot get Rwlock write"@,
    }
}

impl DbError {
    /// A sentence describing the error.
    pub fn message(&self) -> (r: &'static str)
        ensures
            r@ == message_text(*self),
    {
        match self {
            DbError::DirCreationFailed => {
                proof { reveal_strlit("The directory could not be created."); }
                "The directory could not be created."
            },
            DbError::Unspecified => {
                proof { reveal_strlit("Unknown error"); }
                "Unknown error"
            },
            DbError::FailedCompression => {
                proof { reveal_strlit("An error occurred during compression"); }
                "An error occurred during compression"
            },
            DbError::FailedDeserialization => {
                proof { reveal_strlit("An error occurred during deserialization"); }
                "An error occurred during deserialization"
            },
            DbError::FailedSerialization => {
                proof { reveal_strlit("An error occurred during serialization, check the serde implementation"); }
                "An error occurred during serialization, check the serde implementation"
            },
            DbError::FailedReading => {
                proof { reveal_strlit("The data was not read correctly"); }
                "The data was not read correctly"
            },
            DbError::FailedWriting => {
                proof { reveal_strlit("Cannot get Rwlock write"); }
                "Cannot get Rwlock write"
            },
        }
    }
}

} // verus!
