//! The engine's error taxonomy: storage-medium errors, codec errors, and
//! input-validation errors. All are terminal for the operation that raised
//! them; none is retried internally.

use vstd::prelude::*;

verus! {

/// An error surfaced to callers of the engine.
#[derive(Debug, PartialEq, Eq)]
pub enum DatabaseError {
    /// The snapshot file could not be created.
    CreateFileError { message: String },
    /// An I/O encoding layer failed.
    EncodingError { message: String },
    /// The snapshot file could not be opened.
    OpenFileError { message: String },
    /// The codec rejected the stream.
    SerializeError { message: String },
    /// A range query's bounds were reversed.
    InvalidRange { message: String },
}

impl DatabaseError {
    /// Wraps a file-creation failure.
    pub fn create_file_error(message: String) -> (r: DatabaseError)
        ensures
            r == (DatabaseError::CreateFileError { message }),
    {
        DatabaseError::CreateFileError { message }
    }

    /// Wraps an encoding-layer failure.
    pub fn encoding_error(message: String) -> (r: DatabaseError)
        ensures
            r == (DatabaseError::EncodingError { message }),
    {
        DatabaseError::EncodingError { message }
    }

    /// Wraps a file-open failure.
    pub fn open_file_error(message: String) -> (r: DatabaseError)
        ensures
            r == (DatabaseError::OpenFileError { message }),
    {
        DatabaseError::OpenFileError { message }
    }

    /// Wraps a codec failure.
    pub fn serialize_error(message: String) -> (r: DatabaseError)
        ensures
            r == (DatabaseError::SerializeError { message }),
    {
        DatabaseError::SerializeError { message }
    }

    /// Wraps a reversed-bounds failure.
    pub fn invalid_range(message: String) -> (r: DatabaseError)
        ensures
            r == (DatabaseError::InvalidRange { message }),
    {
        DatabaseError::InvalidRange { message }
    }

    /// The error's message.
    pub fn message(&self) -> (m: &String)
        ensures
            match self {
                DatabaseError::CreateFileError { message } => m == message,
                DatabaseError::EncodingError { message } => m == message,
                DatabaseError::OpenFileError { message } => m == message,
                DatabaseError::SerializeError { message } => m == message,
                DatabaseError::InvalidRange { message } => m == message,
            },
    {
        match self {
            DatabaseError::CreateFileError { message } => message,
            DatabaseError::EncodingError { message } => message,
            DatabaseError::OpenFileError { message } => message,
            DatabaseError::SerializeError { message } => message,
            DatabaseError::InvalidRange { message } => message,
        }
    }
}

} // verus!
