//! The error taxonomy that crosses the engine boundary.

use vstd::prelude::*;
use vstd::string::StringExecFns;

verus! {

/// Errors reported by the storage engine.
#[derive(Clone, Copy, Debug, PartialEq, Eq, Structural)]
pub enum KvError {
    /// Removal of an absent key.
    KeyNotFound,
    /// The underlying filesystem operation failed, or a location referred to
    /// a datafile that no longer exists.
    StorageFileError,
    /// A record or request could not be decoded.
    SerdeError,
    /// A location resolved to a record of an unexpected shape.
    UnexpectedCommand,
    /// A non-numeric file stem where a serial number was required.
    InvalidDatafileName,
    /// Bytes from a storage back end were not valid text.
    EncodingError,
}

pub type Result<T> = core::result::Result<T, KvError>;

/// The message text for each error kind. The client treats the
/// `KeyNotFound` message as a distinguished sentinel.
pub open spec fn error_message(e: KvError) -> Seq<char> {
    match e {
        KvError::KeyNotFound => "Key not found"@,
        KvError::StorageFileError => "Storage File Error"@,
        KvError::SerdeError => "Serde Error"@,
        KvError::UnexpectedCommand => "Unexpected command"@,
        KvError::InvalidDatafileName => "Invalid name of datafile"@,
        KvError::EncodingError => "Encoding error"@,
    }
}

impl KvError {
    /// The human-readable message for this error.
    pub fn message(&self) -> (r: String)
        ensures
            r@ == error_message(*self),
    {
        match self {
            KvError::KeyNotFound => String::from_str("Key not found"),
            KvError::StorageFileError => String::from_str("Storage File Error"),
            KvError::SerdeError => String::from_str("Serde Error"),
            KvError::UnexpectedCommand => String::from_str("Unexpected command"),
            KvError::InvalidDatafileName => String::from_str("Invalid name of datafile"),
            KvError::EncodingError => String::from_str("Encoding error"),
        }
    }
}

} // verus!
