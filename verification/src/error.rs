//! The errors that the operations of this crate report.

use vstd::prelude::*;
use vstd::string::*;

verus! {

/// An enumeration of the errors that can occur in this crate.
#[derive(Debug)]
pub enum KvsError {
    /// An error occurred and no more detail could be provided.
    UnknownError,
    /// A removal request was made for a key that is not present.
    BadRemovalError,
    /// The requested engine does not match the one that prepared the directory.
    EngineMismatchError,
    /// An internal invariant does not hold; the string says which.
    InternalError(String),
    /// The path given for the store is not a directory.
    BadPathError(String),
    /// An address string could not be parsed.
    BadAddressError(String),
    /// Reading or writing a file or a socket failed.
    IoError(String),
    /// A log record or a wire message could not be written or read back.
    SerdeError(String),
    /// The embedded alternative engine reported a failure.
    SledError(String),
}

impl KvsError {
    /// The text that describes the error to a person.
    pub open spec fn message_spec(&self) -> Seq<char> {
        match self {
            KvsError::UnknownError => "An unknown error occured"@,
            KvsError::BadRemovalError => "Key not found"@,
            KvsError::EngineMismatchError =>
                "This engine type is incompatable with the current directory"@,
            KvsError::InternalError(detail) => "An internal error occured: "@ + detail@,
            KvsError::BadPathError(path) => "The initialization path must be a directory: "@
                + path@,
            KvsError::BadAddressError(detail) => "Bad address string: "@ + detail@,
            KvsError::IoError(detail) => "An io error occured: "@ + detail@,
            KvsError::SerdeError(detail) => "A serialization error occured: "@ + detail@,
            KvsError::SledError(detail) => "A sled error occured: "@ + detail@,
        }
    }

    /// The text that describes the error to a person.
    pub fn message(&self) -> (text: String)
        ensures
            text@ == self.message_spec(),
    {
        match self {
            KvsError::UnknownError => String::from_str("An unknown error occured"),
            KvsError::BadRemovalError => String::from_str("Key not found"),
            KvsError::EngineMismatchError => String::from_str(
                "This engine type is incompatable with the current directory",
            ),
            KvsError::InternalError(detail) => String::from_str(
                "An internal error occured: ",
            ).concat(detail.as_str()),
            KvsError::BadPathError(path) => String::from_str(
                "The initialization path must be a directory: ",
            ).concat(path.as_str()),
            KvsError::BadAddressError(detail) => String::from_str("Bad address string: ").concat(
                detail.as_str(),
            ),
            KvsError::IoError(detail) => String::from_str("An io error occured: ").concat(
                detail.as_str(),
            ),
            KvsError::SerdeError(detail) => String::from_str(
                "A serialization error occured: ",
            ).concat(detail.as_str()),
            KvsError::SledError(detail) => String::from_str("A sled error occured: ").concat(
                detail.as_str(),
            ),
        }
    }
}

} // verus!
