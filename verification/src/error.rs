//! Error taxonomy of the blob store: precise conditions (`NotFound`,
//! `AlreadyExists`, `RangeError`, `Unsupported`) and opaque medium failures
//! (`Io`, `Other`).

use vstd::prelude::*;

verus! {

/// A failure whose condition is decided by the blob store's own rules.
#[derive(Clone, Copy, Debug, PartialEq, Eq, Structural)]
pub enum BlobError {
    /// The addressed blob does not exist.
    NotFound,
    /// A blob with this key already exists, so it cannot be created.
    AlreadyExists,
    /// A byte range is reversed, out of bounds, or does not match the
    /// length of the data it is paired with.
    RangeError,
    /// The operation is not implemented by this layer.
    Unsupported,
}

/// Any failure a blob store operation can report.
#[derive(Clone, Debug, PartialEq)]
pub enum Error {
    /// A condition of the store's own rules.
    Blob(BlobError),
    /// An opaque I/O fault of the underlying medium, described in text.
    Io(String),
    /// An opaque backend-specific failure, described in text.
    Other(String),
}

impl Error {
    pub open spec fn is_not_found(&self) -> bool {
        self matches Error::Blob(BlobError::NotFound)
    }

    pub open spec fn is_already_exists(&self) -> bool {
        self matches Error::Blob(BlobError::AlreadyExists)
    }

    pub open spec fn is_range_error(&self) -> bool {
        self matches Error::Blob(BlobError::RangeError)
    }

    pub open spec fn is_unsupported(&self) -> bool {
        self matches Error::Blob(BlobError::Unsupported)
    }

    /// An opaque failure of the medium or the backend, as opposed to a
    /// condition the store's rules decide.
    pub open spec fn is_opaque(&self) -> bool {
        self matches Error::Io(_) || self matches Error::Other(_)
    }

    /// A short description of the error, for display by callers.
    pub fn describe(&self) -> String {
        match self {
            Error::Blob(BlobError::NotFound) => "blob not found".to_string(),
            Error::Blob(BlobError::AlreadyExists) => "blob already exists".to_string(),
            Error::Blob(BlobError::RangeError) => "blob range out of bounds".to_string(),
            Error::Blob(BlobError::Unsupported) => "operation not supported".to_string(),
            Error::Io(msg) => msg.clone(),
            Error::Other(msg) => msg.clone(),
        }
    }
}

} // verus!
