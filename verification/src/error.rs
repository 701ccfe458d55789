//! The failure taxonomy shared by every component of the library.

use vstd::prelude::*;

verus! {

/// Every public operation either succeeds or reports one of these failures.
#[derive(Clone, Copy, Debug, PartialEq, Eq, Structural)]
pub enum MediaError {
    /// A file or a row that the caller named is absent; expected for absent ids.
    NotFound,
    /// A unique-key collision: an asset path or a tag name already taken.
    ConstraintViolation,
    /// A network failure while fetching a remote resource.
    FetchError,
    /// The bytes could not be parsed as a raster image.
    DecodeError,
    /// A stored field fails to parse on read: a prior write broke the schema contract.
    CorruptMetadata,
    /// A generic filesystem failure on read, write or remove.
    IoError,
}

/// What `MediaError::message` returns for each variant.
pub open spec fn spec_message(e: MediaError) -> Seq<char> {
    match e {
        MediaError::NotFound => "not found"@,
        MediaError::ConstraintViolation => "constraint violation"@,
        MediaError::FetchError => "failed to fetch remote resource"@,
        MediaError::DecodeError => "bytes are not a valid image"@,
        MediaError::CorruptMetadata => "stored metadata failed to parse"@,
        MediaError::IoError => "filesystem operation failed"@,
    }
}

impl MediaError {
    /// A short human-readable description of the failure.
    pub fn message(&self) -> (r: &'static str)
        ensures
            r@ == spec_message(*self),
    {
        match self {
            MediaError::NotFound => "not found",
            MediaError::ConstraintViolation => "constraint violation",
            MediaError::FetchError => "failed to fetch remote resource",
            MediaError::DecodeError => "bytes are not a valid image",
            MediaError::CorruptMetadata => "stored metadata failed to parse",
            MediaError::IoError => "filesystem operation failed",
        }
    }
}

} // verus!
