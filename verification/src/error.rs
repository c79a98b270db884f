//! The failure classes shared by every operation of the store.

use vstd::prelude::*;

verus! {

/// Why an operation was refused.
#[derive(Clone, Copy, Debug, PartialEq, Eq, Structural)]
pub enum StoreError {
    /// The bucket, key, version, blob or upload named by the caller is unknown.
    NotFound,
    /// The resource to be created already exists.
    Conflict,
    /// A parameter is missing or malformed, or the parts of an upload have gaps.
    BadRequest,
    /// The storage backend could not carry out the operation.
    Internal,
}

impl StoreError {
    /// The HTTP status that reports this failure.
    pub open spec fn status(self) -> u16 {
        match self {
            StoreError::NotFound => 404,
            StoreError::Conflict => 409,
            StoreError::BadRequest => 400,
            StoreError::Internal => 500,
        }
    }

    /// Computes [`StoreError::status`].
    pub fn status_code(&self) -> (code: u16)
        ensures
            code == self.status(),
    {
        match self {
            StoreError::NotFound => 404,
            StoreError::Conflict => 409,
            StoreError::BadRequest => 400,
            StoreError::Internal => 500,
        }
    }
}

} // verus!
