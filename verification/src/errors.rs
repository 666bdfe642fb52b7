//! The typed failures that the storage engine reports.

use vstd::prelude::*;

verus! {

/// Why a storage operation failed.
///
/// - `ParseError`: a malformed human path or directory segment;
/// - `NotFound`: an operation referenced a path with no node;
/// - `AlreadyExists`: a move or rename target was occupied;
/// - `Conflict`: the sentinel path was occupied, or no sibling to swap with;
/// - `IoFailure`: a filesystem or external-process invocation failed.
#[derive(Clone, Copy, Debug, PartialEq, Eq, Structural)]
pub enum StoreError {
    ParseError,
    NotFound,
    AlreadyExists,
    Conflict,
    IoFailure,
}

impl StoreError {
    /// A short human-readable description of the failure.
    pub fn message(&self) -> (r: String)
        ensures
            r@ == match self {
                StoreError::ParseError => "malformed path"@,
                StoreError::NotFound => "node not found"@,
                StoreError::AlreadyExists => "new path already exists"@,
                StoreError::Conflict => "conflicting node in the way"@,
                StoreError::IoFailure => "filesystem or external tool failure"@,
            },
    {
        match self {
            StoreError::ParseError => String::from_str("malformed path"),
            StoreError::NotFound => String::from_str("node not found"),
            StoreError::AlreadyExists => String::from_str("new path already exists"),
            StoreError::Conflict => String::from_str("conflicting node in the way"),
            StoreError::IoFailure => String::from_str("filesystem or external tool failure"),
        }
    }
}

} // verus!
