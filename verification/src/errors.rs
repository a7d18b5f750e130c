//! The error taxonomy shared by every fallible operation of the library.

use vstd::prelude::*;

verus! {

/// Why a filesystem, forest, store or sharing operation failed.
#[derive(Clone, Copy, PartialEq, Eq, Structural, Debug)]
pub enum FsError {
    /// A block, path segment or share slot does not exist.
    NotFound,
    /// A ciphertext failed its authentication check, or decoded material was
    /// malformed (wrong key, corrupted bytes, bad padding).
    DecryptionError,
    /// A conflicting node already occupies the path being created.
    AlreadyExists,
    /// The caller handed in an empty or wrongly sized seed, or a malformed path.
    InvalidInput,
    /// The block-store backend reported a read or write failure.
    BackendError,
    /// An operation that needs a live session ran before any session existed.
    NotInitialized,
}

impl FsError {
    /// A human-readable rendering of the error kind.
    pub fn message(&self) -> (r: String)
        ensures
            r@ == self.spec_message(),
    {
        match self {
            FsError::NotFound => "not found".to_owned(),
            FsError::DecryptionError => "decryption or authentication failure".to_owned(),
            FsError::AlreadyExists => "already exists".to_owned(),
            FsError::InvalidInput => "invalid input".to_owned(),
            FsError::BackendError => "block store backend failure".to_owned(),
            FsError::NotInitialized => "not initialized".to_owned(),
        }
    }

    /// The text that `message` returns for each kind.
    pub closed spec fn spec_message(&self) -> Seq<char> {
        match self {
            FsError::NotFound => "not found"@,
            FsError::DecryptionError => "decryption or authentication failure"@,
            FsError::AlreadyExists => "already exists"@,
            FsError::InvalidInput => "invalid input"@,
            FsError::BackendError => "block store backend failure"@,
            FsError::NotInitialized => "not initialized"@,
        }
    }
}

} // verus!
