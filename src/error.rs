//! The failures that the engine reports.

use vstd::prelude::*;

verus! {

/// Why an operation of the engine failed.
#[derive(Debug, Clone, PartialEq, Eq)]
pub enum RitError {
    /// A referenced object, branch or staged path does not exist.
    NotFound,
    /// Stored bytes do not have the expected shape: no object header, a
    /// malformed tree entry, a bad hash, a commit without a `tree` line, or a
    /// stream that does not decompress.
    InvalidData,
    /// A three-way merge found paths changed incompatibly on both sides.
    Conflict { paths: Vec<Vec<u8>> },
    /// Tracked files whose working copy differs from the index.
    Dirty { paths: Vec<Vec<u8>> },
    /// The two commits share no ancestor.
    Unrelated,
    /// HEAD names no branch, so there is no branch to advance.
    Detached,
    /// The current branch has no commit yet.
    NoCommits,
}

impl RitError {
    /// A failure to read a stored object: missing, or not of the expected shape.
    pub open spec fn is_read_error(&self) -> bool {
        *self == RitError::NotFound || *self == RitError::InvalidData
    }
}

} // verus!
