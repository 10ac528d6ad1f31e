//! Errors of the merge itself.
use vstd::prelude::*;

verus! {

/// Why a merge could not be made.
#[derive(Debug, Clone, Copy, PartialEq, Eq, Structural)]
pub enum Error {
    /// Two files at one path that cannot be merged: they are of different
    /// kinds, or of a kind that has no merge.
    IncompatibleFile,
    /// There was no version to merge.
    EmptyConflict,
}

impl Error {
    pub fn message(&self) -> (r: &'static str)
        ensures
            r@ == match self {
                Error::IncompatibleFile => "Incompatible file type for merging"@,
                Error::EmptyConflict => "Nothing to merge"@,
            },
    {
        match self {
            Error::IncompatibleFile => "Incompatible file type for merging",
            Error::EmptyConflict => "Nothing to merge",
        }
    }
}

} // verus!
