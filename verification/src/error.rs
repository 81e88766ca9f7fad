//! The ways in which the inputs of a run can be refused.

use vstd::prelude::*;

verus! {

/// A path that cannot be used as given.
#[derive(Debug, Clone)]
pub enum ValidationError {
    /// The directory does not exist.
    DirNotExist(String),
    /// The path exists but is not a directory.
    MustBeDir(String),
    /// The directory holds no `pack.toml`.
    PackNotFound(String),
    /// The output file exists and overwriting was not asked for.
    OutputAlreadyExits(String),
}

/// A request could not be encoded.
#[derive(Debug, Clone, Copy, PartialEq, Eq, Structural)]
pub struct EncodeError;

} // verus!
