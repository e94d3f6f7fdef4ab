//! The kinds of failure that the engine reports.

use vstd::prelude::*;

verus! {

/// A tagged error kind.
#[derive(Debug, Clone, Copy, PartialEq, Eq, Structural)]
pub enum ErrorKind {
    /// An underlying read, write or sync failed.
    IoError,
    /// A page header, tuple or record fails validation.
    InvalidData,
    /// A bad slot, a wrong page key or a non-contiguous allocation.
    InvalidArgument,
    /// The page is full.
    NoSpace,
    /// The key names a page past the end of its file.
    NotFound,
    /// Every pool entry is pinned.
    OutOfBuffers,
    /// A variable-length overwrite was attempted.
    Unsupported,
}

} // verus!
