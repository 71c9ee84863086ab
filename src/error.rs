//! The ways an operation of the store can fail.

use vstd::prelude::*;

verus! {

#[derive(Debug, Clone, Copy, PartialEq, Eq, Structural)]
pub enum StoreError {
    /// No object file stands at the path derived from the identifier.
    NotFound,
    /// A frame header, identifier text or tree entry is malformed, or names
    /// an unrecognised kind.
    Format,
    /// The bytes actually available differ from the declared size.
    SizeMismatch,
    /// A directory entry that is neither a regular file nor a directory.
    UnsupportedEntryType,
    /// An underlying file-system or compression-stream failure.
    Io,
}

} // verus!
