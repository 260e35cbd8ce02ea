//! The ways in which the library's operations fail.

use vstd::prelude::*;

verus! {

/// Why an operation on git objects did not complete.
#[derive(Debug, Clone, Copy, PartialEq, Eq, Structural)]
pub enum GitError {
    /// The stored object could not be decompressed, or its text is not
    /// UTF-8 where text was read.
    ReadFailed,
    /// The decompressed object does not have the layout that is read.
    Malformed,
    /// Compression failed.
    CompressFailed,
    /// Bytes that are hashed as text are not UTF-8.
    NotUtf8,
}

} // verus!
