//! Errors reported by the archive logic.

use vstd::prelude::*;

verus! {

/// Why reading or seeking a file of an archive failed.
#[derive(Debug, Clone, Copy, PartialEq, Eq, Structural)]
pub enum ArchiveError {
    /// No entry lies at the path.
    NotFound,
    /// The entry at the path is a directory.
    NotAFile,
    /// The file is stored outside the archive, which is not supported.
    UnpackedUnsupported,
    /// A seek would move before the start of the file.
    InvalidSeek,
}

/// Why the position fields of a file entry in the header were rejected.
#[derive(Debug, Clone, Copy, PartialEq, Eq, Structural)]
pub enum PositionError {
    /// Both `unpacked: true` and `offset` were given.
    BothUnpackedAndOffset,
    /// `offset` is not a valid `u64` string.
    InvalidOffset,
    /// `unpacked` was `false` and no `offset` was given.
    UnpackedFalse,
}

} // verus!
