//! The errors of the write and read paths.
use vstd::prelude::*;

verus! {

/// Why a split, a write or a read did not succeed.
#[derive(Debug, Clone, PartialEq, Eq)]
pub enum ChunkError {
    /// A split count of zero, or a path that names no file.
    InvalidArgument,
    /// The destination directory could not be created.
    DirectoryCreateFailed(String),
    /// The source directory does not exist.
    NotFound(String),
    /// Reading or writing the given path failed.
    IoError(String),
    /// The chunks with these indices could not be written.
    ChunkWriteFailed(Vec<usize>),
    /// The chunks with these indices could not be read.
    ChunkReadFailed(Vec<usize>),
    /// Fewer chunks arrived than were expected.
    PartialRead { expected: usize, found: usize },
    /// An artifact's content could not be decoded.
    DecodeFailed(String),
    /// A chunk could not be encoded.
    EncodeFailed(String),
}

} // verus!
