//! The error type shared by every operation of the library.

use vstd::prelude::*;

verus! {

/// Every way an operation of this library can fail.
#[derive(Debug, Clone, Copy, PartialEq, Eq, Structural)]
pub enum GitError {
    /// A stream or file ended early, or the file system failed.
    Io,
    /// A missing object, ref or index file.
    NotFound,
    /// Bad type tag, bad length token or short payload in a stored object.
    CorruptObject,
    /// The index file does not start with the expected signature.
    BadSignature,
    /// An index entry whose mode is not one of the three file modes.
    BadEntryMode,
    /// An index entry with the extended flag set.
    UnsupportedExtension,
    /// Non-zero bytes in the padding of an index entry.
    CorruptPadding,
    /// An index entry name that disagrees with its recorded length.
    CorruptName,
    /// A tree object that does not follow the tree grammar.
    MalformedTree,
    /// A commit object that does not follow the commit grammar.
    MalformedCommit,
    /// A character outside the lowercase hexadecimal alphabet.
    InvalidHex,
    /// Bytes that are not valid UTF-8.
    InvalidUtf8,
    /// A malformed decimal integer.
    ParseInt,
    /// An internal invariant was broken.
    Unexpected,
}

impl GitError {
    /// A short human-readable description of the error.
    pub fn description(&self) -> (r: &'static str) {
        match self {
            GitError::Io => "I/O error or unexpected end of data",
            GitError::NotFound => "not found",
            GitError::CorruptObject => "corrupt object",
            GitError::BadSignature => "bad index file signature",
            GitError::BadEntryMode => "bad entry mode in index",
            GitError::UnsupportedExtension => "extended flag must be 0",
            GitError::CorruptPadding => "found bytes in pad field",
            GitError::CorruptName => "corrupted entry name",
            GitError::MalformedTree => "malformed tree object",
            GitError::MalformedCommit => "malformed commit object",
            GitError::InvalidHex => "invalid hex character",
            GitError::InvalidUtf8 => "invalid UTF-8 data",
            GitError::ParseInt => "invalid integer",
            GitError::Unexpected => "unexpected error",
        }
    }
}

/// The result type used throughout the library.
pub type GitResult<T> = Result<T, GitError>;

} // verus!
