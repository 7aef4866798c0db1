//! The library's single tagged error: a kind plus a human-readable context
//! string. Errors are never retried inside the library; they propagate to the
//! caller unchanged.

use vstd::prelude::*;

verus! {

/// What went wrong. Contracts throughout the library speak of this tag; the
/// accompanying context string is for human eyes only.
#[derive(Clone, Copy, Debug, PartialEq, Eq, Structural)]
pub enum ErrorKind {
    /// The 16-byte magic string of a database file was not found.
    InvalidMagic,
    /// A WAL header declared a format version other than the supported one.
    UnsupportedFormat,
    /// A text-encoding word outside the known range, or a non-UTF-8 encoding
    /// where only UTF-8 is implemented.
    UnsupportedEncoding,
    /// A B-tree page began with an unknown page-type byte.
    UnsupportedPageType,
    /// A record column carried a serial type the decoder does not implement.
    UnsupportedSerialType,
    /// Fewer bytes remained than a read primitive requested.
    EndOfInput,
    /// A database file's remainder was not an exact sequence of whole pages.
    TruncatedFile,
    /// A WAL and a database declared different page sizes.
    PageSizeMismatch,
    /// A WAL frame's salts disagreed with the WAL header's salts.
    SaltMismatch,
    /// Page 1 was absent where it is required.
    MissingPage,
    /// A commit frame asked for the database to shrink; the library reports
    /// the request instead of destroying pages.
    TruncationRequired,
    /// A numeric field could not grow or shrink without leaving its type.
    Overflow,
    /// The two-word checksum was asked to fold an odd number of words.
    ChecksumMisaligned,
}

/// A structured failure: the tag the contracts speak of, with context.
#[derive(Clone, Debug)]
pub struct Error {
    pub kind: ErrorKind,
    pub context: String,
}

impl Error {
    /// Builds an error of the given kind around a context message.
    pub fn new(kind: ErrorKind, context: &str) -> (r: Error)
        ensures
            r.kind == kind,
    {
        Error { kind, context: context.to_owned() }
    }

    /// The tag, for callers that match on what went wrong.
    pub fn kind(&self) -> (k: ErrorKind)
        ensures
            k == self.kind,
    {
        self.kind
    }

    /// A copy of the human-readable context string.
    pub fn message(&self) -> (m: String)
        ensures
            m@ == self.context@,
    {
        self.context.clone()
    }
}

} // verus!
