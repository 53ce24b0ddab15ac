//! Errors of the string decoder.
use vstd::prelude::*;

verus! {

/// What went wrong while decoding a string.
#[derive(Debug, Clone, Copy, PartialEq, Eq, Structural)]
pub enum ErrorType {
    /// A backslash is followed by a character that starts no escape.
    InvalidEscape,
    /// A `\u` escape has malformed hex digits or an unpaired surrogate.
    InvalidUnicodeCodepoint,
    /// The input ends before the string is closed.
    Eof,
}

/// A decoding failure: where it happened, the byte there, and its kind.
#[derive(Debug, Clone, Copy, PartialEq, Eq, Structural)]
pub struct Error {
    /// Offset in the document of the offending byte.
    pub index: usize,
    /// The offending byte (0 where there is none).
    pub character: u8,
    /// The kind of failure.
    pub error: ErrorType,
}

impl Error {
    /// Builds an error at `index` with the offending byte `character`.
    pub fn new_c(index: usize, character: u8, error: ErrorType) -> (r: Error)
        ensures
            r == (Error { index, character, error }),
    {
        Error { index, character, error }
    }
}

} // verus!
