//! What can go wrong while encoding or decoding.
use vstd::prelude::*;

verus! {

/// The kind of an input failure.
#[derive(Debug, Clone, Copy, PartialEq, Eq)]
pub enum IoErrorKind {
    /// The input ended too early ("failed to fill whole buffer").
    UnexpectedEof,
    /// The input held bytes that are not UTF-8 ("stream did not contain valid UTF-8").
    InvalidData,
}

/// Errors of encoding and decoding.
#[derive(Debug, Clone, PartialEq, Eq)]
pub enum Error {
    Syntax,
    /// Bytes were left over after the value.
    Leftover,
    /// A length did not fit the machine's integers.
    FromInt,
    /// The input ended early or was not UTF-8.
    Io(IoErrorKind),
    /// An enum variant index that the expected type does not have.
    UnknownVariant(u8),
    Other(String),
}

impl Error {
    /// The input ended before a value was complete.
    pub open spec fn eof() -> Error {
        Error::Io(IoErrorKind::UnexpectedEof)
    }

    /// A string was not UTF-8.
    pub open spec fn bad_utf8() -> Error {
        Error::Io(IoErrorKind::InvalidData)
    }

    pub fn read_exact_eof() -> (e: Error)
        ensures
            e == Error::eof(),
    {
        Error::Io(IoErrorKind::UnexpectedEof)
    }

    pub fn invalid_utf8() -> (e: Error)
        ensures
            e == Error::bad_utf8(),
    {
        Error::Io(IoErrorKind::InvalidData)
    }
}

} // verus!
