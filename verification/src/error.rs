//! Error values surfaced by the codec and the content tree.

use vstd::prelude::*;

verus! {

/// What went wrong, distinguishable by kind.
#[derive(Clone, Copy, Debug, PartialEq, Eq, Structural)]
pub enum ErrorKind {
    /// A structural violation: re-decoding an already resolved value, or a
    /// typed sub-header shorter than its eight bytes.
    Parsing,
    /// A decode met a type code with no supported mapping; the offending code
    /// is preserved (as the raw 32-bit value of the wire field).
    UnknownDataType(u32),
    /// An attempt to encode a value that is still unparsed.
    UnwritableDataType,
    /// A read, seek or write went past the end of the underlying byte range.
    Io,
    /// Invalid UTF-8 bytes or an invalid UTF-16 code-unit sequence.
    Encoding,
}

/// An error kind together with a human-readable description.
#[derive(Clone, Debug)]
pub struct Error {
    pub kind: ErrorKind,
    pub description: String,
}

impl Error {
    /// Creates a new error of the given kind.
    pub fn new(kind: ErrorKind, description: &str) -> (r: Error)
        ensures
            r.kind == kind,
            r.description@ == description@,
    {
        Error { kind, description: description.to_owned() }
    }
}

} // verus!
