//! Line-tagged diagnostics: the error taxonomy and the error value that
//! a failed scan returns.

use vstd::prelude::*;

verus! {

/// What went wrong. The first two variants are user syntax errors the
/// scanner itself detects; the remaining ones stand for faults that can
/// only arise at the edges (reading input, decoding a lexeme as text,
/// decoding a digit span as a number) and are reported by the driver
/// through the same channel.
#[derive(PartialEq, Eq, Structural, Copy, Clone, Debug)]
pub enum ErrorKind {
    UnterminatedString,
    UnexpectedCharacter,
    IoError,
    Utf8Error,
    ParseFloatError,
}

/// A diagnostic: the 1-based source line at which it was detected, and
/// its kind. Producing one aborts the scan that produced it.
#[derive(PartialEq, Eq, Structural, Copy, Clone, Debug)]
pub struct Error {
    pub line: usize,
    pub kind: ErrorKind,
}

impl Error {
    pub fn new(line: usize, kind: ErrorKind) -> (e: Error)
        ensures
            e.line == line,
            e.kind == kind,
    {
        Error { line, kind }
    }
}

} // verus!
