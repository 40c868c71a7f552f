//! Errors of the library.

use vstd::prelude::*;

verus! {

/// An error of the library's own operations.
#[derive(Debug, Clone, Copy, PartialEq, Eq, Structural)]
pub enum Error {
    /// An index file's header has the wrong magic or version.
    InvalidIndexHeader,
    /// An index file's body does not parse.
    InconsistentIndex,
    /// A timestamp could not be recognized.
    UnrecognizedTime,
    /// A level name is not one of the known ones.
    InvalidLevel,
    /// A size of zero was given where a positive size is needed.
    ZeroSize,
    /// An input or output operation failed.
    Io,
}

impl Error {
    /// A short description of the error.
    pub fn message(&self) -> (r: &'static str)
        ensures
            (self is InvalidIndexHeader ==> r@ == "invalid index header"@),
            (self is InconsistentIndex ==> r@ == "inconsistent index"@),
            (self is UnrecognizedTime ==> r@ == "cannot recognize time"@),
            (self is InvalidLevel ==> r@ == "invalid level"@),
            (self is ZeroSize ==> r@ == "zero size"@),
            (self is Io ==> r@ == "input/output error"@),
    {
        match self {
            Error::InvalidIndexHeader => "invalid index header",
            Error::InconsistentIndex => "inconsistent index",
            Error::UnrecognizedTime => "cannot recognize time",
            Error::InvalidLevel => "invalid level",
            Error::ZeroSize => "zero size",
            Error::Io => "input/output error",
        }
    }
}

} // verus!
