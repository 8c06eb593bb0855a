//! Errors of this crate, and the places they are reported at.

use crate::raw::{Ident, Type, Version};
use vstd::prelude::*;

verus! {

/// What went wrong.
#[derive(Clone, PartialEq, Eq, Debug)]
pub enum ErrorKind {
    /// The source of the bytes failed. The payload is its message.
    Io(String),
    /// A string in the file is not UTF-8.
    FromUtf8,
    /// The file does not start with one of the four magic numbers.
    UnknownFileType(u32),
    /// The version of a file differs from the version of the graph it is merged into:
    /// the graph's version, then the file's.
    VersionMismatch(Version, Version),
    /// The end of the bytes, or the end-of-file tag. Usually not fatal.
    Eof,
    /// A record with an unknown tag.
    UnknownTag(u32),
    /// A block or arc attribute with bits that a note file may not set: the kind of
    /// attribute, then the raw value.
    UnsupportedAttr(&'static str, u32),
    /// A version number that fails the version mask.
    UnsupportedVersion(u32),
    /// A data file names a function that no note file has announced: the file's stamp,
    /// then the function's identifier.
    MissingFunction(u32, Ident),
    /// The same function was announced twice.
    DuplicatedFunction(u32, Ident),
    /// A list of counters does not have the length that the note file calls for: the kind
    /// of counter, the kind of file, the length received, the length expected.
    CountsMismatch(&'static str, Type, usize, usize),
    /// A block, arc or line record comes before the first function record.
    RecordWithoutFunction,
}

/// Where an error was met.
#[derive(Clone, PartialEq, Eq, Hash, Debug)]
pub enum Location {
    /// Nowhere in particular.
    Nowhere,
    /// A byte offset in a file.
    Cursor(u64),
    /// The index of a record in a file.
    RecordIndex(usize),
    /// The path of a file.
    File(String),
}

/// An error: its kind, and the places it passed through, innermost first.
#[derive(Clone, PartialEq, Eq, Debug)]
pub struct Error {
    /// What went wrong.
    pub kind: ErrorKind,
    /// The places attached by [`Location::wrap_error`], in the order they were attached.
    pub trail: Vec<Location>,
}

/// The result type of this crate.
pub type Result<T> = core::result::Result<T, Error>;

impl Error {
    /// An error of the given kind that has not been located yet.
    pub fn new(kind: ErrorKind) -> (e: Error)
        ensures
            e.kind == kind,
            e.trail@ == Seq::<Location>::empty(),
    {
        Error { kind, trail: Vec::new() }
    }
}

impl Location {
    /// What [`Location::wrap_error`] does to the trail of an error.
    pub open spec fn spec_wrap_trail(self, trail: Seq<Location>) -> Seq<Location> {
        if self is Nowhere {
            trail
        } else {
            trail.push(self)
        }
    }

    /// Runs `f` and, if it fails, attaches this location to the error.
    pub fn wrap<T, F: FnOnce() -> Result<T>>(self, f: F) -> (r: Result<T>)
        requires
            f.requires(()),
        ensures
            match r {
                Ok(v) => f.ensures((), Ok(v)),
                Err(e) => exists|inner: Error|
                    #![trigger f.ensures((), Err(inner))]
                    f.ensures((), Err(inner)) && e.kind == inner.kind && e.trail@
                        == self.spec_wrap_trail(inner.trail@),
            },
    {
        match f() {
            Ok(v) => Ok(v),
            Err(e) => Err(self.wrap_error(e)),
        }
    }

    /// Attaches this location to the error. `Location::Nowhere` attaches nothing.
    pub fn wrap_error(self, e: Error) -> (r: Error)
        ensures
            r.kind == e.kind,
            r.trail@ == self.spec_wrap_trail(e.trail@),
    {
        let mut error = e;
        match self {
            Location::Nowhere => {},
            _ => {
                error.trail.push(self);
            },
        }
        error
    }
}

/// Errors that may stand for the end of the input.
pub trait IsEof {
    /// Whether the error stands for the end of the input.
    spec fn spec_is_eof(&self) -> bool;

    /// Tells whether the error stands for the end of the input.
    fn is_eof(&self) -> (b: bool)
        ensures
            b == self.spec_is_eof(),
    ;
}

impl IsEof for ErrorKind {
    open spec fn spec_is_eof(&self) -> bool {
        *self is Eof
    }

    fn is_eof(&self) -> (b: bool) {
        match self {
            ErrorKind::Eof => true,
            _ => false,
        }
    }
}

impl IsEof for Error {
    open spec fn spec_is_eof(&self) -> bool {
        self.kind is Eof
    }

    fn is_eof(&self) -> (b: bool) {
        self.kind.is_eof()
    }
}

} // verus!
