//! What can go wrong.

use vstd::prelude::*;

use crate::text::owned;

verus! {

/// The kinds of error.
#[derive(Debug, Clone, Copy, PartialEq, Eq, Structural)]
pub enum ErrorKind {
    Io,
    Db,
    Zip,
    UnsupportedType,
    Decode,
    NotFound,
    Invalid,
}

/// An error with its text.
#[derive(Debug, Clone, PartialEq, Eq)]
pub enum Error {
    /// A file, a process or a connection failed.
    Io(String),
    /// The database failed.
    Db(String),
    /// A zip archive could not be read.
    Zip(String),
    /// An upload is of no known type.
    UnsupportedType(String),
    /// A container could not be decoded.
    Decode(String),
    /// What was asked for does not exist.
    NotFound(String),
    /// A request makes no sense.
    Invalid(String),
}

/// What an [`Error`] says.
#[verifier::ext_equal]
pub struct Fault {
    pub kind: ErrorKind,
    pub text: Seq<char>,
}

impl View for Error {
    type V = Fault;

    open spec fn view(&self) -> Fault {
        match self {
            Error::Io(t) => Fault { kind: ErrorKind::Io, text: t@ },
            Error::Db(t) => Fault { kind: ErrorKind::Db, text: t@ },
            Error::Zip(t) => Fault { kind: ErrorKind::Zip, text: t@ },
            Error::UnsupportedType(t) => Fault { kind: ErrorKind::UnsupportedType, text: t@ },
            Error::Decode(t) => Fault { kind: ErrorKind::Decode, text: t@ },
            Error::NotFound(t) => Fault { kind: ErrorKind::NotFound, text: t@ },
            Error::Invalid(t) => Fault { kind: ErrorKind::Invalid, text: t@ },
        }
    }
}

impl Error {
    /// The kind of this error.
    pub fn kind(&self) -> (r: ErrorKind)
        ensures
            r == self@.kind,
    {
        match self {
            Error::Io(_) => ErrorKind::Io,
            Error::Db(_) => ErrorKind::Db,
            Error::Zip(_) => ErrorKind::Zip,
            Error::UnsupportedType(_) => ErrorKind::UnsupportedType,
            Error::Decode(_) => ErrorKind::Decode,
            Error::NotFound(_) => ErrorKind::NotFound,
            Error::Invalid(_) => ErrorKind::Invalid,
        }
    }

    /// The text of this error.
    pub fn text(&self) -> (r: String)
        ensures
            r@ == self@.text,
    {
        match self {
            Error::Io(t) => owned(t),
            Error::Db(t) => owned(t),
            Error::Zip(t) => owned(t),
            Error::UnsupportedType(t) => owned(t),
            Error::Decode(t) => owned(t),
            Error::NotFound(t) => owned(t),
            Error::Invalid(t) => owned(t),
        }
    }
}

} // verus!
