//! The error type shared by every fallible operation of the library.

use vstd::prelude::*;

verus! {

/// The broad class an [`Error`] belongs to.
#[derive(Clone, Copy, Debug, PartialEq, Eq, Structural)]
pub enum ErrorKind {
    /// The surrounding layer failed to read or write a file.
    Io,
    /// A record carries the wrong header or a version tag nobody knows.
    Format,
    /// A payload does not have the byte layout its record kind declares.
    Decode,
    /// A request that makes no sense in the current state: nothing selected,
    /// a duplicate or empty name, a word or dictionary that is not there, an
    /// empty session pool.
    Domain,
}

/// An error: its kind and a message for the user.
#[derive(Debug)]
pub struct Error {
    kind: ErrorKind,
    message: String,
}

/// The error of the operations on words and dictionaries: the same type as
/// [`Error`], under the name that those operations have for it.
pub type WordError = Error;

impl Error {
    /// The kind of this error, for contracts.
    pub closed spec fn spec_kind(&self) -> ErrorKind {
        self.kind
    }

    /// The message of this error, for contracts.
    pub closed spec fn spec_msg(&self) -> Seq<char> {
        self.message@
    }

    /// An error of the given kind with the given message.
    pub fn new(kind: ErrorKind, message: &str) -> (e: Error)
        ensures
            e.spec_kind() == kind,
            e.spec_msg() == message@,
    {
        Error { kind, message: message.to_owned() }
    }

    /// An error of the given kind that takes ownership of its message.
    pub fn with_message(kind: ErrorKind, message: String) -> (e: Error)
        ensures
            e.spec_kind() == kind,
            e.spec_msg() == message@,
    {
        Error { kind, message }
    }

    /// The kind of this error.
    pub fn kind(&self) -> (k: ErrorKind)
        ensures
            k == self.spec_kind(),
    {
        self.kind
    }

    /// The message, borrowed.
    pub fn msg(&self) -> (m: &str)
        ensures
            m@ == self.spec_msg(),
    {
        self.message.as_str()
    }

    /// The message, taken out of the error.
    pub fn take_msg(self) -> (m: String)
        ensures
            m@ == self.spec_msg(),
    {
        self.message
    }
}

} // verus!
