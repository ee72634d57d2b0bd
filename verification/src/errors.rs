//! The error that parsing and the passes report.

use vstd::prelude::*;

verus! {

/// What went wrong.
#[derive(Clone, Copy, Debug, PartialEq, Eq, Structural)]
pub enum ErrorKind {
    /// The document does not say what it must.
    InvalidData,
    /// The document asks for a file outside the directories it may read.
    PermissionDenied,
}

/// An error with a message for the author of the document.
#[derive(Debug)]
pub struct Error {
    kind: ErrorKind,
    message: String,
}

impl Error {
    /// The kind of the error, as a value.
    pub closed spec fn spec_kind(&self) -> ErrorKind {
        self.kind
    }

    /// The message of the error, as a value.
    pub closed spec fn spec_message(&self) -> Seq<char> {
        self.message@
    }

    /// An error of the given kind with the given message.
    pub fn new(kind: ErrorKind, message: String) -> (e: Error)
        ensures
            e.spec_kind() == kind,
            e.spec_message() == message@,
    {
        Error { kind, message }
    }

    /// The kind of the error.
    pub fn kind(&self) -> (kind: ErrorKind)
        ensures
            kind == self.spec_kind(),
    {
        self.kind
    }

    /// The message of the error.
    pub fn to_string(&self) -> (message: String)
        ensures
            message@ == self.spec_message(),
    {
        self.message.clone()
    }
}

} // verus!
