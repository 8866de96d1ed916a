//! Errors and the classification of low-level error codes.

use vstd::prelude::*;

verus! {

/// The numeric code that the transport layer reports for an I/O failure.
pub const CODE_INPUT_OUTPUT: isize = 1;

/// The numeric code for an unexpected end of the byte stream.
pub const CODE_END_OF_FILE: isize = 3;

/// The numeric code for a violation of the wire protocol.
pub const CODE_PROTOCOL: isize = 4;

/// The numeric code for an allocation failure in the transport layer.
pub const CODE_OUT_OF_MEMORY: isize = 5;

/// An error kind: the stable taxonomy exposed to callers, so that they can
/// discriminate failures programmatically beyond the message text.
#[derive(Clone, Copy, Debug, PartialEq, Eq, Structural)]
pub enum ErrorKind {
    InputOutput,
    EndOfFile,
    Protocol,
    OutOfMemory,
    Other,
}

/// An error: a kind plus a human-readable message, immutable once built.
#[derive(Debug)]
pub struct Error {
    pub kind: ErrorKind,
    pub message: String,
}

/// The kind that a low-level numeric error code maps to; unrecognized codes
/// map to `Other`.
pub open spec fn spec_classify(code: int) -> ErrorKind {
    if code == CODE_INPUT_OUTPUT as int {
        ErrorKind::InputOutput
    } else if code == CODE_END_OF_FILE as int {
        ErrorKind::EndOfFile
    } else if code == CODE_PROTOCOL as int {
        ErrorKind::Protocol
    } else if code == CODE_OUT_OF_MEMORY as int {
        ErrorKind::OutOfMemory
    } else {
        ErrorKind::Other
    }
}

impl vstd::std_specs::convert::FromSpecImpl<isize> for ErrorKind {
    open spec fn obeys_from_spec() -> bool {
        true
    }

    open spec fn from_spec(code: isize) -> ErrorKind {
        spec_classify(code as int)
    }
}

impl From<isize> for ErrorKind {
    /// Maps a low-level numeric error code to its kind.
    fn from(code: isize) -> (kind: ErrorKind)
        ensures
            kind == spec_classify(code as int),
    {
        if code == CODE_INPUT_OUTPUT {
            ErrorKind::InputOutput
        } else if code == CODE_END_OF_FILE {
            ErrorKind::EndOfFile
        } else if code == CODE_PROTOCOL {
            ErrorKind::Protocol
        } else if code == CODE_OUT_OF_MEMORY {
            ErrorKind::OutOfMemory
        } else {
            ErrorKind::Other
        }
    }
}

impl ErrorKind {
    /// The numeric code this kind stands for; classifying it gives the
    /// kind back.
    pub fn code(&self) -> (c: isize)
        ensures
            c == match *self {
                ErrorKind::InputOutput => CODE_INPUT_OUTPUT as int,
                ErrorKind::EndOfFile => CODE_END_OF_FILE as int,
                ErrorKind::Protocol => CODE_PROTOCOL as int,
                ErrorKind::OutOfMemory => CODE_OUT_OF_MEMORY as int,
                ErrorKind::Other => 2int,
            },
            spec_classify(c as int) == *self,
    {
        match *self {
            ErrorKind::InputOutput => CODE_INPUT_OUTPUT,
            ErrorKind::EndOfFile => CODE_END_OF_FILE,
            ErrorKind::Protocol => CODE_PROTOCOL,
            ErrorKind::OutOfMemory => CODE_OUT_OF_MEMORY,
            ErrorKind::Other => 2,
        }
    }
}

impl Error {
    /// An error of kind `Other` carrying the given message.
    pub fn other(message: &str) -> (e: Error)
        ensures
            e.kind == ErrorKind::Other,
            e.message@ == message@,
    {
        Error { kind: ErrorKind::Other, message: message.to_owned() }
    }

    /// A fresh error with the same kind and message as this one.
    pub fn duplicate(&self) -> (e: Error)
        ensures
            e.kind == self.kind,
            e.message@ == self.message@,
    {
        Error { kind: self.kind, message: self.message.clone() }
    }

    /// The human-readable message, for display.
    pub fn text(&self) -> (r: &str)
        ensures
            r@ == self.message@,
    {
        self.message.as_str()
    }
}

} // verus!
