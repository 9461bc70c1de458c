//! The error type shared by every fallible operation.

use vstd::prelude::*;

verus! {

/// The class of a failure.
#[derive(Clone, Copy, Debug, PartialEq, Eq, Structural)]
pub enum ErrorKind {
    /// A header field, an option value or a data length is not acceptable.
    InvalidInput,
    /// The operation is not allowed in the encoder's current state.
    InvalidState,
    /// A worker reported a failure; the encoder is poisoned.
    Internal,
    /// A failure reported by the caller's own code.
    Other,
}

/// A failure: its class and a message for people.
#[derive(Debug)]
pub struct Error {
    pub kind: ErrorKind,
    pub message: String,
}

impl Error {
    /// Whether this error has the given class and message.
    pub open spec fn has(&self, kind: ErrorKind, text: &str) -> bool {
        self.kind == kind && self.message@ == text@
    }

    pub fn new(kind: ErrorKind, payload: &str) -> (e: Error)
        ensures
            e.has(kind, payload),
    {
        Error { kind, message: payload.to_owned() }
    }

    pub fn kind(&self) -> (k: ErrorKind)
        ensures
            k == self.kind,
    {
        self.kind
    }

    pub fn message(&self) -> (m: String)
        ensures
            m@ == self.message@,
    {
        self.message.clone()
    }
}

/// An error of class `Other` carrying `payload`.
pub fn err(payload: &str) -> (e: Error)
    ensures
        e.has(ErrorKind::Other, payload),
{
    Error::new(ErrorKind::Other, payload)
}

/// An error of class `InvalidInput` carrying `payload`.
pub fn invalid_input(payload: &str) -> (e: Error)
    ensures
        e.has(ErrorKind::InvalidInput, payload),
{
    Error::new(ErrorKind::InvalidInput, payload)
}

/// An error of class `InvalidState` carrying `payload`.
pub fn invalid_state(payload: &str) -> (e: Error)
    ensures
        e.has(ErrorKind::InvalidState, payload),
{
    Error::new(ErrorKind::InvalidState, payload)
}

/// An error of class `Internal` carrying `payload`.
pub fn internal(payload: &str) -> (e: Error)
    ensures
        e.has(ErrorKind::Internal, payload),
{
    Error::new(ErrorKind::Internal, payload)
}

} // verus!
