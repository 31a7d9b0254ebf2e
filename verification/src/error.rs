//! The engine's error type.
//!
//! Every failure the engine can report carries one of four kinds:
//! `Parse` for malformed request bytes, `Config` for a request that lacks
//! what an operation needs (a `Content-Length`, a `Content-Type`, a multipart
//! boundary), `State` for misuse of a [`crate::Client`] (a response already
//! sent, a status message with control characters), and `Io` for a
//! connection that ended before it delivered what the engine was promised.

use vstd::prelude::*;

verus! {

/// The kind of a failure, used by callers to tell rejection classes apart.
#[derive(Clone, Copy, Debug, PartialEq, Eq, Structural)]
pub enum HttpErrorKind {
    /// The request bytes do not form a well-formed request.
    Parse,
    /// The request lacks a header or parameter the operation needs.
    Config,
    /// The `Client` was used in an order its rules forbid.
    State,
    /// The connection ended before the promised bytes arrived.
    Io,
}

/// A failure: a kind plus a short human-readable note.
#[derive(Debug)]
pub struct HttpError {
    kind: HttpErrorKind,
    note: String,
}

impl HttpError {
    /// The spec-level kind.
    pub closed spec fn spec_kind(&self) -> HttpErrorKind {
        self.kind
    }

    /// The spec-level note.
    pub closed spec fn spec_note(&self) -> Seq<char> {
        self.note@
    }

    /// Build an error of the given kind.
    pub fn new(kind: HttpErrorKind, note: &str) -> (e: HttpError)
        ensures
            e.spec_kind() == kind,
            e.spec_note() == note@,
    {
        HttpError { kind, note: note.to_owned() }
    }

    /// The kind of this error.
    pub fn kind(&self) -> (k: HttpErrorKind)
        ensures
            k == self.spec_kind(),
    {
        self.kind
    }

    /// The human-readable note, for logging.
    pub fn note(&self) -> (n: &str)
        ensures
            n@ == self.spec_note(),
    {
        self.note.as_str()
    }
}

} // verus!
