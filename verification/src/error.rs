//! The error type shared by the store, the planner and the dispatch code.

use vstd::prelude::*;
use crate::text::cat2;

verus! {

/// Errors surfaced by the library. Each variant carries a human-readable text.
#[derive(Debug)]
pub enum Error {
    /// A key (or store object) was not found.
    NotFound(String),
    /// A key failed the vault-relative validation rules.
    InvalidKey(String),
    /// The provider rejected the credentials or denied access.
    Unauthorized(String),
    /// A conditional request failed: the remote object changed or appeared.
    PreconditionFailed(String),
    /// The request timed out (transient).
    Timeout(String),
    /// The provider is unavailable or throttling.
    Unavailable(String),
    /// An underlying filesystem or IO error, by its message.
    Io(String),
    /// Anything else.
    Other(String),
}

/// The mathematical view of an [`Error`].
pub enum ErrorView {
    NotFound(Seq<char>),
    InvalidKey(Seq<char>),
    Unauthorized(Seq<char>),
    PreconditionFailed(Seq<char>),
    Timeout(Seq<char>),
    Unavailable(Seq<char>),
    Io(Seq<char>),
    Other(Seq<char>),
}

impl View for Error {
    type V = ErrorView;

    open spec fn view(&self) -> ErrorView {
        match *self {
            Error::NotFound(m) => ErrorView::NotFound(m@),
            Error::InvalidKey(m) => ErrorView::InvalidKey(m@),
            Error::Unauthorized(m) => ErrorView::Unauthorized(m@),
            Error::PreconditionFailed(m) => ErrorView::PreconditionFailed(m@),
            Error::Timeout(m) => ErrorView::Timeout(m@),
            Error::Unavailable(m) => ErrorView::Unavailable(m@),
            Error::Io(m) => ErrorView::Io(m@),
            Error::Other(m) => ErrorView::Other(m@),
        }
    }
}

impl ErrorView {
    /// The text an error is shown as.
    pub open spec fn text(self) -> Seq<char> {
        match self {
            ErrorView::NotFound(m) => "not found: "@ + m,
            ErrorView::InvalidKey(m) => "invalid key: "@ + m,
            ErrorView::Unauthorized(m) => "credentials or permissions rejected: "@ + m,
            ErrorView::PreconditionFailed(m) => "precondition failed: "@ + m,
            ErrorView::Timeout(m) => "request timed out: "@ + m,
            ErrorView::Unavailable(m) => "store unavailable: "@ + m,
            ErrorView::Io(m) => "io error: "@ + m,
            ErrorView::Other(m) => m,
        }
    }
}

impl Error {
    /// The text the error is shown as.
    pub fn to_string(&self) -> (r: String)
        ensures
            r@ == self@.text(),
    {
        match self {
            Error::NotFound(m) => cat2("not found: ", m.as_str()),
            Error::InvalidKey(m) => cat2("invalid key: ", m.as_str()),
            Error::Unauthorized(m) => cat2("credentials or permissions rejected: ", m.as_str()),
            Error::PreconditionFailed(m) => cat2("precondition failed: ", m.as_str()),
            Error::Timeout(m) => cat2("request timed out: ", m.as_str()),
            Error::Unavailable(m) => cat2("store unavailable: ", m.as_str()),
            Error::Io(m) => cat2("io error: ", m.as_str()),
            Error::Other(m) => m.clone(),
        }
    }
}

impl Clone for Error {
    fn clone(&self) -> (r: Self)
        ensures
            r@ == self@,
    {
        match self {
            Error::NotFound(m) => Error::NotFound(m.clone()),
            Error::InvalidKey(m) => Error::InvalidKey(m.clone()),
            Error::Unauthorized(m) => Error::Unauthorized(m.clone()),
            Error::PreconditionFailed(m) => Error::PreconditionFailed(m.clone()),
            Error::Timeout(m) => Error::Timeout(m.clone()),
            Error::Unavailable(m) => Error::Unavailable(m.clone()),
            Error::Io(m) => Error::Io(m.clone()),
            Error::Other(m) => Error::Other(m.clone()),
        }
    }
}

/// The view of a result whose success carries no value.
pub open spec fn unit_view(r: Result<(), Error>) -> Result<(), ErrorView> {
    match r {
        Ok(u) => Ok(u),
        Err(e) => Err(e@),
    }
}

/// What is shown of an error: what kind it is, and its message.
pub proof fn law_error_texts(m: Seq<char>)
    ensures
        ErrorView::NotFound(m).text() == "not found: "@ + m,
        ErrorView::InvalidKey(m).text() == "invalid key: "@ + m,
        ErrorView::Unauthorized(m).text() == "credentials or permissions rejected: "@ + m,
        ErrorView::PreconditionFailed(m).text() == "precondition failed: "@ + m,
        ErrorView::Timeout(m).text() == "request timed out: "@ + m,
        ErrorView::Unavailable(m).text() == "store unavailable: "@ + m,
        ErrorView::Io(m).text() == "io error: "@ + m,
        ErrorView::Other(m).text() == m,
{
}

} // verus!
