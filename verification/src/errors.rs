//! The error taxonomy shared by every transport: any lower-level failure is
//! translated into one of these kinds before it reaches the caller.

use vstd::prelude::*;

verus! {

/// A wire, transport, or HTTP failure, reported uniformly by all backends.
#[derive(Debug, Clone, PartialEq, Eq)]
pub enum Error {
    /// A socket connect, read, or write failed.
    Io(String),
    /// A TLS handshake or certificate check failed.
    TlsError(String),
    /// An HTTPS request came back with a non-success status code.
    WrongHttpStatus(u16, Option<String>),
    /// The response bytes are not a well-formed DNS message.
    ProtocolParseError,
    /// The request could not be serialised (an internal invariant broke).
    EncodingError,
    /// The configured timeout expired.
    Timeout,
}

impl Error {
    /// True for the kinds a caller may sensibly retry: transient transport
    /// failures rather than malformed data.
    pub fn is_transient(&self) -> (r: bool)
        ensures
            r == (self is Io || self is Timeout || self is TlsError),
    {
        match self {
            Error::Io(_) => true,
            Error::TlsError(_) => true,
            Error::Timeout => true,
            _ => false,
        }
    }
}

} // verus!
