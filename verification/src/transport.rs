//! The transport abstraction: the `send` capability, the four backend
//! value objects (UDP, TCP, DNS-over-TLS, DNS-over-HTTPS), and the decision
//! logic each backend applies to the bytes its connection delivered.
//!
//! The connections themselves (sockets, TLS handshakes, HTTP requests) live
//! outside this crate; a backend here holds only its immutable target and
//! turns received bytes into a `Response` or a typed error.

use vstd::prelude::*;

use crate::errors::Error;
use crate::framing::{framed, lemma_frame_round_trip, unframe_message, unframed};
use crate::message::{parse_response, Response, ResponseModel};
use crate::request::Request;

verus! {

/// The capability every backend offers: one self-contained round trip of a
/// request, bounded by an optional timeout in milliseconds. Implementations
/// perform I/O, so they live with the code that owns the sockets.
pub trait Transport {
    /// Sends the request and decodes the reply.
    fn send(&self, request: &Request, timeout_ms: Option<u64>) -> Result<Response, Error>;
}

/// The capability a TLS stream provider offers: a connected, handshaken,
/// server-verified byte stream to `domain:port`. Two interchangeable
/// providers (the platform TLS library, or an in-process TLS
/// implementation with a bundled root store) satisfy it; the TLS and HTTPS
/// backends are written against this contract alone.
pub trait TlsStream<S> {
    /// Opens a TLS stream to the given host and port.
    fn stream(domain: &str, port: u16, timeout_ms: Option<u64>) -> Result<S, Error>;
}

/// The default port of DNS over TLS.
pub const TLS_PORT: u16 = 853;

/// The default port of plain DNS over UDP or TCP.
pub const DNS_PORT: u16 = 53;

/// The HTTPS transport's target: a URL, configured once.
pub struct HttpsTransport {
    url: String,
}

/// A transport's view is its immutable target.
impl View for HttpsTransport {
    type V = Seq<char>;

    closed spec fn view(&self) -> Seq<char> {
        self.url@
    }
}

impl HttpsTransport {
    /// Creates a new HTTPS transport that connects to the given URL.
    pub fn new(url: String) -> (t: Self)
        ensures
            t@ == url@,
    {
        Self { url }
    }

    /// The URL this transport posts to.
    pub fn url(&self) -> (r: &String)
        ensures
            r@ == self@,
    {
        &self.url
    }
}

/// The TLS transport's target: a host and port, configured once.
pub struct TlsTransport {
    host: String,
    port: u16,
}

/// A transport's view is its immutable target.
impl View for TlsTransport {
    type V = (Seq<char>, u16);

    closed spec fn view(&self) -> (Seq<char>, u16) {
        (self.host@, self.port)
    }
}

impl TlsTransport {
    /// Creates a new TLS transport that connects to the given host and
    /// port.
    pub fn new(host: String, port: u16) -> (t: Self)
        ensures
            t@ == (host@, port),
    {
        Self { host, port }
    }

    /// The host this transport connects to.
    pub fn host(&self) -> (r: &String)
        ensures
            r@ == self@.0,
    {
        &self.host
    }

    /// The port this transport connects to.
    pub fn port(&self) -> (r: u16)
        ensures
            r == self@.1,
    {
        self.port
    }
}

/// The TCP transport's target: a host and port, configured once.
pub struct TcpTransport {
    host: String,
    port: u16,
}

/// A transport's view is its immutable target.
impl View for TcpTransport {
    type V = (Seq<char>, u16);

    closed spec fn view(&self) -> (Seq<char>, u16) {
        (self.host@, self.port)
    }
}

impl TcpTransport {
    /// Creates a new TCP transport that connects to the given host and
    /// port.
    pub fn new(host: String, port: u16) -> (t: Self)
        ensures
            t@ == (host@, port),
    {
        Self { host, port }
    }

    /// The host this transport connects to.
    pub fn host(&self) -> (r: &String)
        ensures
            r@ == self@.0,
    {
        &self.host
    }

    /// The port this transport connects to.
    pub fn port(&self) -> (r: u16)
        ensures
            r == self@.1,
    {
        self.port
    }
}

/// The UDP transport's target: a host and port, configured once.
pub struct UdpTransport {
    host: String,
    port: u16,
}

/// A transport's view is its immutable target.
impl View for UdpTransport {
    type V = (Seq<char>, u16);

    closed spec fn view(&self) -> (Seq<char>, u16) {
        (self.host@, self.port)
    }
}

impl UdpTransport {
    /// Creates a new UDP transport that sends to the given host and port.
    pub fn new(host: String, port: u16) -> (t: Self)
        ensures
            t@ == (host@, port),
    {
        Self { host, port }
    }

    /// The host this transport sends to.
    pub fn host(&self) -> (r: &String)
        ensures
            r@ == self@.0,
    {
        &self.host
    }

    /// The port this transport sends to.
    pub fn port(&self) -> (r: u16)
        ensures
            r == self@.1,
    {
        self.port
    }
}

/// Whether an HTTP status code reports success.
pub open spec fn http_success(status: u16) -> bool {
    200 <= status < 300
}

/// What the UDP backend makes of the datagram it received.
pub open spec fn datagram_outcome(b: Seq<u8>) -> Option<ResponseModel> {
    parse_response(b)
}

/// What the TCP and TLS backends make of the bytes their stream delivered:
/// the frame's message, decoded.
pub open spec fn stream_outcome(buf: Seq<u8>) -> Option<ResponseModel> {
    match unframed(buf) {
        Some(m) => parse_response(m),
        None => None,
    }
}

/// What the HTTPS backend makes of the reply: the body decodes only on a
/// success status.
pub open spec fn https_outcome(status: u16, body: Seq<u8>) -> Option<ResponseModel> {
    if http_success(status) {
        parse_response(body)
    } else {
        None
    }
}

/// Decodes the single reply datagram of a UDP round trip.
pub fn process_datagram(buf: &[u8]) -> (r: Result<Response, Error>)
    ensures
        match datagram_outcome(buf@) {
            Some(m) => r matches Ok(resp) && resp.deep_view() == m,
            None => r == Err::<Response, Error>(Error::ProtocolParseError),
        },
{
    Response::from_bytes(buf)
}

/// Decodes the bytes a TCP or TLS stream delivered: strips the length
/// prefix, then decodes the message. A stream that ended before the
/// declared length is an `Io` error; a malformed message is a
/// `ProtocolParseError`.
pub fn process_stream_bytes(buf: &Vec<u8>) -> (r: Result<Response, Error>)
    ensures
        match stream_outcome(buf@) {
            Some(m) => r matches Ok(resp) && resp.deep_view() == m,
            None => r matches Err(e) && (e is Io || e is ProtocolParseError),
        },
        unframed(buf@) is None ==> (r matches Err(e) && e is Io),
        (unframed(buf@) matches Some(m) && parse_response(m) is None) ==> r == Err::<
            Response,
            Error,
        >(Error::ProtocolParseError),
{
    let msg = match unframe_message(buf) {
        Ok(m) => m,
        Err(e) => {
            return Err(e);
        },
    };
    Response::from_bytes(msg.as_slice())
}

/// Applies the HTTPS backend's status rule to a completed POST: a
/// non-success status is reported as `WrongHttpStatus` with the status
/// line's reason, and the body is not decoded; on success the body is the
/// wire message.
pub fn process_https_reply(status: u16, reason: Option<String>, body: &[u8]) -> (r: Result<
    Response,
    Error,
>)
    ensures
        !http_success(status) ==> r == Err::<Response, Error>(
            Error::WrongHttpStatus(status, reason),
        ),
        http_success(status) ==> match https_outcome(status, body@) {
            Some(m) => r matches Ok(resp) && resp.deep_view() == m,
            None => r == Err::<Response, Error>(Error::ProtocolParseError),
        },
{
    if status < 200 || status >= 300 {
        return Err(Error::WrongHttpStatus(status, reason));
    }
    Response::from_bytes(body)
}

/// Backend interchangeability: the same wire message, delivered by a
/// datagram, by a correctly framed stream, or as the body of a successful
/// HTTPS reply, decodes to the same outcome.
pub proof fn lemma_backend_interchangeability(b: Seq<u8>, status: u16)
    requires
        b.len() <= 0xffff,
        http_success(status),
    ensures
        stream_outcome(framed(b)) == datagram_outcome(b),
        https_outcome(status, b) == datagram_outcome(b),
{
    lemma_frame_round_trip(b);
}

} // verus!

