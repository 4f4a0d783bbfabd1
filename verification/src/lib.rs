//! Core of a DNS client: the wire codec for DNS messages (header, question,
//! resource records, EDNS0 options including Client Subnet), the 2-byte
//! length-prefix framing shared by the TCP and TLS transports, the response
//! handling of the HTTPS transport, and the error taxonomy that every
//! transport reports through.
//!
//! Network I/O itself (sockets, TLS handshakes, HTTP) lives outside this
//! crate; the functions here compute the bytes to send and decide what a
//! received byte sequence means.

pub mod csubnet;
pub mod errors;
pub mod framing;
pub mod message;
pub mod request;
pub mod transport;
pub mod wire;

pub use csubnet::{IpAddress, CSUBNET};
pub use errors::Error;
pub use message::{Question, Record, Response};
pub use request::{EdnsOption, OptRecord, Request};
pub use transport::{
    HttpsTransport, TcpTransport, TlsStream, TlsTransport, Transport, UdpTransport,
};
