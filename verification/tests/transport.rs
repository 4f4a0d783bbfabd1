//! Tests of the transport-side logic: stream framing, HTTPS status
//! handling, the shared error taxonomy, and agreement between backends.

use dnscore::errors::Error;
use dnscore::framing::{frame_message, unframe_message};
use dnscore::message::{Question, Response};
use dnscore::transport::{
    process_datagram, process_https_reply, process_stream_bytes, HttpsTransport, TcpTransport,
    TlsTransport, UdpTransport, DNS_PORT, TLS_PORT,
};

fn sample_message_bytes() -> Vec<u8> {
    let resp = Response {
        id: 7,
        flags: 0x8180,
        questions: vec![Question { name: vec![b"dns".to_vec()], qtype: 28, qclass: 1 }],
        answers: vec![],
        authorities: vec![],
        additionals: vec![],
    };
    resp.to_bytes().unwrap()
}

#[test]
fn frame_round_trip() {
    let msg = sample_message_bytes();
    let framed = frame_message(&msg).unwrap();
    assert_eq!(framed.len(), msg.len() + 2);
    assert_eq!(framed[0] as usize * 256 + framed[1] as usize, msg.len());
    assert_eq!(unframe_message(&framed).unwrap(), msg);
}

#[test]
fn oversized_message_cannot_be_framed() {
    let msg = vec![0u8; 0x10000];
    assert_eq!(frame_message(&msg), Err(Error::EncodingError));
}

#[test]
fn short_stream_is_an_io_error() {
    // The prefix declares 16 bytes but the stream ended after 3.
    let buf = vec![0x00, 0x10, 1, 2, 3];
    match process_stream_bytes(&buf) {
        Err(Error::Io(_)) => {},
        other => panic!("expected an Io error, got {other:?}"),
    }
    // Even the prefix itself may be cut short.
    match process_stream_bytes(&vec![0x00]) {
        Err(Error::Io(_)) => {},
        other => panic!("expected an Io error, got {other:?}"),
    }
}

#[test]
fn framed_garbage_is_a_parse_error() {
    let framed = frame_message(&vec![1, 2, 3]).unwrap();
    assert_eq!(process_stream_bytes(&framed), Err(Error::ProtocolParseError));
}

#[test]
fn http_error_status_is_reported_without_decoding() {
    // The body is a perfectly valid message; a 500 must still win.
    let body = sample_message_bytes();
    let r = process_https_reply(500, Some("Internal Server Error".to_string()), &body);
    assert_eq!(
        r,
        Err(Error::WrongHttpStatus(500, Some("Internal Server Error".to_string())))
    );
    let r = process_https_reply(404, None, &body);
    assert_eq!(r, Err(Error::WrongHttpStatus(404, None)));
}

#[test]
fn http_success_decodes_the_body() {
    let body = sample_message_bytes();
    let resp = process_https_reply(200, None, &body).unwrap();
    assert_eq!(resp.id, 7);
    let resp = process_https_reply(204, None, &body).unwrap();
    assert_eq!(resp.id, 7);
}

#[test]
fn backends_agree_on_the_same_wire_message() {
    let bytes = sample_message_bytes();
    let via_udp = process_datagram(&bytes).unwrap();
    let via_stream = process_stream_bytes(&frame_message(&bytes).unwrap()).unwrap();
    let via_https = process_https_reply(200, None, &bytes).unwrap();
    assert_eq!(via_udp, via_stream);
    assert_eq!(via_udp, via_https);
}

#[test]
fn transports_keep_their_targets() {
    let https = HttpsTransport::new("https://cloudflare-dns.com/dns-query".to_string());
    assert_eq!(https.url(), "https://cloudflare-dns.com/dns-query");
    let tls = TlsTransport::new("dns.example".to_string(), TLS_PORT);
    assert_eq!(tls.host(), "dns.example");
    assert_eq!(tls.port(), 853);
    let tcp = TcpTransport::new("dns.example".to_string(), DNS_PORT);
    assert_eq!(tcp.host(), "dns.example");
    assert_eq!(tcp.port(), 53);
    let udp = UdpTransport::new("dns.example".to_string(), DNS_PORT);
    assert_eq!(udp.host(), "dns.example");
    assert_eq!(udp.port(), 53);
}

#[test]
fn transient_errors_are_distinguished() {
    assert!(Error::Io("connection refused".to_string()).is_transient());
    assert!(Error::Timeout.is_transient());
    assert!(Error::TlsError("handshake failed".to_string()).is_transient());
    assert!(!Error::ProtocolParseError.is_transient());
    assert!(!Error::EncodingError.is_transient());
    assert!(!Error::WrongHttpStatus(500, None).is_transient());
}
