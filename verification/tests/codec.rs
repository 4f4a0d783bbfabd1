//! Tests of the wire codec: encoding, decoding, round trips, and rejection
//! of malformed buffers.

use dnscore::csubnet::{IpAddress, CSUBNET};
use dnscore::errors::Error;
use dnscore::message::{Question, Record, Response};
use dnscore::request::{EdnsOption, OptRecord, Request};

fn sample_question() -> Question {
    Question { name: vec![b"example".to_vec(), b"com".to_vec()], qtype: 1, qclass: 1 }
}

fn sample_response() -> Response {
    Response {
        id: 0x1234,
        flags: 0x8180,
        questions: vec![sample_question()],
        answers: vec![Record {
            name: vec![b"example".to_vec(), b"com".to_vec()],
            rtype: 1,
            rclass: 1,
            ttl: 3600,
            rdata: vec![192, 0, 2, 1],
        }],
        authorities: vec![],
        additionals: vec![],
    }
}

#[test]
fn response_round_trip() {
    let resp = sample_response();
    let bytes = resp.to_bytes().unwrap();
    let back = Response::from_bytes(&bytes).unwrap();
    assert_eq!(back, resp);
}

#[test]
fn response_round_trip_root_name_and_empty_rdata() {
    let resp = Response {
        id: 0,
        flags: 0,
        questions: vec![Question { name: vec![], qtype: 255, qclass: 1 }],
        answers: vec![],
        authorities: vec![Record {
            name: vec![],
            rtype: 6,
            rclass: 1,
            ttl: 0,
            rdata: vec![],
        }],
        additionals: vec![],
    };
    let bytes = resp.to_bytes().unwrap();
    let back = Response::from_bytes(&bytes).unwrap();
    assert_eq!(back, resp);
}

#[test]
fn request_encodes_to_expected_bytes() {
    let req = Request { id: 0x1234, flags: 0x0100, question: sample_question(), edns: None };
    let bytes = req.to_bytes().unwrap();
    let expected: Vec<u8> = vec![
        0x12, 0x34, 0x01, 0x00, 0x00, 0x01, 0x00, 0x00, 0x00, 0x00, 0x00, 0x00, // header
        7, b'e', b'x', b'a', b'm', b'p', b'l', b'e', 3, b'c', b'o', b'm', 0, // name
        0x00, 0x01, 0x00, 0x01, // type A, class IN
    ];
    assert_eq!(bytes, expected);
}

#[test]
fn request_round_trips_through_decoder() {
    let req = Request {
        id: 0xbeef,
        flags: 0x0100,
        question: sample_question(),
        edns: Some(OptRecord {
            payload_size: 4096,
            extended_flags: 0,
            options: vec![EdnsOption::ClientSubnet(CSUBNET {
                address: IpAddress::V4([192, 0, 2, 1]),
            })],
        }),
    };
    let bytes = req.to_bytes().unwrap();
    let decoded = Response::from_bytes(&bytes).unwrap();
    assert_eq!(decoded.id, 0xbeef);
    assert_eq!(decoded.flags, 0x0100);
    assert_eq!(decoded.questions, vec![sample_question()]);
    assert!(decoded.answers.is_empty());
    assert!(decoded.authorities.is_empty());
    assert_eq!(decoded.additionals.len(), 1);
    let opt = &decoded.additionals[0];
    assert_eq!(opt.name, Vec::<Vec<u8>>::new());
    assert_eq!(opt.rtype, 41);
    assert_eq!(opt.rclass, 4096);
    assert_eq!(opt.ttl, 0);
    let cs = CSUBNET { address: IpAddress::V4([192, 0, 2, 1]) };
    assert_eq!(opt.rdata, cs.to_bytes().unwrap());
}

#[test]
fn csubnet_ipv4_encoding() {
    let cs = CSUBNET { address: IpAddress::V4([192, 0, 2, 1]) };
    let bytes = cs.to_bytes().unwrap();
    assert_eq!(
        bytes,
        vec![0x00, 0x08, 0x00, 0x08, 0x00, 0x01, 0x20, 0x00, 0xC0, 0x00, 0x02, 0x01]
    );
}

#[test]
fn csubnet_ipv6_encoding() {
    let octets: [u8; 16] = [0x20, 0x01, 0x0d, 0xb8, 0, 0, 0, 0, 0, 0, 0, 0, 0, 0, 0, 0x42];
    let cs = CSUBNET { address: IpAddress::V6(octets) };
    let bytes = cs.to_bytes().unwrap();
    assert_eq!(bytes.len(), 24);
    assert_eq!(&bytes[0..2], &[0x00, 0x08]); // option code
    assert_eq!(&bytes[2..4], &[0x00, 0x14]); // length 20
    assert_eq!(&bytes[4..6], &[0x00, 0x02]); // family 2
    assert_eq!(bytes[6], 128); // source prefix
    assert_eq!(bytes[7], 0); // scope prefix
    assert_eq!(&bytes[8..24], &octets);
}

#[test]
fn truncated_buffer_is_rejected() {
    let bytes = sample_response().to_bytes().unwrap();
    for cut in 0..bytes.len() {
        let shorter = &bytes[..cut];
        assert_eq!(
            Response::from_bytes(shorter),
            Err(Error::ProtocolParseError),
            "a buffer cut to {cut} bytes must be rejected"
        );
    }
}

#[test]
fn record_length_overrun_is_rejected() {
    // A header declaring one answer whose RDATA length points past the end.
    let bytes: Vec<u8> = vec![
        0, 1, 0, 0, 0, 0, 0, 1, 0, 0, 0, 0, // header: an = 1
        0, // root name
        0, 1, 0, 1, 0, 0, 0, 0, // type, class, ttl
        0, 4, // declared RDATA length 4 ...
        1, 2, // ... but only 2 bytes follow
    ];
    assert_eq!(Response::from_bytes(&bytes), Err(Error::ProtocolParseError));
}

#[test]
fn compression_pointer_is_rejected() {
    let bytes: Vec<u8> = vec![
        0, 1, 0, 0, 0, 1, 0, 0, 0, 0, 0, 0, // header: qd = 1
        0xC0, 0x0C, // a compression pointer instead of labels
        0, 1, 0, 1, // type, class
    ];
    assert_eq!(Response::from_bytes(&bytes), Err(Error::ProtocolParseError));
}

#[test]
fn trailing_bytes_are_rejected() {
    let mut bytes = sample_response().to_bytes().unwrap();
    bytes.push(0);
    assert_eq!(Response::from_bytes(&bytes), Err(Error::ProtocolParseError));
}

#[test]
fn count_beyond_buffer_is_rejected() {
    // Header claims 3 questions but carries none.
    let bytes: Vec<u8> = vec![0, 1, 0, 0, 0, 3, 0, 0, 0, 0, 0, 0];
    assert_eq!(Response::from_bytes(&bytes), Err(Error::ProtocolParseError));
}

#[test]
fn overlong_label_fails_encoding() {
    let req = Request {
        id: 1,
        flags: 0,
        question: Question { name: vec![vec![b'a'; 64]], qtype: 1, qclass: 1 },
        edns: None,
    };
    assert_eq!(req.to_bytes(), Err(Error::EncodingError));
}

#[test]
fn empty_label_fails_encoding() {
    let resp = Response {
        id: 1,
        flags: 0,
        questions: vec![Question { name: vec![vec![]], qtype: 1, qclass: 1 }],
        answers: vec![],
        authorities: vec![],
        additionals: vec![],
    };
    assert_eq!(resp.to_bytes(), Err(Error::EncodingError));
}

#[test]
fn oversized_rdata_fails_encoding() {
    let resp = Response {
        id: 1,
        flags: 0,
        questions: vec![],
        answers: vec![Record {
            name: vec![],
            rtype: 16,
            rclass: 1,
            ttl: 0,
            rdata: vec![0; 0x10000],
        }],
        authorities: vec![],
        additionals: vec![],
    };
    assert_eq!(resp.to_bytes(), Err(Error::EncodingError));
}

#[test]
fn options_decode_back_to_codes_and_payloads() {
    let options = vec![
        EdnsOption::ClientSubnet(CSUBNET { address: IpAddress::V4([192, 0, 2, 1]) }),
        EdnsOption::Other(10, vec![1, 2, 3, 4, 5, 6, 7, 8]),
    ];
    let rdata = dnscore::request::encode_options(&options).unwrap();
    let pairs = dnscore::request::decode_options(&rdata).unwrap();
    assert_eq!(
        pairs,
        vec![
            (8u16, vec![0x00, 0x01, 0x20, 0x00, 0xC0, 0x00, 0x02, 0x01]),
            (10u16, vec![1, 2, 3, 4, 5, 6, 7, 8]),
        ]
    );
}

#[test]
fn oversized_option_payload_fails_encoding() {
    let req = Request {
        id: 1,
        flags: 0,
        question: sample_question(),
        edns: Some(OptRecord {
            payload_size: 512,
            extended_flags: 0,
            options: vec![EdnsOption::Other(10, vec![0; 0x10000])],
        }),
    };
    assert_eq!(req.to_bytes(), Err(Error::EncodingError));
}

#[test]
fn option_length_overrun_is_rejected() {
    // Option code 8 declares a 5-byte payload but only 2 bytes follow.
    let rdata = vec![0x00, 0x08, 0x00, 0x05, 1, 2];
    assert_eq!(
        dnscore::request::decode_options(&rdata),
        Err(Error::ProtocolParseError)
    );
    // A dangling partial option header is rejected too.
    let rdata = vec![0x00, 0x08, 0x00];
    assert_eq!(
        dnscore::request::decode_options(&rdata),
        Err(Error::ProtocolParseError)
    );
}

#[test]
fn truncation_flag_and_rcode_getters() {
    let mut resp = sample_response();
    resp.flags = 0x8200;
    assert!(resp.is_truncated());
    assert_eq!(resp.rcode(), 0);
    resp.flags = 0x8183;
    assert!(!resp.is_truncated());
    assert_eq!(resp.rcode(), 3);
}
