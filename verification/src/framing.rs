//! The 2-byte big-endian length-prefix framing used by the TCP and TLS
//! transports: a message is sent as its length followed by its bytes.

use vstd::prelude::*;

use crate::errors::Error;
use crate::wire::{enc_u16, push_u16, u16_of};

verus! {

/// A framed message: its length as two big-endian bytes, then the message.
pub open spec fn framed(msg: Seq<u8>) -> Seq<u8> {
    enc_u16(msg.len() as u16) + msg
}

/// The length a frame's prefix declares.
pub open spec fn declared_len(buf: Seq<u8>) -> int {
    u16_of(buf[0], buf[1]) as int
}

/// The message a received buffer frames: the declared number of bytes after
/// the prefix. `None` when the buffer is shorter than the prefix or than
/// the length the prefix declares.
pub open spec fn unframed(buf: Seq<u8>) -> Option<Seq<u8>> {
    if buf.len() >= 2 && 2 + declared_len(buf) <= buf.len() {
        Some(buf.subrange(2, 2 + declared_len(buf)))
    } else {
        None
    }
}

/// Frames a message for a stream transport. Fails with `EncodingError`
/// exactly when the message is longer than the 16-bit prefix can declare.
pub fn frame_message(msg: &Vec<u8>) -> (r: Result<Vec<u8>, Error>)
    ensures
        msg@.len() <= 0xffff ==> (r matches Ok(b) && b@ == framed(msg@)),
        msg@.len() > 0xffff ==> r == Err::<Vec<u8>, Error>(Error::EncodingError),
{
    if msg.len() > 0xffff {
        return Err(Error::EncodingError);
    }
    let mut out: Vec<u8> = Vec::new();
    push_u16(&mut out, msg.len() as u16);
    out.extend_from_slice(msg.as_slice());
    proof {
        assert(out@ =~= framed(msg@));
    }
    Ok(out)
}

/// Extracts the framed message from the bytes a stream delivered. When the
/// declared length exceeds what arrived before the stream ended, the call
/// fails with an `Io` error and no partial message is returned.
pub fn unframe_message(buf: &Vec<u8>) -> (r: Result<Vec<u8>, Error>)
    ensures
        match unframed(buf@) {
            Some(m) => r matches Ok(v) && v@ == m,
            None => r matches Err(e) && e is Io,
        },
{
    if buf.len() < 2 {
        return Err(Error::Io("stream ended before the length prefix".to_string()));
    }
    let declared = crate::wire::read_u16(buf.as_slice(), 0) as usize;
    if declared > buf.len() - 2 {
        return Err(Error::Io("stream ended before the declared message length".to_string()));
    }
    let mut msg: Vec<u8> = Vec::new();
    let mut k: usize = 0;
    proof {
        assert(msg@ =~= buf@.subrange(2, 2));
    }
    while k < declared
        invariant
            buf@.len() <= usize::MAX,
            2 + declared as int <= buf@.len(),
            k <= declared,
            msg@ == buf@.subrange(2, 2 + k as int),
        decreases declared - k,
    {
        msg.push(buf[2 + k]);
        proof {
            assert(msg@ =~= buf@.subrange(2, 2 + k as int + 1));
        }
        k += 1;
    }
    proof {
        assert(msg@ =~= unframed(buf@)->Some_0);
    }
    Ok(msg)
}

/// Framing round trip: what a stream peer receives unframes to the message
/// that was framed.
pub proof fn lemma_frame_round_trip(msg: Seq<u8>)
    requires
        msg.len() <= 0xffff,
    ensures
        unframed(framed(msg)) == Some(msg),
{
    let buf = framed(msg);
    assert(buf.subrange(0, 2) =~= enc_u16(msg.len() as u16));
    crate::message::lemma_u16_at(buf, 0, msg.len() as u16);
    assert(declared_len(buf) == msg.len());
    assert(buf.subrange(2, 2 + msg.len() as int) =~= msg);
}

} // verus!
