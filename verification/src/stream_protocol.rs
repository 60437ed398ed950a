//! The request/response protocol on one stream: a tag byte, a four-byte
//! big-endian length, and the body.  A response of length `0xFFFFFFFF`
//! carries no body and marks the end of the exchange.

use vstd::prelude::*;

use crate::codec::{ChatMessage, DecodeError};
use crate::wire::append_bytes;

verus! {

pub const REQUEST_FRAME: u8 = 1;

pub const RESPONSE_FRAME: u8 = 2;

/// The length marking an end-of-exchange response.
pub const EOF_LENGTH: u32 = 0xFFFF_FFFF;

/// The largest body a frame may carry; the EOF sentinel lies far above it.
pub const MAX_BODY_LENGTH: u32 = 0x0100_0000;

/// How a value is carried on a stream.
pub trait MessageEncoding: Sized {
    /// The encoded bytes of `self`.
    fn encode_message(&self) -> Vec<u8>;

    /// The value `bytes` encodes, when it is an encoding.
    fn decode_message(bytes: &Vec<u8>) -> Result<Self, DecodeError>;
}

impl MessageEncoding for ChatMessage {
    fn encode_message(&self) -> Vec<u8> {
        self.encode()
    }

    fn decode_message(bytes: &Vec<u8>) -> Result<ChatMessage, DecodeError> {
        match ChatMessage::decode(bytes) {
            Some(m) => Ok(m),
            None => Err(DecodeError),
        }
    }
}

/// A 32-bit length, big endian.
pub open spec fn spec_be32(n: u32) -> Seq<u8> {
    seq![
        (n / 0x100_0000) as u8,
        ((n / 0x1_0000) % 256) as u8,
        ((n / 256) % 256) as u8,
        (n % 256) as u8,
    ]
}

/// One protocol frame: tag, length, body.
pub open spec fn spec_frame(tag: u8, body: Seq<u8>) -> Seq<u8> {
    seq![tag] + spec_be32(body.len() as u32) + body
}

/// The end-of-exchange frame.
pub open spec fn spec_eof_frame() -> Seq<u8> {
    seq![RESPONSE_FRAME] + spec_be32(EOF_LENGTH)
}

/// Appends the big-endian bytes of `n` to `out`.
pub fn write_be32(out: &mut Vec<u8>, n: u32)
    ensures
        final(out)@ == old(out)@ + spec_be32(n),
{
    let ghost pre = out@;
    out.push((n / 0x100_0000) as u8);
    out.push(((n / 0x1_0000) % 256) as u8);
    out.push(((n / 256) % 256) as u8);
    out.push((n % 256) as u8);
    proof {
        assert(out@ =~= pre + spec_be32(n));
    }
}

/// The value of four big-endian bytes.
pub fn read_be32(b0: u8, b1: u8, b2: u8, b3: u8) -> (r: u32)
    ensures
        spec_be32(r) == seq![b0, b1, b2, b3],
{
    let r = (b0 as u32) * 0x100_0000 + (b1 as u32) * 0x1_0000 + (b2 as u32) * 256 + (b3 as u32);
    proof {
        assert(r / 0x100_0000 == b0 && (r / 0x1_0000) % 256 == b1 && (r / 256) % 256 == b2 && r
            % 256 == b3) by (nonlinear_arith)
            requires
                r == (b0 as u32) * 0x100_0000 + (b1 as u32) * 0x1_0000 + (b2 as u32) * 256 + (
                b3 as u32),
                b0 < 256 && b1 < 256 && b2 < 256 && b3 < 256,
        ;
        assert(spec_be32(r) =~= seq![b0, b1, b2, b3]);
    }
    r
}

/// One whole frame carrying `body` under `tag`.
pub fn build_frame(tag: u8, body: &Vec<u8>) -> (r: Vec<u8>)
    requires
        body@.len() <= MAX_BODY_LENGTH,
    ensures
        r@ == spec_frame(tag, body@),
{
    let mut r: Vec<u8> = Vec::new();
    r.push(tag);
    write_be32(&mut r, body.len() as u32);
    append_bytes(&mut r, body);
    proof {
        assert(r@ =~= spec_frame(tag, body@));
    }
    r
}

/// A whole request frame.
pub fn frame_request(body: &Vec<u8>) -> (r: Vec<u8>)
    requires
        body@.len() <= MAX_BODY_LENGTH,
    ensures
        r@ == spec_frame(REQUEST_FRAME, body@),
{
    build_frame(REQUEST_FRAME, body)
}

/// A whole response frame.
pub fn frame_response(body: &Vec<u8>) -> (r: Vec<u8>)
    requires
        body@.len() <= MAX_BODY_LENGTH,
    ensures
        r@ == spec_frame(RESPONSE_FRAME, body@),
{
    build_frame(RESPONSE_FRAME, body)
}

/// The end-of-exchange frame, as bytes.
pub fn eof_frame() -> (r: Vec<u8>)
    ensures
        r@ == spec_eof_frame(),
{
    let mut r: Vec<u8> = Vec::new();
    r.push(RESPONSE_FRAME);
    write_be32(&mut r, EOF_LENGTH);
    proof {
        assert(r@ =~= spec_eof_frame());
    }
    r
}

/// What a five-byte frame header announces.
pub enum FrameHeader {
    /// A request body of this many bytes follows.
    Request(u32),
    /// A response body of this many bytes follows.
    Response(u32),
    /// The exchange is over; no body follows.
    ResponseEof,
}

/// Reads a five-byte frame header.  An unknown tag, an oversized body, or a
/// request under the reserved length is refused.
pub fn parse_header(h: &Vec<u8>) -> (r: Option<FrameHeader>)
    requires
        h@.len() == 5,
    ensures
        (r matches Some(fh) ==> match fh {
            FrameHeader::Request(n) => h@ == seq![REQUEST_FRAME] + spec_be32(n) && n
                <= MAX_BODY_LENGTH,
            FrameHeader::Response(n) => h@ == seq![RESPONSE_FRAME] + spec_be32(n) && n
                <= MAX_BODY_LENGTH,
            FrameHeader::ResponseEof => h@ == spec_eof_frame(),
        }),
        (forall|body: Seq<u8>|
            body.len() <= MAX_BODY_LENGTH && h@ == #[trigger] spec_frame(REQUEST_FRAME, body).take(
                5,
            ) ==> (r matches Some(fh) && (fh matches FrameHeader::Request(n) && n
                == body.len()))),
        (forall|body: Seq<u8>|
            body.len() <= MAX_BODY_LENGTH && h@ == #[trigger] spec_frame(
                RESPONSE_FRAME,
                body,
            ).take(5) ==> (r matches Some(fh) && (fh matches FrameHeader::Response(n) && n
                == body.len()))),
        (h@ == spec_eof_frame() ==> (r matches Some(fh) && fh is ResponseEof)),
{
    let tag = h[0];
    let n = read_be32(h[1], h[2], h[3], h[4]);
    proof {
        assert(h@ =~= seq![h@[0]] + seq![h@[1], h@[2], h@[3], h@[4]]);
        assert forall|m: u32| spec_be32(m) == seq![h@[1], h@[2], h@[3], h@[4]] implies m == n by {
            assert(spec_be32(m)[0] == spec_be32(n)[0] && spec_be32(m)[1] == spec_be32(n)[1]
                && spec_be32(m)[2] == spec_be32(n)[2] && spec_be32(m)[3] == spec_be32(n)[3]);
            lemma_be32_injective(m, n);
        }
        assert forall|body: Seq<u8>|
            body.len() <= MAX_BODY_LENGTH && h@ == #[trigger] spec_frame(REQUEST_FRAME, body).take(
                5,
            ) implies h@[0] == REQUEST_FRAME && seq![h@[1], h@[2], h@[3], h@[4]] == spec_be32(
            body.len() as u32,
        ) by {
            assert(spec_frame(REQUEST_FRAME, body).take(5) =~= seq![REQUEST_FRAME] + spec_be32(
                body.len() as u32,
            ));
            assert(h@[0] == (seq![REQUEST_FRAME] + spec_be32(body.len() as u32))[0]);
            assert(seq![h@[1], h@[2], h@[3], h@[4]] =~= spec_be32(body.len() as u32));
        }
        assert forall|body: Seq<u8>|
            body.len() <= MAX_BODY_LENGTH && h@ == #[trigger] spec_frame(
                RESPONSE_FRAME,
                body,
            ).take(5) implies h@[0] == RESPONSE_FRAME && seq![h@[1], h@[2], h@[3], h@[4]]
            == spec_be32(body.len() as u32) by {
            assert(spec_frame(RESPONSE_FRAME, body).take(5) =~= seq![RESPONSE_FRAME] + spec_be32(
                body.len() as u32,
            ));
            assert(h@[0] == (seq![RESPONSE_FRAME] + spec_be32(body.len() as u32))[0]);
            assert(seq![h@[1], h@[2], h@[3], h@[4]] =~= spec_be32(body.len() as u32));
        }
        assert(spec_eof_frame().len() == 5);
        if h@ == spec_eof_frame() {
            assert(h@[0] == spec_eof_frame()[0]);
            assert(seq![h@[1], h@[2], h@[3], h@[4]] =~= spec_be32(EOF_LENGTH));
            lemma_be32_injective(EOF_LENGTH, n);
        }
    }
    if tag == RESPONSE_FRAME && n == EOF_LENGTH {
        proof {
            assert(h@ =~= spec_eof_frame());
        }
        return Some(FrameHeader::ResponseEof);
    }
    if n > MAX_BODY_LENGTH {
        return None;
    }
    if tag == REQUEST_FRAME {
        return Some(FrameHeader::Request(n));
    }
    if tag == RESPONSE_FRAME {
        return Some(FrameHeader::Response(n));
    }
    None
}

/// Equal big-endian bytes mean equal values.
proof fn lemma_be32_injective(a: u32, b: u32)
    requires
        spec_be32(a) == spec_be32(b),
    ensures
        a == b,
{
    assert(spec_be32(a)[0] == spec_be32(b)[0]);
    assert(spec_be32(a)[1] == spec_be32(b)[1]);
    assert(spec_be32(a)[2] == spec_be32(b)[2]);
    assert(spec_be32(a)[3] == spec_be32(b)[3]);
    assert(a == b) by (nonlinear_arith)
        requires
            a / 0x100_0000 == b / 0x100_0000,
            (a / 0x1_0000) % 256 == (b / 0x1_0000) % 256,
            (a / 256) % 256 == (b / 256) % 256,
            a % 256 == b % 256,
            a < 0x1_0000_0000 && b < 0x1_0000_0000,
    ;
}

} // verus!
