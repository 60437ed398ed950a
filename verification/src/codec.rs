//! The wire codec: every RPC body is a `ChatMessage` envelope holding
//! exactly one variant, encoded in the Protobuf wire format.  Each decoder
//! accepts precisely the encodings its encoder emits, so decoding an encoded
//! envelope always returns the same value.

use vstd::prelude::*;

use crate::models::{views_of, DbMessage, DbMessageView};
use crate::wire::{
    is_prefix_of, lemma_range_split, read_bytes_field, read_field_extent, read_str_field,
    read_varint_field, spec_bytes_field, spec_str_field, spec_varint_field, write_bytes_field,
    write_str_field, write_varint_field,
};

verus! {

// Field keys of the log-entry message: field number shifted left by three,
// plus wire type 0 (varint) or 2 (length-delimited).
pub const TAG_MSG_ID: u8 = 10;

pub const TAG_MSG_COUNTER: u8 = 16;

pub const TAG_MSG_TIMESTAMP: u8 = 24;

pub const TAG_MSG_ORDER: u8 = 32;

pub const TAG_MSG_PAYLOAD: u8 = 42;

pub const TAG_MSG_PEER_ID: u8 = 50;

/// The encoding of one log entry.
pub open spec fn spec_enc_message(v: DbMessageView) -> Seq<u8> {
    spec_str_field(TAG_MSG_ID, v.id) + spec_varint_field(TAG_MSG_COUNTER, v.counter)
        + spec_varint_field(TAG_MSG_TIMESTAMP, v.timestamp as u64) + spec_varint_field(
        TAG_MSG_ORDER,
        v.order,
    ) + spec_bytes_field(TAG_MSG_PAYLOAD, v.payload) + spec_str_field(TAG_MSG_PEER_ID, v.peer_id)
}

/// Appends the encoding of `m` to `out`.
pub fn encode_message_into(m: &DbMessage, out: &mut Vec<u8>)
    ensures
        final(out)@ == old(out)@ + spec_enc_message(m@),
{
    write_str_field(out, TAG_MSG_ID, &m.id);
    write_varint_field(out, TAG_MSG_COUNTER, m.counter);
    write_varint_field(out, TAG_MSG_TIMESTAMP, m.timestamp as u64);
    write_varint_field(out, TAG_MSG_ORDER, m.order);
    write_bytes_field(out, TAG_MSG_PAYLOAD, &m.payload);
    write_str_field(out, TAG_MSG_PEER_ID, &m.peer_id);
    proof {
        assert(out@ =~= old(out)@ + spec_enc_message(m@));
    }
}

/// Where each field of an encoded log entry sits inside `buf[start..end]`.
proof fn lemma_enc_message_split(buf: Seq<u8>, start: int, end: int, v: DbMessageView)
    requires
        0 <= start <= end <= buf.len(),
        buf.subrange(start, end) == spec_enc_message(v),
    ensures
        ({
            let f1 = spec_str_field(TAG_MSG_ID, v.id);
            let f2 = spec_varint_field(TAG_MSG_COUNTER, v.counter);
            let f3 = spec_varint_field(TAG_MSG_TIMESTAMP, v.timestamp as u64);
            let f4 = spec_varint_field(TAG_MSG_ORDER, v.order);
            let f5 = spec_bytes_field(TAG_MSG_PAYLOAD, v.payload);
            let f6 = spec_str_field(TAG_MSG_PEER_ID, v.peer_id);
            &&& is_prefix_of(f1, buf.skip(start))
            &&& is_prefix_of(f2, buf.skip(start + f1.len()))
            &&& is_prefix_of(f3, buf.skip(start + f1.len() + f2.len()))
            &&& is_prefix_of(f4, buf.skip(start + f1.len() + f2.len() + f3.len()))
            &&& is_prefix_of(f5, buf.skip(start + f1.len() + f2.len() + f3.len() + f4.len()))
            &&& is_prefix_of(
                f6,
                buf.skip(start + f1.len() + f2.len() + f3.len() + f4.len() + f5.len()),
            )
            &&& start + f1.len() + f2.len() + f3.len() + f4.len() + f5.len() + f6.len() == end
        }),
{
    let f1 = spec_str_field(TAG_MSG_ID, v.id);
    let f2 = spec_varint_field(TAG_MSG_COUNTER, v.counter);
    let f3 = spec_varint_field(TAG_MSG_TIMESTAMP, v.timestamp as u64);
    let f4 = spec_varint_field(TAG_MSG_ORDER, v.order);
    let f5 = spec_bytes_field(TAG_MSG_PAYLOAD, v.payload);
    let f6 = spec_str_field(TAG_MSG_PEER_ID, v.peer_id);
    assert(spec_enc_message(v) =~= f1 + (f2 + (f3 + (f4 + (f5 + f6)))));
    lemma_range_split(buf, start, end, f1, f2 + (f3 + (f4 + (f5 + f6))));
    lemma_range_split(buf, start + f1.len(), end, f2, f3 + (f4 + (f5 + f6)));
    lemma_range_split(buf, start + f1.len() + f2.len(), end, f3, f4 + (f5 + f6));
    lemma_range_split(buf, start + f1.len() + f2.len() + f3.len(), end, f4, f5 + f6);
    lemma_range_split(buf, start + f1.len() + f2.len() + f3.len() + f4.len(), end, f5, f6);
}

/// Casting a 64-bit integer to unsigned and back returns the same value.
#[verifier::rlimit(60)]
proof fn lemma_i64_cast(x: i64)
    ensures
        (x as u64) as i64 == x,
{
    assert((x as u64) as i64 == x) by (bit_vector);
}

/// Casting an unsigned 64-bit integer to signed and back returns the same
/// value.
#[verifier::rlimit(60)]
proof fn lemma_u64_cast(n: u64)
    ensures
        (n as i64) as u64 == n,
{
    assert((n as i64) as u64 == n) by (bit_vector);
}

/// Decodes one log entry from exactly `buf[start..end]`.
#[verifier::rlimit(100)]
#[verifier::spinoff_prover]
pub fn decode_message_range(buf: &Vec<u8>, start: usize, end: usize) -> (r: Option<DbMessage>)
    requires
        start <= end <= buf@.len(),
    ensures
        (r matches Some(x) ==> buf@.subrange(start as int, end as int) == spec_enc_message(x@)),
        (forall|v: DbMessageView|
            buf@.subrange(start as int, end as int) == #[trigger] spec_enc_message(v) ==> (
            r matches Some(x) && x@ == v)),
{
    let ghost gbuf = buf@;
    let ghost gs = start as int;
    let ghost ge = end as int;
    let r1 = read_str_field(buf, start, TAG_MSG_ID);
    proof {
        assert forall|v: DbMessageView|
            gbuf.subrange(gs, ge) == #[trigger] spec_enc_message(v) implies is_prefix_of(
            spec_str_field(TAG_MSG_ID, v.id),
            gbuf.skip(gs),
        ) by {
            lemma_enc_message_split(gbuf, gs, ge, v);
        }
    }
    let (id, p1) = match r1 {
        None => {
            return None;
        },
        Some(p) => p,
    };
    if p1 > end {
        proof {
            assert forall|v: DbMessageView|
                gbuf.subrange(gs, ge) != #[trigger] spec_enc_message(v) by {
                if gbuf.subrange(gs, ge) == spec_enc_message(v) {
                    lemma_enc_message_split(gbuf, gs, ge, v);
                }
            }
        }
        return None;
    }
    let r2 = read_varint_field(buf, p1, TAG_MSG_COUNTER);
    proof {
        assert forall|v: DbMessageView|
            gbuf.subrange(gs, ge) == #[trigger] spec_enc_message(v) implies is_prefix_of(
            spec_varint_field(TAG_MSG_COUNTER, v.counter),
            gbuf.skip(p1 as int),
        ) by {
            lemma_enc_message_split(gbuf, gs, ge, v);
        }
    }
    let (counter, p2) = match r2 {
        None => {
            return None;
        },
        Some(p) => p,
    };
    if p2 > end {
        proof {
            assert forall|v: DbMessageView|
                gbuf.subrange(gs, ge) != #[trigger] spec_enc_message(v) by {
                if gbuf.subrange(gs, ge) == spec_enc_message(v) {
                    lemma_enc_message_split(gbuf, gs, ge, v);
                }
            }
        }
        return None;
    }
    let r3 = read_varint_field(buf, p2, TAG_MSG_TIMESTAMP);
    proof {
        assert forall|v: DbMessageView|
            gbuf.subrange(gs, ge) == #[trigger] spec_enc_message(v) implies is_prefix_of(
            spec_varint_field(TAG_MSG_TIMESTAMP, v.timestamp as u64),
            gbuf.skip(p2 as int),
        ) by {
            lemma_enc_message_split(gbuf, gs, ge, v);
        }
    }
    let (ts, p3) = match r3 {
        None => {
            return None;
        },
        Some(p) => p,
    };
    if p3 > end {
        proof {
            assert forall|v: DbMessageView|
                gbuf.subrange(gs, ge) != #[trigger] spec_enc_message(v) by {
                if gbuf.subrange(gs, ge) == spec_enc_message(v) {
                    lemma_enc_message_split(gbuf, gs, ge, v);
                }
            }
        }
        return None;
    }
    let r4 = read_varint_field(buf, p3, TAG_MSG_ORDER);
    proof {
        assert forall|v: DbMessageView|
            gbuf.subrange(gs, ge) == #[trigger] spec_enc_message(v) implies is_prefix_of(
            spec_varint_field(TAG_MSG_ORDER, v.order),
            gbuf.skip(p3 as int),
        ) by {
            lemma_enc_message_split(gbuf, gs, ge, v);
        }
    }
    let (order, p4) = match r4 {
        None => {
            return None;
        },
        Some(p) => p,
    };
    if p4 > end {
        proof {
            assert forall|v: DbMessageView|
                gbuf.subrange(gs, ge) != #[trigger] spec_enc_message(v) by {
                if gbuf.subrange(gs, ge) == spec_enc_message(v) {
                    lemma_enc_message_split(gbuf, gs, ge, v);
                }
            }
        }
        return None;
    }
    let r5 = read_bytes_field(buf, p4, TAG_MSG_PAYLOAD);
    proof {
        assert forall|v: DbMessageView|
            gbuf.subrange(gs, ge) == #[trigger] spec_enc_message(v) implies is_prefix_of(
            spec_bytes_field(TAG_MSG_PAYLOAD, v.payload),
            gbuf.skip(p4 as int),
        ) by {
            lemma_enc_message_split(gbuf, gs, ge, v);
        }
    }
    let (payload, p5) = match r5 {
        None => {
            return None;
        },
        Some(p) => p,
    };
    if p5 > end {
        proof {
            assert forall|v: DbMessageView|
                gbuf.subrange(gs, ge) != #[trigger] spec_enc_message(v) by {
                if gbuf.subrange(gs, ge) == spec_enc_message(v) {
                    lemma_enc_message_split(gbuf, gs, ge, v);
                }
            }
        }
        return None;
    }
    let r6 = read_str_field(buf, p5, TAG_MSG_PEER_ID);
    proof {
        assert forall|v: DbMessageView|
            gbuf.subrange(gs, ge) == #[trigger] spec_enc_message(v) implies is_prefix_of(
            spec_str_field(TAG_MSG_PEER_ID, v.peer_id),
            gbuf.skip(p5 as int),
        ) by {
            lemma_enc_message_split(gbuf, gs, ge, v);
        }
    }
    let (peer_id, p6) = match r6 {
        None => {
            return None;
        },
        Some(p) => p,
    };
    if p6 != end {
        proof {
            assert forall|v: DbMessageView|
                gbuf.subrange(gs, ge) != #[trigger] spec_enc_message(v) by {
                if gbuf.subrange(gs, ge) == spec_enc_message(v) {
                    lemma_enc_message_split(gbuf, gs, ge, v);
                }
            }
        }
        return None;
    }
    let x = DbMessage { counter, id, order, timestamp: ts as i64, payload, peer_id };
    proof {
        lemma_u64_cast(ts);
        assert(gbuf.subrange(gs, ge) =~= gbuf.subrange(gs, p1 as int) + gbuf.subrange(
            p1 as int,
            p2 as int,
        ) + gbuf.subrange(p2 as int, p3 as int) + gbuf.subrange(p3 as int, p4 as int)
            + gbuf.subrange(p4 as int, p5 as int) + gbuf.subrange(p5 as int, p6 as int));
        assert(x.timestamp as u64 == ts);
        assert(gbuf.subrange(gs, ge) == spec_enc_message(x@));
        assert forall|v: DbMessageView|
            gbuf.subrange(gs, ge) == #[trigger] spec_enc_message(v) implies x@ == v by {
            lemma_enc_message_split(gbuf, gs, ge, v);
            lemma_i64_cast(v.timestamp);
        }
    }
    Some(x)
}

pub const TAG_PEERRECORD_ID: u8 = 10;

pub const TAG_PEERRECORD_NAME: u8 = 18;

pub const TAG_PEERRECORD_PUB_KEY: u8 = 26;

/// An identity record.
#[derive(Debug, Clone)]
pub struct PeerRecord {
    pub id: String,
    pub name: String,
    pub pub_key: String,
}

/// Mathematical content of an identity record.
pub struct PeerRecordView {
    pub id: Seq<char>,
    pub name: Seq<char>,
    pub pub_key: Seq<char>,
}

impl View for PeerRecord {
    type V = PeerRecordView;

    open spec fn view(&self) -> PeerRecordView {
        PeerRecordView {
            id: self.id@,
            name: self.name@,
            pub_key: self.pub_key@,
        }
    }
}

/// The encoding of an identity record.
pub open spec fn spec_enc_peer(v: PeerRecordView) -> Seq<u8> {
    spec_str_field(TAG_PEERRECORD_ID, v.id) + spec_str_field(TAG_PEERRECORD_NAME, v.name) + spec_str_field(TAG_PEERRECORD_PUB_KEY, v.pub_key)
}

/// Appends the encoding of `m` to `out`.
pub fn encode_peer_into(m: &PeerRecord, out: &mut Vec<u8>)
    ensures
        final(out)@ == old(out)@ + spec_enc_peer(m@),
{
    write_str_field(out, TAG_PEERRECORD_ID, &m.id);
    write_str_field(out, TAG_PEERRECORD_NAME, &m.name);
    write_str_field(out, TAG_PEERRECORD_PUB_KEY, &m.pub_key);
    proof {
        assert(out@ =~= old(out)@ + spec_enc_peer(m@));
    }
}

/// Where each field of an identity record sits inside `buf[start..end]`.
proof fn lemma_enc_peer_split(buf: Seq<u8>, start: int, end: int, v: PeerRecordView)
    requires
        0 <= start <= end <= buf.len(),
        buf.subrange(start, end) == spec_enc_peer(v),
    ensures
        ({
            let f1 = spec_str_field(TAG_PEERRECORD_ID, v.id);
            let f2 = spec_str_field(TAG_PEERRECORD_NAME, v.name);
            let f3 = spec_str_field(TAG_PEERRECORD_PUB_KEY, v.pub_key);
            &&& is_prefix_of(f1, buf.skip(start))
            &&& is_prefix_of(f2, buf.skip(start + f1.len()))
            &&& is_prefix_of(f3, buf.skip(start + f1.len() + f2.len()))
            &&& start + f1.len() + f2.len() + f3.len() == end
        }),
{
    let f1 = spec_str_field(TAG_PEERRECORD_ID, v.id);
    let f2 = spec_str_field(TAG_PEERRECORD_NAME, v.name);
    let f3 = spec_str_field(TAG_PEERRECORD_PUB_KEY, v.pub_key);
    assert(spec_enc_peer(v) =~= f1 + (f2 + (f3)));
    lemma_range_split(buf, start, end, f1, f2 + (f3));
    lemma_range_split(buf, start + f1.len(), end, f2, f3);
}

/// Decodes an identity record from exactly `buf[start..end]`.
#[verifier::rlimit(100)]
#[verifier::spinoff_prover]
pub fn decode_peer_range(buf: &Vec<u8>, start: usize, end: usize) -> (r: Option<PeerRecord>)
    requires
        start <= end <= buf@.len(),
    ensures
        (r matches Some(x) ==> buf@.subrange(start as int, end as int) == spec_enc_peer(x@)),
        (forall|v: PeerRecordView|
            buf@.subrange(start as int, end as int) == #[trigger] spec_enc_peer(v) ==> (
            r matches Some(x) && x@ == v)),
{
    let ghost gbuf = buf@;
    let ghost gs = start as int;
    let ghost ge = end as int;
    let r1 = read_str_field(buf, start, TAG_PEERRECORD_ID);
    proof {
        assert forall|v: PeerRecordView|
            gbuf.subrange(gs, ge) == #[trigger] spec_enc_peer(v) implies is_prefix_of(
            spec_str_field(TAG_PEERRECORD_ID, v.id),
            gbuf.skip(start as int),
        ) by {
            lemma_enc_peer_split(gbuf, gs, ge, v);
        }
    }
    let (id, p1) = match r1 {
        None => {
        proof {
            assert forall|v: PeerRecordView|
                gbuf.subrange(gs, ge) != #[trigger] spec_enc_peer(v) by {
                if gbuf.subrange(gs, ge) == spec_enc_peer(v) {
                    lemma_enc_peer_split(gbuf, gs, ge, v);
                }
            }
        }
        return None;
        },
        Some(p) => p,
    };
    if p1 > end {
        proof {
            assert forall|v: PeerRecordView|
                gbuf.subrange(gs, ge) != #[trigger] spec_enc_peer(v) by {
                if gbuf.subrange(gs, ge) == spec_enc_peer(v) {
                    lemma_enc_peer_split(gbuf, gs, ge, v);
                }
            }
        }
        return None;
    }
    let r2 = read_str_field(buf, p1, TAG_PEERRECORD_NAME);
    proof {
        assert forall|v: PeerRecordView|
            gbuf.subrange(gs, ge) == #[trigger] spec_enc_peer(v) implies is_prefix_of(
            spec_str_field(TAG_PEERRECORD_NAME, v.name),
            gbuf.skip(p1 as int),
        ) by {
            lemma_enc_peer_split(gbuf, gs, ge, v);
        }
    }
    let (name, p2) = match r2 {
        None => {
        proof {
            assert forall|v: PeerRecordView|
                gbuf.subrange(gs, ge) != #[trigger] spec_enc_peer(v) by {
                if gbuf.subrange(gs, ge) == spec_enc_peer(v) {
                    lemma_enc_peer_split(gbuf, gs, ge, v);
                }
            }
        }
        return None;
        },
        Some(p) => p,
    };
    if p2 > end {
        proof {
            assert forall|v: PeerRecordView|
                gbuf.subrange(gs, ge) != #[trigger] spec_enc_peer(v) by {
                if gbuf.subrange(gs, ge) == spec_enc_peer(v) {
                    lemma_enc_peer_split(gbuf, gs, ge, v);
                }
            }
        }
        return None;
    }
    let r3 = read_str_field(buf, p2, TAG_PEERRECORD_PUB_KEY);
    proof {
        assert forall|v: PeerRecordView|
            gbuf.subrange(gs, ge) == #[trigger] spec_enc_peer(v) implies is_prefix_of(
            spec_str_field(TAG_PEERRECORD_PUB_KEY, v.pub_key),
            gbuf.skip(p2 as int),
        ) by {
            lemma_enc_peer_split(gbuf, gs, ge, v);
        }
    }
    let (pub_key, p3) = match r3 {
        None => {
        proof {
            assert forall|v: PeerRecordView|
                gbuf.subrange(gs, ge) != #[trigger] spec_enc_peer(v) by {
                if gbuf.subrange(gs, ge) == spec_enc_peer(v) {
                    lemma_enc_peer_split(gbuf, gs, ge, v);
                }
            }
        }
        return None;
        },
        Some(p) => p,
    };
    if p3 != end {
        proof {
            assert forall|v: PeerRecordView|
                gbuf.subrange(gs, ge) != #[trigger] spec_enc_peer(v) by {
                if gbuf.subrange(gs, ge) == spec_enc_peer(v) {
                    lemma_enc_peer_split(gbuf, gs, ge, v);
                }
            }
        }
        return None;
    }
    let x = PeerRecord { id, name, pub_key };
    proof {
        assert(gbuf.subrange(gs, ge) =~= gbuf.subrange(gs, p1 as int) + gbuf.subrange(p1 as int, p2 as int) + gbuf.subrange(p2 as int, p3 as int));
        assert(gbuf.subrange(gs, ge) == spec_enc_peer(x@));
        assert forall|v: PeerRecordView|
            gbuf.subrange(gs, ge) == #[trigger] spec_enc_peer(v) implies x@ == v by {
            lemma_enc_peer_split(gbuf, gs, ge, v);
        }
    }
    Some(x)
}

pub const TAG_COMPAREPAYLOAD_PEER_ID: u8 = 10;

pub const TAG_COMPAREPAYLOAD_COUNTER: u8 = 16;

/// One replication state entry.
#[derive(Debug, Clone)]
pub struct ComparePayload {
    pub peer_id: String,
    pub counter: u64,
}

/// Mathematical content of one replication state entry.
pub struct ComparePayloadView {
    pub peer_id: Seq<char>,
    pub counter: u64,
}

impl View for ComparePayload {
    type V = ComparePayloadView;

    open spec fn view(&self) -> ComparePayloadView {
        ComparePayloadView {
            peer_id: self.peer_id@,
            counter: self.counter,
        }
    }
}

/// The encoding of one replication state entry.
pub open spec fn spec_enc_compare_payload(v: ComparePayloadView) -> Seq<u8> {
    spec_str_field(TAG_COMPAREPAYLOAD_PEER_ID, v.peer_id) + spec_varint_field(TAG_COMPAREPAYLOAD_COUNTER, v.counter)
}

/// Appends the encoding of `m` to `out`.
pub fn encode_compare_payload_into(m: &ComparePayload, out: &mut Vec<u8>)
    ensures
        final(out)@ == old(out)@ + spec_enc_compare_payload(m@),
{
    write_str_field(out, TAG_COMPAREPAYLOAD_PEER_ID, &m.peer_id);
    write_varint_field(out, TAG_COMPAREPAYLOAD_COUNTER, m.counter);
    proof {
        assert(out@ =~= old(out)@ + spec_enc_compare_payload(m@));
    }
}

/// Where each field of one replication state entry sits inside `buf[start..end]`.
proof fn lemma_enc_compare_payload_split(buf: Seq<u8>, start: int, end: int, v: ComparePayloadView)
    requires
        0 <= start <= end <= buf.len(),
        buf.subrange(start, end) == spec_enc_compare_payload(v),
    ensures
        ({
            let f1 = spec_str_field(TAG_COMPAREPAYLOAD_PEER_ID, v.peer_id);
            let f2 = spec_varint_field(TAG_COMPAREPAYLOAD_COUNTER, v.counter);
            &&& is_prefix_of(f1, buf.skip(start))
            &&& is_prefix_of(f2, buf.skip(start + f1.len()))
            &&& start + f1.len() + f2.len() == end
        }),
{
    let f1 = spec_str_field(TAG_COMPAREPAYLOAD_PEER_ID, v.peer_id);
    let f2 = spec_varint_field(TAG_COMPAREPAYLOAD_COUNTER, v.counter);
    assert(spec_enc_compare_payload(v) =~= f1 + (f2));
    lemma_range_split(buf, start, end, f1, f2);
}

/// Decodes one replication state entry from exactly `buf[start..end]`.
#[verifier::rlimit(100)]
#[verifier::spinoff_prover]
pub fn decode_compare_payload_range(buf: &Vec<u8>, start: usize, end: usize) -> (r: Option<ComparePayload>)
    requires
        start <= end <= buf@.len(),
    ensures
        (r matches Some(x) ==> buf@.subrange(start as int, end as int) == spec_enc_compare_payload(x@)),
        (forall|v: ComparePayloadView|
            buf@.subrange(start as int, end as int) == #[trigger] spec_enc_compare_payload(v) ==> (
            r matches Some(x) && x@ == v)),
{
    let ghost gbuf = buf@;
    let ghost gs = start as int;
    let ghost ge = end as int;
    let r1 = read_str_field(buf, start, TAG_COMPAREPAYLOAD_PEER_ID);
    proof {
        assert forall|v: ComparePayloadView|
            gbuf.subrange(gs, ge) == #[trigger] spec_enc_compare_payload(v) implies is_prefix_of(
            spec_str_field(TAG_COMPAREPAYLOAD_PEER_ID, v.peer_id),
            gbuf.skip(start as int),
        ) by {
            lemma_enc_compare_payload_split(gbuf, gs, ge, v);
        }
    }
    let (peer_id, p1) = match r1 {
        None => {
        proof {
            assert forall|v: ComparePayloadView|
                gbuf.subrange(gs, ge) != #[trigger] spec_enc_compare_payload(v) by {
                if gbuf.subrange(gs, ge) == spec_enc_compare_payload(v) {
                    lemma_enc_compare_payload_split(gbuf, gs, ge, v);
                }
            }
        }
        return None;
        },
        Some(p) => p,
    };
    if p1 > end {
        proof {
            assert forall|v: ComparePayloadView|
                gbuf.subrange(gs, ge) != #[trigger] spec_enc_compare_payload(v) by {
                if gbuf.subrange(gs, ge) == spec_enc_compare_payload(v) {
                    lemma_enc_compare_payload_split(gbuf, gs, ge, v);
                }
            }
        }
        return None;
    }
    let r2 = read_varint_field(buf, p1, TAG_COMPAREPAYLOAD_COUNTER);
    proof {
        assert forall|v: ComparePayloadView|
            gbuf.subrange(gs, ge) == #[trigger] spec_enc_compare_payload(v) implies is_prefix_of(
            spec_varint_field(TAG_COMPAREPAYLOAD_COUNTER, v.counter),
            gbuf.skip(p1 as int),
        ) by {
            lemma_enc_compare_payload_split(gbuf, gs, ge, v);
        }
    }
    let (n2, p2) = match r2 {
        None => {
        proof {
            assert forall|v: ComparePayloadView|
                gbuf.subrange(gs, ge) != #[trigger] spec_enc_compare_payload(v) by {
                if gbuf.subrange(gs, ge) == spec_enc_compare_payload(v) {
                    lemma_enc_compare_payload_split(gbuf, gs, ge, v);
                }
            }
        }
        return None;
        },
        Some(p) => p,
    };
    if p2 != end {
        proof {
            assert forall|v: ComparePayloadView|
                gbuf.subrange(gs, ge) != #[trigger] spec_enc_compare_payload(v) by {
                if gbuf.subrange(gs, ge) == spec_enc_compare_payload(v) {
                    lemma_enc_compare_payload_split(gbuf, gs, ge, v);
                }
            }
        }
        return None;
    }
    let x = ComparePayload { peer_id, counter: n2 };
    proof {
        assert(gbuf.subrange(gs, ge) =~= gbuf.subrange(gs, p1 as int) + gbuf.subrange(p1 as int, p2 as int));
        assert(gbuf.subrange(gs, ge) == spec_enc_compare_payload(x@));
        assert forall|v: ComparePayloadView|
            gbuf.subrange(gs, ge) == #[trigger] spec_enc_compare_payload(v) implies x@ == v by {
            lemma_enc_compare_payload_split(gbuf, gs, ge, v);
        }
    }
    Some(x)
}

pub const TAG_BATCHMESSAGEREQUEST_PEER_ID: u8 = 10;

pub const TAG_BATCHMESSAGEREQUEST_MY_COUNTER: u8 = 16;

/// A batch pull request.
#[derive(Debug, Clone)]
pub struct BatchMessageRequest {
    pub peer_id: String,
    pub my_counter: u64,
}

/// Mathematical content of a batch pull request.
pub struct BatchMessageRequestView {
    pub peer_id: Seq<char>,
    pub my_counter: u64,
}

impl View for BatchMessageRequest {
    type V = BatchMessageRequestView;

    open spec fn view(&self) -> BatchMessageRequestView {
        BatchMessageRequestView {
            peer_id: self.peer_id@,
            my_counter: self.my_counter,
        }
    }
}

/// The encoding of a batch pull request.
pub open spec fn spec_enc_batch_request(v: BatchMessageRequestView) -> Seq<u8> {
    spec_str_field(TAG_BATCHMESSAGEREQUEST_PEER_ID, v.peer_id) + spec_varint_field(TAG_BATCHMESSAGEREQUEST_MY_COUNTER, v.my_counter)
}

/// Appends the encoding of `m` to `out`.
pub fn encode_batch_request_into(m: &BatchMessageRequest, out: &mut Vec<u8>)
    ensures
        final(out)@ == old(out)@ + spec_enc_batch_request(m@),
{
    write_str_field(out, TAG_BATCHMESSAGEREQUEST_PEER_ID, &m.peer_id);
    write_varint_field(out, TAG_BATCHMESSAGEREQUEST_MY_COUNTER, m.my_counter);
    proof {
        assert(out@ =~= old(out)@ + spec_enc_batch_request(m@));
    }
}

/// Where each field of a batch pull request sits inside `buf[start..end]`.
proof fn lemma_enc_batch_request_split(buf: Seq<u8>, start: int, end: int, v: BatchMessageRequestView)
    requires
        0 <= start <= end <= buf.len(),
        buf.subrange(start, end) == spec_enc_batch_request(v),
    ensures
        ({
            let f1 = spec_str_field(TAG_BATCHMESSAGEREQUEST_PEER_ID, v.peer_id);
            let f2 = spec_varint_field(TAG_BATCHMESSAGEREQUEST_MY_COUNTER, v.my_counter);
            &&& is_prefix_of(f1, buf.skip(start))
            &&& is_prefix_of(f2, buf.skip(start + f1.len()))
            &&& start + f1.len() + f2.len() == end
        }),
{
    let f1 = spec_str_field(TAG_BATCHMESSAGEREQUEST_PEER_ID, v.peer_id);
    let f2 = spec_varint_field(TAG_BATCHMESSAGEREQUEST_MY_COUNTER, v.my_counter);
    assert(spec_enc_batch_request(v) =~= f1 + (f2));
    lemma_range_split(buf, start, end, f1, f2);
}

/// Decodes a batch pull request from exactly `buf[start..end]`.
#[verifier::rlimit(100)]
#[verifier::spinoff_prover]
pub fn decode_batch_request_range(buf: &Vec<u8>, start: usize, end: usize) -> (r: Option<BatchMessageRequest>)
    requires
        start <= end <= buf@.len(),
    ensures
        (r matches Some(x) ==> buf@.subrange(start as int, end as int) == spec_enc_batch_request(x@)),
        (forall|v: BatchMessageRequestView|
            buf@.subrange(start as int, end as int) == #[trigger] spec_enc_batch_request(v) ==> (
            r matches Some(x) && x@ == v)),
{
    let ghost gbuf = buf@;
    let ghost gs = start as int;
    let ghost ge = end as int;
    let r1 = read_str_field(buf, start, TAG_BATCHMESSAGEREQUEST_PEER_ID);
    proof {
        assert forall|v: BatchMessageRequestView|
            gbuf.subrange(gs, ge) == #[trigger] spec_enc_batch_request(v) implies is_prefix_of(
            spec_str_field(TAG_BATCHMESSAGEREQUEST_PEER_ID, v.peer_id),
            gbuf.skip(start as int),
        ) by {
            lemma_enc_batch_request_split(gbuf, gs, ge, v);
        }
    }
    let (peer_id, p1) = match r1 {
        None => {
        proof {
            assert forall|v: BatchMessageRequestView|
                gbuf.subrange(gs, ge) != #[trigger] spec_enc_batch_request(v) by {
                if gbuf.subrange(gs, ge) == spec_enc_batch_request(v) {
                    lemma_enc_batch_request_split(gbuf, gs, ge, v);
                }
            }
        }
        return None;
        },
        Some(p) => p,
    };
    if p1 > end {
        proof {
            assert forall|v: BatchMessageRequestView|
                gbuf.subrange(gs, ge) != #[trigger] spec_enc_batch_request(v) by {
                if gbuf.subrange(gs, ge) == spec_enc_batch_request(v) {
                    lemma_enc_batch_request_split(gbuf, gs, ge, v);
                }
            }
        }
        return None;
    }
    let r2 = read_varint_field(buf, p1, TAG_BATCHMESSAGEREQUEST_MY_COUNTER);
    proof {
        assert forall|v: BatchMessageRequestView|
            gbuf.subrange(gs, ge) == #[trigger] spec_enc_batch_request(v) implies is_prefix_of(
            spec_varint_field(TAG_BATCHMESSAGEREQUEST_MY_COUNTER, v.my_counter),
            gbuf.skip(p1 as int),
        ) by {
            lemma_enc_batch_request_split(gbuf, gs, ge, v);
        }
    }
    let (n2, p2) = match r2 {
        None => {
        proof {
            assert forall|v: BatchMessageRequestView|
                gbuf.subrange(gs, ge) != #[trigger] spec_enc_batch_request(v) by {
                if gbuf.subrange(gs, ge) == spec_enc_batch_request(v) {
                    lemma_enc_batch_request_split(gbuf, gs, ge, v);
                }
            }
        }
        return None;
        },
        Some(p) => p,
    };
    if p2 != end {
        proof {
            assert forall|v: BatchMessageRequestView|
                gbuf.subrange(gs, ge) != #[trigger] spec_enc_batch_request(v) by {
                if gbuf.subrange(gs, ge) == spec_enc_batch_request(v) {
                    lemma_enc_batch_request_split(gbuf, gs, ge, v);
                }
            }
        }
        return None;
    }
    let x = BatchMessageRequest { peer_id, my_counter: n2 };
    proof {
        assert(gbuf.subrange(gs, ge) =~= gbuf.subrange(gs, p1 as int) + gbuf.subrange(p1 as int, p2 as int));
        assert(gbuf.subrange(gs, ge) == spec_enc_batch_request(x@));
        assert forall|v: BatchMessageRequestView|
            gbuf.subrange(gs, ge) == #[trigger] spec_enc_batch_request(v) implies x@ == v by {
            lemma_enc_batch_request_split(gbuf, gs, ge, v);
        }
    }
    Some(x)
}

pub const TAG_MESSAGEACCEPT_COUNTER: u8 = 8;

/// An apply acknowledgement.
#[derive(Debug, Clone)]
pub struct MessageAccept {
    pub counter: u64,
}

/// Mathematical content of an apply acknowledgement.
pub struct MessageAcceptView {
    pub counter: u64,
}

impl View for MessageAccept {
    type V = MessageAcceptView;

    open spec fn view(&self) -> MessageAcceptView {
        MessageAcceptView {
            counter: self.counter,
        }
    }
}

/// The encoding of an apply acknowledgement.
pub open spec fn spec_enc_accept(v: MessageAcceptView) -> Seq<u8> {
    spec_varint_field(TAG_MESSAGEACCEPT_COUNTER, v.counter)
}

/// Appends the encoding of `m` to `out`.
pub fn encode_accept_into(m: &MessageAccept, out: &mut Vec<u8>)
    ensures
        final(out)@ == old(out)@ + spec_enc_accept(m@),
{
    write_varint_field(out, TAG_MESSAGEACCEPT_COUNTER, m.counter);
    proof {
        assert(out@ =~= old(out)@ + spec_enc_accept(m@));
    }
}

/// Where each field of an apply acknowledgement sits inside `buf[start..end]`.
proof fn lemma_enc_accept_split(buf: Seq<u8>, start: int, end: int, v: MessageAcceptView)
    requires
        0 <= start <= end <= buf.len(),
        buf.subrange(start, end) == spec_enc_accept(v),
    ensures
        ({
            let f1 = spec_varint_field(TAG_MESSAGEACCEPT_COUNTER, v.counter);
            &&& is_prefix_of(f1, buf.skip(start))
            &&& start + f1.len() == end
        }),
{
    let f1 = spec_varint_field(TAG_MESSAGEACCEPT_COUNTER, v.counter);
    assert(spec_enc_accept(v) =~= f1);
    lemma_range_split(buf, start, end, f1, Seq::<u8>::empty());
}

/// Decodes an apply acknowledgement from exactly `buf[start..end]`.
#[verifier::rlimit(100)]
#[verifier::spinoff_prover]
pub fn decode_accept_range(buf: &Vec<u8>, start: usize, end: usize) -> (r: Option<MessageAccept>)
    requires
        start <= end <= buf@.len(),
    ensures
        (r matches Some(x) ==> buf@.subrange(start as int, end as int) == spec_enc_accept(x@)),
        (forall|v: MessageAcceptView|
            buf@.subrange(start as int, end as int) == #[trigger] spec_enc_accept(v) ==> (
            r matches Some(x) && x@ == v)),
{
    let ghost gbuf = buf@;
    let ghost gs = start as int;
    let ghost ge = end as int;
    let r1 = read_varint_field(buf, start, TAG_MESSAGEACCEPT_COUNTER);
    proof {
        assert forall|v: MessageAcceptView|
            gbuf.subrange(gs, ge) == #[trigger] spec_enc_accept(v) implies is_prefix_of(
            spec_varint_field(TAG_MESSAGEACCEPT_COUNTER, v.counter),
            gbuf.skip(start as int),
        ) by {
            lemma_enc_accept_split(gbuf, gs, ge, v);
        }
    }
    let (n1, p1) = match r1 {
        None => {
        proof {
            assert forall|v: MessageAcceptView|
                gbuf.subrange(gs, ge) != #[trigger] spec_enc_accept(v) by {
                if gbuf.subrange(gs, ge) == spec_enc_accept(v) {
                    lemma_enc_accept_split(gbuf, gs, ge, v);
                }
            }
        }
        return None;
        },
        Some(p) => p,
    };
    if p1 != end {
        proof {
            assert forall|v: MessageAcceptView|
                gbuf.subrange(gs, ge) != #[trigger] spec_enc_accept(v) by {
                if gbuf.subrange(gs, ge) == spec_enc_accept(v) {
                    lemma_enc_accept_split(gbuf, gs, ge, v);
                }
            }
        }
        return None;
    }
    let x = MessageAccept { counter: n1 };
    proof {
        assert(gbuf.subrange(gs, ge) =~= gbuf.subrange(gs, p1 as int));
        assert(gbuf.subrange(gs, ge) == spec_enc_accept(x@));
        assert forall|v: MessageAcceptView|
            gbuf.subrange(gs, ge) == #[trigger] spec_enc_accept(v) implies x@ == v by {
            lemma_enc_accept_split(gbuf, gs, ge, v);
        }
    }
    Some(x)
}

pub const TAG_FILEDOWNLOADREQUEST_FILE_ID: u8 = 10;

pub const TAG_FILEDOWNLOADREQUEST_PEER_ID: u8 = 18;

/// A file download request.
#[derive(Debug, Clone)]
pub struct FileDownloadRequest {
    pub file_id: String,
    pub peer_id: String,
}

/// Mathematical content of a file download request.
pub struct FileDownloadRequestView {
    pub file_id: Seq<char>,
    pub peer_id: Seq<char>,
}

impl View for FileDownloadRequest {
    type V = FileDownloadRequestView;

    open spec fn view(&self) -> FileDownloadRequestView {
        FileDownloadRequestView {
            file_id: self.file_id@,
            peer_id: self.peer_id@,
        }
    }
}

/// The encoding of a file download request.
pub open spec fn spec_enc_download_request(v: FileDownloadRequestView) -> Seq<u8> {
    spec_str_field(TAG_FILEDOWNLOADREQUEST_FILE_ID, v.file_id) + spec_str_field(TAG_FILEDOWNLOADREQUEST_PEER_ID, v.peer_id)
}

/// Appends the encoding of `m` to `out`.
pub fn encode_download_request_into(m: &FileDownloadRequest, out: &mut Vec<u8>)
    ensures
        final(out)@ == old(out)@ + spec_enc_download_request(m@),
{
    write_str_field(out, TAG_FILEDOWNLOADREQUEST_FILE_ID, &m.file_id);
    write_str_field(out, TAG_FILEDOWNLOADREQUEST_PEER_ID, &m.peer_id);
    proof {
        assert(out@ =~= old(out)@ + spec_enc_download_request(m@));
    }
}

/// Where each field of a file download request sits inside `buf[start..end]`.
proof fn lemma_enc_download_request_split(buf: Seq<u8>, start: int, end: int, v: FileDownloadRequestView)
    requires
        0 <= start <= end <= buf.len(),
        buf.subrange(start, end) == spec_enc_download_request(v),
    ensures
        ({
            let f1 = spec_str_field(TAG_FILEDOWNLOADREQUEST_FILE_ID, v.file_id);
            let f2 = spec_str_field(TAG_FILEDOWNLOADREQUEST_PEER_ID, v.peer_id);
            &&& is_prefix_of(f1, buf.skip(start))
            &&& is_prefix_of(f2, buf.skip(start + f1.len()))
            &&& start + f1.len() + f2.len() == end
        }),
{
    let f1 = spec_str_field(TAG_FILEDOWNLOADREQUEST_FILE_ID, v.file_id);
    let f2 = spec_str_field(TAG_FILEDOWNLOADREQUEST_PEER_ID, v.peer_id);
    assert(spec_enc_download_request(v) =~= f1 + (f2));
    lemma_range_split(buf, start, end, f1, f2);
}

/// Decodes a file download request from exactly `buf[start..end]`.
#[verifier::rlimit(100)]
#[verifier::spinoff_prover]
pub fn decode_download_request_range(buf: &Vec<u8>, start: usize, end: usize) -> (r: Option<FileDownloadRequest>)
    requires
        start <= end <= buf@.len(),
    ensures
        (r matches Some(x) ==> buf@.subrange(start as int, end as int) == spec_enc_download_request(x@)),
        (forall|v: FileDownloadRequestView|
            buf@.subrange(start as int, end as int) == #[trigger] spec_enc_download_request(v) ==> (
            r matches Some(x) && x@ == v)),
{
    let ghost gbuf = buf@;
    let ghost gs = start as int;
    let ghost ge = end as int;
    let r1 = read_str_field(buf, start, TAG_FILEDOWNLOADREQUEST_FILE_ID);
    proof {
        assert forall|v: FileDownloadRequestView|
            gbuf.subrange(gs, ge) == #[trigger] spec_enc_download_request(v) implies is_prefix_of(
            spec_str_field(TAG_FILEDOWNLOADREQUEST_FILE_ID, v.file_id),
            gbuf.skip(start as int),
        ) by {
            lemma_enc_download_request_split(gbuf, gs, ge, v);
        }
    }
    let (file_id, p1) = match r1 {
        None => {
        proof {
            assert forall|v: FileDownloadRequestView|
                gbuf.subrange(gs, ge) != #[trigger] spec_enc_download_request(v) by {
                if gbuf.subrange(gs, ge) == spec_enc_download_request(v) {
                    lemma_enc_download_request_split(gbuf, gs, ge, v);
                }
            }
        }
        return None;
        },
        Some(p) => p,
    };
    if p1 > end {
        proof {
            assert forall|v: FileDownloadRequestView|
                gbuf.subrange(gs, ge) != #[trigger] spec_enc_download_request(v) by {
                if gbuf.subrange(gs, ge) == spec_enc_download_request(v) {
                    lemma_enc_download_request_split(gbuf, gs, ge, v);
                }
            }
        }
        return None;
    }
    let r2 = read_str_field(buf, p1, TAG_FILEDOWNLOADREQUEST_PEER_ID);
    proof {
        assert forall|v: FileDownloadRequestView|
            gbuf.subrange(gs, ge) == #[trigger] spec_enc_download_request(v) implies is_prefix_of(
            spec_str_field(TAG_FILEDOWNLOADREQUEST_PEER_ID, v.peer_id),
            gbuf.skip(p1 as int),
        ) by {
            lemma_enc_download_request_split(gbuf, gs, ge, v);
        }
    }
    let (peer_id, p2) = match r2 {
        None => {
        proof {
            assert forall|v: FileDownloadRequestView|
                gbuf.subrange(gs, ge) != #[trigger] spec_enc_download_request(v) by {
                if gbuf.subrange(gs, ge) == spec_enc_download_request(v) {
                    lemma_enc_download_request_split(gbuf, gs, ge, v);
                }
            }
        }
        return None;
        },
        Some(p) => p,
    };
    if p2 != end {
        proof {
            assert forall|v: FileDownloadRequestView|
                gbuf.subrange(gs, ge) != #[trigger] spec_enc_download_request(v) by {
                if gbuf.subrange(gs, ge) == spec_enc_download_request(v) {
                    lemma_enc_download_request_split(gbuf, gs, ge, v);
                }
            }
        }
        return None;
    }
    let x = FileDownloadRequest { file_id, peer_id };
    proof {
        assert(gbuf.subrange(gs, ge) =~= gbuf.subrange(gs, p1 as int) + gbuf.subrange(p1 as int, p2 as int));
        assert(gbuf.subrange(gs, ge) == spec_enc_download_request(x@));
        assert forall|v: FileDownloadRequestView|
            gbuf.subrange(gs, ge) == #[trigger] spec_enc_download_request(v) implies x@ == v by {
            lemma_enc_download_request_split(gbuf, gs, ge, v);
        }
    }
    Some(x)
}

pub const TAG_FILEDOWNLOADRESPONSE_EXT: u8 = 10;

pub const TAG_FILEDOWNLOADRESPONSE_CHUNK: u8 = 18;

pub const TAG_FILEDOWNLOADRESPONSE_LAST_CHUNK: u8 = 24;

/// One chunk of a file download.
#[derive(Debug, Clone)]
pub struct FileDownloadResponse {
    pub ext: String,
    pub chunk: Vec<u8>,
    pub last_chunk: bool,
}

/// Mathematical content of one chunk of a file download.
pub struct FileDownloadResponseView {
    pub ext: Seq<char>,
    pub chunk: Seq<u8>,
    pub last_chunk: bool,
}

impl View for FileDownloadResponse {
    type V = FileDownloadResponseView;

    open spec fn view(&self) -> FileDownloadResponseView {
        FileDownloadResponseView {
            ext: self.ext@,
            chunk: self.chunk@,
            last_chunk: self.last_chunk,
        }
    }
}

/// The encoding of one chunk of a file download.
pub open spec fn spec_enc_download_response(v: FileDownloadResponseView) -> Seq<u8> {
    spec_str_field(TAG_FILEDOWNLOADRESPONSE_EXT, v.ext) + spec_bytes_field(TAG_FILEDOWNLOADRESPONSE_CHUNK, v.chunk) + spec_varint_field(TAG_FILEDOWNLOADRESPONSE_LAST_CHUNK, if v.last_chunk { 1 } else { 0 })
}

/// Appends the encoding of `m` to `out`.
pub fn encode_download_response_into(m: &FileDownloadResponse, out: &mut Vec<u8>)
    ensures
        final(out)@ == old(out)@ + spec_enc_download_response(m@),
{
    write_str_field(out, TAG_FILEDOWNLOADRESPONSE_EXT, &m.ext);
    write_bytes_field(out, TAG_FILEDOWNLOADRESPONSE_CHUNK, &m.chunk);
    write_varint_field(out, TAG_FILEDOWNLOADRESPONSE_LAST_CHUNK, if m.last_chunk { 1 } else { 0 });
    proof {
        assert(out@ =~= old(out)@ + spec_enc_download_response(m@));
    }
}

/// Where each field of one chunk of a file download sits inside `buf[start..end]`.
proof fn lemma_enc_download_response_split(buf: Seq<u8>, start: int, end: int, v: FileDownloadResponseView)
    requires
        0 <= start <= end <= buf.len(),
        buf.subrange(start, end) == spec_enc_download_response(v),
    ensures
        ({
            let f1 = spec_str_field(TAG_FILEDOWNLOADRESPONSE_EXT, v.ext);
            let f2 = spec_bytes_field(TAG_FILEDOWNLOADRESPONSE_CHUNK, v.chunk);
            let f3 = spec_varint_field(TAG_FILEDOWNLOADRESPONSE_LAST_CHUNK, if v.last_chunk { 1 } else { 0 });
            &&& is_prefix_of(f1, buf.skip(start))
            &&& is_prefix_of(f2, buf.skip(start + f1.len()))
            &&& is_prefix_of(f3, buf.skip(start + f1.len() + f2.len()))
            &&& start + f1.len() + f2.len() + f3.len() == end
        }),
{
    let f1 = spec_str_field(TAG_FILEDOWNLOADRESPONSE_EXT, v.ext);
    let f2 = spec_bytes_field(TAG_FILEDOWNLOADRESPONSE_CHUNK, v.chunk);
    let f3 = spec_varint_field(TAG_FILEDOWNLOADRESPONSE_LAST_CHUNK, if v.last_chunk { 1 } else { 0 });
    assert(spec_enc_download_response(v) =~= f1 + (f2 + (f3)));
    lemma_range_split(buf, start, end, f1, f2 + (f3));
    lemma_range_split(buf, start + f1.len(), end, f2, f3);
}

/// Decodes one chunk of a file download from exactly `buf[start..end]`.
#[verifier::rlimit(100)]
#[verifier::spinoff_prover]
pub fn decode_download_response_range(buf: &Vec<u8>, start: usize, end: usize) -> (r: Option<FileDownloadResponse>)
    requires
        start <= end <= buf@.len(),
    ensures
        (r matches Some(x) ==> buf@.subrange(start as int, end as int) == spec_enc_download_response(x@)),
        (forall|v: FileDownloadResponseView|
            buf@.subrange(start as int, end as int) == #[trigger] spec_enc_download_response(v) ==> (
            r matches Some(x) && x@ == v)),
{
    let ghost gbuf = buf@;
    let ghost gs = start as int;
    let ghost ge = end as int;
    let r1 = read_str_field(buf, start, TAG_FILEDOWNLOADRESPONSE_EXT);
    proof {
        assert forall|v: FileDownloadResponseView|
            gbuf.subrange(gs, ge) == #[trigger] spec_enc_download_response(v) implies is_prefix_of(
            spec_str_field(TAG_FILEDOWNLOADRESPONSE_EXT, v.ext),
            gbuf.skip(start as int),
        ) by {
            lemma_enc_download_response_split(gbuf, gs, ge, v);
        }
    }
    let (ext, p1) = match r1 {
        None => {
        proof {
            assert forall|v: FileDownloadResponseView|
                gbuf.subrange(gs, ge) != #[trigger] spec_enc_download_response(v) by {
                if gbuf.subrange(gs, ge) == spec_enc_download_response(v) {
                    lemma_enc_download_response_split(gbuf, gs, ge, v);
                }
            }
        }
        return None;
        },
        Some(p) => p,
    };
    if p1 > end {
        proof {
            assert forall|v: FileDownloadResponseView|
                gbuf.subrange(gs, ge) != #[trigger] spec_enc_download_response(v) by {
                if gbuf.subrange(gs, ge) == spec_enc_download_response(v) {
                    lemma_enc_download_response_split(gbuf, gs, ge, v);
                }
            }
        }
        return None;
    }
    let r2 = read_bytes_field(buf, p1, TAG_FILEDOWNLOADRESPONSE_CHUNK);
    proof {
        assert forall|v: FileDownloadResponseView|
            gbuf.subrange(gs, ge) == #[trigger] spec_enc_download_response(v) implies is_prefix_of(
            spec_bytes_field(TAG_FILEDOWNLOADRESPONSE_CHUNK, v.chunk),
            gbuf.skip(p1 as int),
        ) by {
            lemma_enc_download_response_split(gbuf, gs, ge, v);
        }
    }
    let (chunk, p2) = match r2 {
        None => {
        proof {
            assert forall|v: FileDownloadResponseView|
                gbuf.subrange(gs, ge) != #[trigger] spec_enc_download_response(v) by {
                if gbuf.subrange(gs, ge) == spec_enc_download_response(v) {
                    lemma_enc_download_response_split(gbuf, gs, ge, v);
                }
            }
        }
        return None;
        },
        Some(p) => p,
    };
    if p2 > end {
        proof {
            assert forall|v: FileDownloadResponseView|
                gbuf.subrange(gs, ge) != #[trigger] spec_enc_download_response(v) by {
                if gbuf.subrange(gs, ge) == spec_enc_download_response(v) {
                    lemma_enc_download_response_split(gbuf, gs, ge, v);
                }
            }
        }
        return None;
    }
    let r3 = read_varint_field(buf, p2, TAG_FILEDOWNLOADRESPONSE_LAST_CHUNK);
    proof {
        assert forall|v: FileDownloadResponseView|
            gbuf.subrange(gs, ge) == #[trigger] spec_enc_download_response(v) implies is_prefix_of(
            spec_varint_field(TAG_FILEDOWNLOADRESPONSE_LAST_CHUNK, if v.last_chunk { 1 } else { 0 }),
            gbuf.skip(p2 as int),
        ) by {
            lemma_enc_download_response_split(gbuf, gs, ge, v);
        }
    }
    let (n3, p3) = match r3 {
        None => {
        proof {
            assert forall|v: FileDownloadResponseView|
                gbuf.subrange(gs, ge) != #[trigger] spec_enc_download_response(v) by {
                if gbuf.subrange(gs, ge) == spec_enc_download_response(v) {
                    lemma_enc_download_response_split(gbuf, gs, ge, v);
                }
            }
        }
        return None;
        },
        Some(p) => p,
    };
    if p3 != end {
        proof {
            assert forall|v: FileDownloadResponseView|
                gbuf.subrange(gs, ge) != #[trigger] spec_enc_download_response(v) by {
                if gbuf.subrange(gs, ge) == spec_enc_download_response(v) {
                    lemma_enc_download_response_split(gbuf, gs, ge, v);
                }
            }
        }
        return None;
    }
    if n3 > 1 {
        proof {
            assert forall|v: FileDownloadResponseView|
                gbuf.subrange(gs, ge) != #[trigger] spec_enc_download_response(v) by {
                if gbuf.subrange(gs, ge) == spec_enc_download_response(v) {
                    lemma_enc_download_response_split(gbuf, gs, ge, v);
                }
            }
        }
        return None;
    }
    let x = FileDownloadResponse { ext, chunk, last_chunk: n3 == 1 };
    proof {
        assert(gbuf.subrange(gs, ge) =~= gbuf.subrange(gs, p1 as int) + gbuf.subrange(p1 as int, p2 as int) + gbuf.subrange(p2 as int, p3 as int));
        assert(gbuf.subrange(gs, ge) == spec_enc_download_response(x@));
        assert forall|v: FileDownloadResponseView|
            gbuf.subrange(gs, ge) == #[trigger] spec_enc_download_response(v) implies x@ == v by {
            lemma_enc_download_response_split(gbuf, gs, ge, v);
        }
    }
    Some(x)
}



/// The views of a sequence of strings, element for element.
pub open spec fn str_views(s: Seq<String>) -> Seq<Seq<char>> {
    Seq::new(s.len(), |i: int| s[i]@)
}

/// The encoding of a repeated string field, one entry per element.
pub open spec fn spec_enc_str_list(ss: Seq<Seq<char>>, tag: u8) -> Seq<u8>
    decreases ss.len(),
{
    if ss.len() == 0 {
        Seq::<u8>::empty()
    } else {
        spec_str_field(tag, ss[0]) + spec_enc_str_list(ss.drop_first(), tag)
    }
}

/// An encoded repeated string field is empty exactly when the list is, and
/// otherwise starts with its key byte.
proof fn lemma_enc_str_list_shape(ss: Seq<Seq<char>>, tag: u8)
    ensures
        ss.len() == 0 ==> spec_enc_str_list(ss, tag) == Seq::<u8>::empty(),
        ss.len() > 0 ==> spec_enc_str_list(ss, tag).len() >= 2 && spec_enc_str_list(ss, tag)[0]
            == tag,
{
    if ss.len() > 0 {
        crate::wire::lemma_varint_len(vstd::utf8::encode_utf8(ss[0]).len() as u64);
        assert(spec_str_field(tag, ss[0])[0] == tag);
        assert(spec_enc_str_list(ss, tag)[0] == spec_str_field(tag, ss[0])[0]);
    }
}

/// Appends the encodings of `list[from..]` to `out`.
pub fn encode_str_list_into(list: &Vec<String>, from: usize, tag: u8, out: &mut Vec<u8>)
    requires
        from <= list@.len(),
    ensures
        final(out)@ == old(out)@ + spec_enc_str_list(str_views(list@).skip(from as int), tag),
    decreases list@.len() - from,
{
    if from < list.len() {
        write_str_field(out, tag, &list[from]);
        encode_str_list_into(list, from + 1, tag, out);
        proof {
            let ss = str_views(list@).skip(from as int);
            assert(ss.drop_first() =~= str_views(list@).skip(from as int + 1));
            assert(ss[0] == list@[from as int]@);
            assert(out@ =~= old(out)@ + spec_enc_str_list(ss, tag));
        }
    } else {
        proof {
            assert(str_views(list@).skip(from as int) =~= Seq::<Seq<char>>::empty());
        }
    }
}

/// Decodes a repeated string field filling exactly `buf[start..end]`.
#[verifier::rlimit(100)]
#[verifier::spinoff_prover]
pub fn decode_str_list(buf: &Vec<u8>, start: usize, end: usize, tag: u8) -> (r: Option<
    Vec<String>,
>)
    requires
        start <= end <= buf@.len(),
    ensures
        (r matches Some(x) ==> buf@.subrange(start as int, end as int) == spec_enc_str_list(
            str_views(x@),
            tag,
        )),
        (forall|vs: Seq<Seq<char>>|
            buf@.subrange(start as int, end as int) == #[trigger] spec_enc_str_list(vs, tag)
                ==> (r matches Some(x) && str_views(x@) == vs)),
    decreases end - start,
{
    let ghost gbuf = buf@;
    let ghost gs = start as int;
    let ghost ge = end as int;
    if start == end {
        let x: Vec<String> = Vec::new();
        proof {
            assert(str_views(x@) =~= Seq::<Seq<char>>::empty());
            assert(gbuf.subrange(gs, ge) =~= Seq::<u8>::empty());
            assert forall|vs: Seq<Seq<char>>|
                gbuf.subrange(gs, ge) == #[trigger] spec_enc_str_list(vs, tag) implies str_views(
                x@,
            ) =~= vs by {
                lemma_enc_str_list_shape(vs, tag);
            }
        }
        return Some(x);
    }
    proof {
        assert forall|vs: Seq<Seq<char>>|
            gbuf.subrange(gs, ge) == #[trigger] spec_enc_str_list(vs, tag) implies vs.len() > 0
            && is_prefix_of(spec_str_field(tag, vs[0]), gbuf.skip(gs)) && gbuf.subrange(
            gs + spec_str_field(tag, vs[0]).len(),
            ge,
        ) == spec_enc_str_list(vs.drop_first(), tag) by {
            lemma_enc_str_list_shape(vs, tag);
            lemma_range_split(
                gbuf,
                gs,
                ge,
                spec_str_field(tag, vs[0]),
                spec_enc_str_list(vs.drop_first(), tag),
            );
        }
    }
    if buf[start] != tag {
        proof {
            assert forall|vs: Seq<Seq<char>>|
                gbuf.subrange(gs, ge) != #[trigger] spec_enc_str_list(vs, tag) by {
                if gbuf.subrange(gs, ge) == spec_enc_str_list(vs, tag) {
                    lemma_enc_str_list_shape(vs, tag);
                    assert(gbuf.subrange(gs, ge)[0] == gbuf[gs]);
                }
            }
        }
        return None;
    }
    let r1 = read_str_field(buf, start, tag);
    let (s, p) = match r1 {
        None => {
            proof {
                assert forall|vs: Seq<Seq<char>>|
                    gbuf.subrange(gs, ge) != #[trigger] spec_enc_str_list(vs, tag) by {}
            }
            return None;
        },
        Some(p) => p,
    };
    if p > end {
        proof {
            assert forall|vs: Seq<Seq<char>>|
                gbuf.subrange(gs, ge) != #[trigger] spec_enc_str_list(vs, tag) by {}
        }
        return None;
    }
    let rest = decode_str_list(buf, p, end, tag);
    match rest {
        None => {
            proof {
                assert forall|vs: Seq<Seq<char>>|
                    gbuf.subrange(gs, ge) != #[trigger] spec_enc_str_list(vs, tag) by {}
            }
            None
        },
        Some(xs) => {
            let ghost tail = xs@;
            let mut xs = xs;
            xs.insert(0, s);
            proof {
                assert(str_views(xs@) =~= seq![s@] + str_views(tail));
                assert(str_views(xs@).drop_first() =~= str_views(tail));
                assert(gbuf.subrange(gs, ge) =~= gbuf.subrange(gs, p as int) + gbuf.subrange(
                    p as int,
                    ge,
                ));
                assert(gbuf.subrange(gs, ge) == spec_enc_str_list(str_views(xs@), tag));
                assert forall|vs: Seq<Seq<char>>|
                    gbuf.subrange(gs, ge) == #[trigger] spec_enc_str_list(vs, tag) implies
                    str_views(xs@) =~= vs by {}
            }
            Some(xs)
        },
    }
}


/// The encoding of a repeated field of log entries, one length-delimited entry
/// per element.
pub open spec fn spec_enc_message_list(vs: Seq<DbMessageView>, tag: u8) -> Seq<u8>
    decreases vs.len(),
{
    if vs.len() == 0 {
        Seq::<u8>::empty()
    } else {
        spec_bytes_field(tag, spec_enc_message(vs[0])) + spec_enc_message_list(vs.drop_first(), tag)
    }
}

/// An encoded repeated field of log entries is empty exactly when the list is,
/// and otherwise starts with its key byte.
proof fn lemma_enc_message_list_shape(vs: Seq<DbMessageView>, tag: u8)
    ensures
        vs.len() == 0 ==> spec_enc_message_list(vs, tag) == Seq::<u8>::empty(),
        vs.len() > 0 ==> spec_enc_message_list(vs, tag).len() >= 2 && spec_enc_message_list(vs, tag)[0]
            == tag,
{
    if vs.len() > 0 {
        crate::wire::lemma_varint_len(spec_enc_message(vs[0]).len() as u64);
        assert(spec_bytes_field(tag, spec_enc_message(vs[0]))[0] == tag);
        assert(spec_enc_message_list(vs, tag)[0] == spec_bytes_field(
            tag,
            spec_enc_message(vs[0]),
        )[0]);
    }
}

/// Appends the encodings of `list[from..]` to `out`.
pub fn encode_message_list_into(list: &Vec<DbMessage>, from: usize, tag: u8, out: &mut Vec<u8>)
    requires
        from <= list@.len(),
    ensures
        final(out)@ == old(out)@ + spec_enc_message_list(views_of(list@).skip(from as int), tag),
    decreases list@.len() - from,
{
    if from < list.len() {
        let mut body: Vec<u8> = Vec::new();
        encode_message_into(&list[from], &mut body);
        write_bytes_field(out, tag, &body);
        encode_message_list_into(list, from + 1, tag, out);
        proof {
            let vs = views_of(list@).skip(from as int);
            assert(vs.drop_first() =~= views_of(list@).skip(from as int + 1));
            assert(vs[0] == list@[from as int]@);
            assert(out@ =~= old(out)@ + spec_enc_message_list(vs, tag));
        }
    } else {
        proof {
            assert(views_of(list@).skip(from as int) =~= Seq::<DbMessageView>::empty());
        }
    }
}

/// Decodes a repeated field of log entries filling exactly `buf[start..end]`.
#[verifier::rlimit(100)]
#[verifier::spinoff_prover]
pub fn decode_message_list(buf: &Vec<u8>, start: usize, end: usize, tag: u8) -> (r: Option<
    Vec<DbMessage>,
>)
    requires
        start <= end <= buf@.len(),
    ensures
        (r matches Some(x) ==> buf@.subrange(start as int, end as int) == spec_enc_message_list(
            views_of(x@),
            tag,
        )),
        (forall|vs: Seq<DbMessageView>|
            buf@.subrange(start as int, end as int) == #[trigger] spec_enc_message_list(vs, tag)
                ==> (r matches Some(x) && views_of(x@) == vs)),
    decreases end - start,
{
    let ghost gbuf = buf@;
    let ghost gs = start as int;
    let ghost ge = end as int;
    if start == end {
        let x: Vec<DbMessage> = Vec::new();
        proof {
            assert(views_of(x@) =~= Seq::<DbMessageView>::empty());
            assert(gbuf.subrange(gs, ge) =~= Seq::<u8>::empty());
            assert forall|vs: Seq<DbMessageView>|
                gbuf.subrange(gs, ge) == #[trigger] spec_enc_message_list(vs, tag) implies views_of(
                x@,
            ) =~= vs by {
                lemma_enc_message_list_shape(vs, tag);
            }
        }
        return Some(x);
    }
    proof {
        assert forall|vs: Seq<DbMessageView>|
            gbuf.subrange(gs, ge) == #[trigger] spec_enc_message_list(vs, tag) implies vs.len() > 0
            && is_prefix_of(
            spec_bytes_field(tag, spec_enc_message(vs[0])),
            gbuf.skip(gs),
        ) && spec_bytes_field(tag, spec_enc_message(vs[0])).len() <= ge - gs
            && gbuf.subrange(
            gs + spec_bytes_field(tag, spec_enc_message(vs[0])).len(),
            ge,
        ) == spec_enc_message_list(vs.drop_first(), tag) by {
            lemma_enc_message_list_shape(vs, tag);
            lemma_range_split(
                gbuf,
                gs,
                ge,
                spec_bytes_field(tag, spec_enc_message(vs[0])),
                spec_enc_message_list(vs.drop_first(), tag),
            );
        }
    }
    if buf[start] != tag {
        proof {
            assert forall|vs: Seq<DbMessageView>|
                gbuf.subrange(gs, ge) != #[trigger] spec_enc_message_list(vs, tag) by {
                if gbuf.subrange(gs, ge) == spec_enc_message_list(vs, tag) {
                    lemma_enc_message_list_shape(vs, tag);
                    assert(gbuf.subrange(gs, ge)[0] == gbuf[gs]);
                }
            }
        }
        return None;
    }
    let r1 = read_field_extent(buf, start, tag);
    let (bs, be) = match r1 {
        None => {
            proof {
                assert forall|vs: Seq<DbMessageView>|
                    gbuf.subrange(gs, ge) != #[trigger] spec_enc_message_list(vs, tag) by {}
            }
            return None;
        },
        Some(p) => p,
    };
    if be > end {
        proof {
            assert forall|vs: Seq<DbMessageView>|
                gbuf.subrange(gs, ge) != #[trigger] spec_enc_message_list(vs, tag) by {}
        }
        return None;
    }
    let elem = decode_message_range(buf, bs, be);
    let m = match elem {
        None => {
            proof {
                assert forall|vs: Seq<DbMessageView>|
                    gbuf.subrange(gs, ge) != #[trigger] spec_enc_message_list(vs, tag) by {}
            }
            return None;
        },
        Some(m) => m,
    };
    let rest = decode_message_list(buf, be, end, tag);
    match rest {
        None => {
            proof {
                assert forall|vs: Seq<DbMessageView>|
                    gbuf.subrange(gs, ge) != #[trigger] spec_enc_message_list(vs, tag) by {}
            }
            None
        },
        Some(xs) => {
            let ghost tail = xs@;
            let mut xs = xs;
            xs.insert(0, m);
            proof {
                assert(views_of(xs@) =~= seq![m@] + views_of(tail));
                assert(views_of(xs@).drop_first() =~= views_of(tail));
                assert(gbuf.subrange(gs, ge) =~= gbuf.subrange(gs, be as int) + gbuf.subrange(
                    be as int,
                    ge,
                ));
                assert(gbuf.subrange(gs, be as int) == spec_bytes_field(
                    tag,
                    spec_enc_message(m@),
                ));
                assert(gbuf.subrange(gs, ge) == spec_enc_message_list(views_of(xs@), tag));
                assert forall|vs: Seq<DbMessageView>|
                    gbuf.subrange(gs, ge) == #[trigger] spec_enc_message_list(vs, tag) implies
                    views_of(xs@) =~= vs by {}
            }
            Some(xs)
        },
    }
}


/// The views of a sequence of replication state entries.
pub open spec fn cp_views(s: Seq<ComparePayload>) -> Seq<ComparePayloadView> {
    Seq::new(s.len(), |i: int| s[i]@)
}


/// The encoding of a repeated field of replication state entries, one length-delimited entry
/// per element.
pub open spec fn spec_enc_compare_payload_list(vs: Seq<ComparePayloadView>, tag: u8) -> Seq<u8>
    decreases vs.len(),
{
    if vs.len() == 0 {
        Seq::<u8>::empty()
    } else {
        spec_bytes_field(tag, spec_enc_compare_payload(vs[0])) + spec_enc_compare_payload_list(vs.drop_first(), tag)
    }
}

/// An encoded repeated field of replication state entries is empty exactly when the list is,
/// and otherwise starts with its key byte.
proof fn lemma_enc_compare_payload_list_shape(vs: Seq<ComparePayloadView>, tag: u8)
    ensures
        vs.len() == 0 ==> spec_enc_compare_payload_list(vs, tag) == Seq::<u8>::empty(),
        vs.len() > 0 ==> spec_enc_compare_payload_list(vs, tag).len() >= 2 && spec_enc_compare_payload_list(vs, tag)[0]
            == tag,
{
    if vs.len() > 0 {
        crate::wire::lemma_varint_len(spec_enc_compare_payload(vs[0]).len() as u64);
        assert(spec_bytes_field(tag, spec_enc_compare_payload(vs[0]))[0] == tag);
        assert(spec_enc_compare_payload_list(vs, tag)[0] == spec_bytes_field(
            tag,
            spec_enc_compare_payload(vs[0]),
        )[0]);
    }
}

/// Appends the encodings of `list[from..]` to `out`.
pub fn encode_compare_payload_list_into(list: &Vec<ComparePayload>, from: usize, tag: u8, out: &mut Vec<u8>)
    requires
        from <= list@.len(),
    ensures
        final(out)@ == old(out)@ + spec_enc_compare_payload_list(cp_views(list@).skip(from as int), tag),
    decreases list@.len() - from,
{
    if from < list.len() {
        let mut body: Vec<u8> = Vec::new();
        encode_compare_payload_into(&list[from], &mut body);
        write_bytes_field(out, tag, &body);
        encode_compare_payload_list_into(list, from + 1, tag, out);
        proof {
            let vs = cp_views(list@).skip(from as int);
            assert(vs.drop_first() =~= cp_views(list@).skip(from as int + 1));
            assert(vs[0] == list@[from as int]@);
            assert(out@ =~= old(out)@ + spec_enc_compare_payload_list(vs, tag));
        }
    } else {
        proof {
            assert(cp_views(list@).skip(from as int) =~= Seq::<ComparePayloadView>::empty());
        }
    }
}

/// Decodes a repeated field of replication state entries filling exactly `buf[start..end]`.
#[verifier::rlimit(100)]
#[verifier::spinoff_prover]
pub fn decode_compare_payload_list(buf: &Vec<u8>, start: usize, end: usize, tag: u8) -> (r: Option<
    Vec<ComparePayload>,
>)
    requires
        start <= end <= buf@.len(),
    ensures
        (r matches Some(x) ==> buf@.subrange(start as int, end as int) == spec_enc_compare_payload_list(
            cp_views(x@),
            tag,
        )),
        (forall|vs: Seq<ComparePayloadView>|
            buf@.subrange(start as int, end as int) == #[trigger] spec_enc_compare_payload_list(vs, tag)
                ==> (r matches Some(x) && cp_views(x@) == vs)),
    decreases end - start,
{
    let ghost gbuf = buf@;
    let ghost gs = start as int;
    let ghost ge = end as int;
    if start == end {
        let x: Vec<ComparePayload> = Vec::new();
        proof {
            assert(cp_views(x@) =~= Seq::<ComparePayloadView>::empty());
            assert(gbuf.subrange(gs, ge) =~= Seq::<u8>::empty());
            assert forall|vs: Seq<ComparePayloadView>|
                gbuf.subrange(gs, ge) == #[trigger] spec_enc_compare_payload_list(vs, tag) implies cp_views(
                x@,
            ) =~= vs by {
                lemma_enc_compare_payload_list_shape(vs, tag);
            }
        }
        return Some(x);
    }
    proof {
        assert forall|vs: Seq<ComparePayloadView>|
            gbuf.subrange(gs, ge) == #[trigger] spec_enc_compare_payload_list(vs, tag) implies vs.len() > 0
            && is_prefix_of(
            spec_bytes_field(tag, spec_enc_compare_payload(vs[0])),
            gbuf.skip(gs),
        ) && spec_bytes_field(tag, spec_enc_compare_payload(vs[0])).len() <= ge - gs
            && gbuf.subrange(
            gs + spec_bytes_field(tag, spec_enc_compare_payload(vs[0])).len(),
            ge,
        ) == spec_enc_compare_payload_list(vs.drop_first(), tag) by {
            lemma_enc_compare_payload_list_shape(vs, tag);
            lemma_range_split(
                gbuf,
                gs,
                ge,
                spec_bytes_field(tag, spec_enc_compare_payload(vs[0])),
                spec_enc_compare_payload_list(vs.drop_first(), tag),
            );
        }
    }
    if buf[start] != tag {
        proof {
            assert forall|vs: Seq<ComparePayloadView>|
                gbuf.subrange(gs, ge) != #[trigger] spec_enc_compare_payload_list(vs, tag) by {
                if gbuf.subrange(gs, ge) == spec_enc_compare_payload_list(vs, tag) {
                    lemma_enc_compare_payload_list_shape(vs, tag);
                    assert(gbuf.subrange(gs, ge)[0] == gbuf[gs]);
                }
            }
        }
        return None;
    }
    let r1 = read_field_extent(buf, start, tag);
    let (bs, be) = match r1 {
        None => {
            proof {
                assert forall|vs: Seq<ComparePayloadView>|
                    gbuf.subrange(gs, ge) != #[trigger] spec_enc_compare_payload_list(vs, tag) by {}
            }
            return None;
        },
        Some(p) => p,
    };
    if be > end {
        proof {
            assert forall|vs: Seq<ComparePayloadView>|
                gbuf.subrange(gs, ge) != #[trigger] spec_enc_compare_payload_list(vs, tag) by {}
        }
        return None;
    }
    let elem = decode_compare_payload_range(buf, bs, be);
    let m = match elem {
        None => {
            proof {
                assert forall|vs: Seq<ComparePayloadView>|
                    gbuf.subrange(gs, ge) != #[trigger] spec_enc_compare_payload_list(vs, tag) by {}
            }
            return None;
        },
        Some(m) => m,
    };
    let rest = decode_compare_payload_list(buf, be, end, tag);
    match rest {
        None => {
            proof {
                assert forall|vs: Seq<ComparePayloadView>|
                    gbuf.subrange(gs, ge) != #[trigger] spec_enc_compare_payload_list(vs, tag) by {}
            }
            None
        },
        Some(xs) => {
            let ghost tail = xs@;
            let mut xs = xs;
            xs.insert(0, m);
            proof {
                assert(cp_views(xs@) =~= seq![m@] + cp_views(tail));
                assert(cp_views(xs@).drop_first() =~= cp_views(tail));
                assert(gbuf.subrange(gs, ge) =~= gbuf.subrange(gs, be as int) + gbuf.subrange(
                    be as int,
                    ge,
                ));
                assert(gbuf.subrange(gs, be as int) == spec_bytes_field(
                    tag,
                    spec_enc_compare_payload(m@),
                ));
                assert(gbuf.subrange(gs, ge) == spec_enc_compare_payload_list(cp_views(xs@), tag));
                assert forall|vs: Seq<ComparePayloadView>|
                    gbuf.subrange(gs, ge) == #[trigger] spec_enc_compare_payload_list(vs, tag) implies
                    cp_views(xs@) =~= vs by {}
            }
            Some(xs)
        },
    }
}


pub const TAG_MP_TEXT: u8 = 10;

pub const TAG_MP_FILE_ID: u8 = 18;

pub const TAG_MP_REPLY_ID: u8 = 26;

pub const TAG_MP_MENTIONS: u8 = 34;

/// The structured body a log entry's payload bytes carry.
#[derive(Debug, Clone)]
pub struct MessagePayload {
    pub text: String,
    pub file_id: String,
    pub reply_id: String,
    pub mentions: Vec<String>,
}

/// Mathematical content of a payload body.
pub struct MessagePayloadView {
    pub text: Seq<char>,
    pub file_id: Seq<char>,
    pub reply_id: Seq<char>,
    pub mentions: Seq<Seq<char>>,
}

impl View for MessagePayload {
    type V = MessagePayloadView;

    open spec fn view(&self) -> MessagePayloadView {
        MessagePayloadView {
            text: self.text@,
            file_id: self.file_id@,
            reply_id: self.reply_id@,
            mentions: str_views(self.mentions@),
        }
    }
}

/// The encoding of a payload body.
pub open spec fn spec_enc_payload(v: MessagePayloadView) -> Seq<u8> {
    spec_str_field(TAG_MP_TEXT, v.text) + spec_str_field(TAG_MP_FILE_ID, v.file_id)
        + spec_str_field(TAG_MP_REPLY_ID, v.reply_id) + spec_enc_str_list(
        v.mentions,
        TAG_MP_MENTIONS,
    )
}

/// Appends the encoding of `m` to `out`.
pub fn encode_payload_into(m: &MessagePayload, out: &mut Vec<u8>)
    ensures
        final(out)@ == old(out)@ + spec_enc_payload(m@),
{
    write_str_field(out, TAG_MP_TEXT, &m.text);
    write_str_field(out, TAG_MP_FILE_ID, &m.file_id);
    write_str_field(out, TAG_MP_REPLY_ID, &m.reply_id);
    encode_str_list_into(&m.mentions, 0, TAG_MP_MENTIONS, out);
    proof {
        assert(str_views(m.mentions@).skip(0) =~= str_views(m.mentions@));
        assert(out@ =~= old(out)@ + spec_enc_payload(m@));
    }
}

/// Where each field of an encoded payload body sits inside `buf[start..end]`.
proof fn lemma_enc_payload_split(buf: Seq<u8>, start: int, end: int, v: MessagePayloadView)
    requires
        0 <= start <= end <= buf.len(),
        buf.subrange(start, end) == spec_enc_payload(v),
    ensures
        ({
            let f1 = spec_str_field(TAG_MP_TEXT, v.text);
            let f2 = spec_str_field(TAG_MP_FILE_ID, v.file_id);
            let f3 = spec_str_field(TAG_MP_REPLY_ID, v.reply_id);
            &&& is_prefix_of(f1, buf.skip(start))
            &&& is_prefix_of(f2, buf.skip(start + f1.len()))
            &&& is_prefix_of(f3, buf.skip(start + f1.len() + f2.len()))
            &&& start + f1.len() + f2.len() + f3.len() <= end
            &&& buf.subrange(start + f1.len() + f2.len() + f3.len(), end) == spec_enc_str_list(
                v.mentions,
                TAG_MP_MENTIONS,
            )
        }),
{
    let f1 = spec_str_field(TAG_MP_TEXT, v.text);
    let f2 = spec_str_field(TAG_MP_FILE_ID, v.file_id);
    let f3 = spec_str_field(TAG_MP_REPLY_ID, v.reply_id);
    let f4 = spec_enc_str_list(v.mentions, TAG_MP_MENTIONS);
    assert(spec_enc_payload(v) =~= f1 + (f2 + (f3 + f4)));
    lemma_range_split(buf, start, end, f1, f2 + (f3 + f4));
    lemma_range_split(buf, start + f1.len(), end, f2, f3 + f4);
    lemma_range_split(buf, start + f1.len() + f2.len(), end, f3, f4);
}

/// Decodes a payload body from exactly `buf[start..end]`.
#[verifier::rlimit(100)]
#[verifier::spinoff_prover]
pub fn decode_payload_range(buf: &Vec<u8>, start: usize, end: usize) -> (r: Option<MessagePayload>)
    requires
        start <= end <= buf@.len(),
    ensures
        (r matches Some(x) ==> buf@.subrange(start as int, end as int) == spec_enc_payload(x@)),
        (forall|v: MessagePayloadView|
            buf@.subrange(start as int, end as int) == #[trigger] spec_enc_payload(v) ==> (
            r matches Some(x) && x@ == v)),
{
    let ghost gbuf = buf@;
    let ghost gs = start as int;
    let ghost ge = end as int;
    let r1 = read_str_field(buf, start, TAG_MP_TEXT);
    proof {
        assert forall|v: MessagePayloadView|
            gbuf.subrange(gs, ge) == #[trigger] spec_enc_payload(v) implies is_prefix_of(
            spec_str_field(TAG_MP_TEXT, v.text),
            gbuf.skip(gs),
        ) by {
            lemma_enc_payload_split(gbuf, gs, ge, v);
        }
    }
    let (text, p1) = match r1 {
        None => {
            return None;
        },
        Some(p) => p,
    };
    if p1 > end {
        proof {
            assert forall|v: MessagePayloadView|
                gbuf.subrange(gs, ge) != #[trigger] spec_enc_payload(v) by {
                if gbuf.subrange(gs, ge) == spec_enc_payload(v) {
                    lemma_enc_payload_split(gbuf, gs, ge, v);
                }
            }
        }
        return None;
    }
    let r2 = read_str_field(buf, p1, TAG_MP_FILE_ID);
    proof {
        assert forall|v: MessagePayloadView|
            gbuf.subrange(gs, ge) == #[trigger] spec_enc_payload(v) implies is_prefix_of(
            spec_str_field(TAG_MP_FILE_ID, v.file_id),
            gbuf.skip(p1 as int),
        ) by {
            lemma_enc_payload_split(gbuf, gs, ge, v);
        }
    }
    let (file_id, p2) = match r2 {
        None => {
            return None;
        },
        Some(p) => p,
    };
    if p2 > end {
        proof {
            assert forall|v: MessagePayloadView|
                gbuf.subrange(gs, ge) != #[trigger] spec_enc_payload(v) by {
                if gbuf.subrange(gs, ge) == spec_enc_payload(v) {
                    lemma_enc_payload_split(gbuf, gs, ge, v);
                }
            }
        }
        return None;
    }
    let r3 = read_str_field(buf, p2, TAG_MP_REPLY_ID);
    proof {
        assert forall|v: MessagePayloadView|
            gbuf.subrange(gs, ge) == #[trigger] spec_enc_payload(v) implies is_prefix_of(
            spec_str_field(TAG_MP_REPLY_ID, v.reply_id),
            gbuf.skip(p2 as int),
        ) by {
            lemma_enc_payload_split(gbuf, gs, ge, v);
        }
    }
    let (reply_id, p3) = match r3 {
        None => {
            return None;
        },
        Some(p) => p,
    };
    if p3 > end {
        proof {
            assert forall|v: MessagePayloadView|
                gbuf.subrange(gs, ge) != #[trigger] spec_enc_payload(v) by {
                if gbuf.subrange(gs, ge) == spec_enc_payload(v) {
                    lemma_enc_payload_split(gbuf, gs, ge, v);
                }
            }
        }
        return None;
    }
    proof {
        assert forall|v: MessagePayloadView|
            gbuf.subrange(gs, ge) == #[trigger] spec_enc_payload(v) implies gbuf.subrange(
            p3 as int,
            ge,
        ) == spec_enc_str_list(v.mentions, TAG_MP_MENTIONS) by {
            lemma_enc_payload_split(gbuf, gs, ge, v);
        }
    }
    let r4 = decode_str_list(buf, p3, end, TAG_MP_MENTIONS);
    let mentions = match r4 {
        None => {
            return None;
        },
        Some(x) => x,
    };
    let x = MessagePayload { text, file_id, reply_id, mentions };
    proof {
        assert(gbuf.subrange(gs, ge) =~= gbuf.subrange(gs, p1 as int) + gbuf.subrange(
            p1 as int,
            p2 as int,
        ) + gbuf.subrange(p2 as int, p3 as int) + gbuf.subrange(p3 as int, ge));
        assert(gbuf.subrange(gs, ge) == spec_enc_payload(x@));
        assert forall|v: MessagePayloadView|
            gbuf.subrange(gs, ge) == #[trigger] spec_enc_payload(v) implies x@ == v by {
            lemma_enc_payload_split(gbuf, gs, ge, v);
        }
    }
    Some(x)
}


pub const TAG_CREQ_PAYLOAD: u8 = 10;

/// A compare request: the caller's replication states.
#[derive(Debug, Clone)]
pub struct CompareRequest {
    pub compare_payload: Vec<ComparePayload>,
}

/// Mathematical content of a compare request.
pub struct CompareRequestView {
    pub compare_payload: Seq<ComparePayloadView>,
}

impl View for CompareRequest {
    type V = CompareRequestView;

    open spec fn view(&self) -> CompareRequestView {
        CompareRequestView { compare_payload: cp_views(self.compare_payload@) }
    }
}

/// The encoding of a compare request.
pub open spec fn spec_enc_compare_request(v: CompareRequestView) -> Seq<u8> {
    spec_enc_compare_payload_list(v.compare_payload, TAG_CREQ_PAYLOAD)
}

/// Appends the encoding of `m` to `out`.
pub fn encode_compare_request_into(m: &CompareRequest, out: &mut Vec<u8>)
    ensures
        final(out)@ == old(out)@ + spec_enc_compare_request(m@),
{
    encode_compare_payload_list_into(&m.compare_payload, 0, TAG_CREQ_PAYLOAD, out);
    proof {
        assert(cp_views(m.compare_payload@).skip(0) =~= cp_views(m.compare_payload@));
    }
}

/// Decodes a compare request from exactly `buf[start..end]`.
pub fn decode_compare_request_range(buf: &Vec<u8>, start: usize, end: usize) -> (r: Option<CompareRequest>)
    requires
        start <= end <= buf@.len(),
    ensures
        (r matches Some(x) ==> buf@.subrange(start as int, end as int) == spec_enc_compare_request(x@)),
        (forall|v: CompareRequestView|
            buf@.subrange(start as int, end as int) == #[trigger] spec_enc_compare_request(v) ==> (
            r matches Some(x) && x@ == v)),
{
    match decode_compare_payload_list(buf, start, end, TAG_CREQ_PAYLOAD) {
        None => {
            None
        },
        Some(items) => {
            Some(CompareRequest { compare_payload: items })
        },
    }
}

pub const TAG_CRESP_PEER_IDS: u8 = 10;

/// A compare response: the peers the caller is behind on.
#[derive(Debug, Clone)]
pub struct CompareResponse {
    pub peer_ids: Vec<String>,
}

/// Mathematical content of a compare response.
pub struct CompareResponseView {
    pub peer_ids: Seq<Seq<char>>,
}

impl View for CompareResponse {
    type V = CompareResponseView;

    open spec fn view(&self) -> CompareResponseView {
        CompareResponseView { peer_ids: str_views(self.peer_ids@) }
    }
}

/// The encoding of a compare response.
pub open spec fn spec_enc_compare_response(v: CompareResponseView) -> Seq<u8> {
    spec_enc_str_list(v.peer_ids, TAG_CRESP_PEER_IDS)
}

/// Appends the encoding of `m` to `out`.
pub fn encode_compare_response_into(m: &CompareResponse, out: &mut Vec<u8>)
    ensures
        final(out)@ == old(out)@ + spec_enc_compare_response(m@),
{
    encode_str_list_into(&m.peer_ids, 0, TAG_CRESP_PEER_IDS, out);
    proof {
        assert(str_views(m.peer_ids@).skip(0) =~= str_views(m.peer_ids@));
    }
}

/// Decodes a compare response from exactly `buf[start..end]`.
pub fn decode_compare_response_range(buf: &Vec<u8>, start: usize, end: usize) -> (r: Option<CompareResponse>)
    requires
        start <= end <= buf@.len(),
    ensures
        (r matches Some(x) ==> buf@.subrange(start as int, end as int) == spec_enc_compare_response(x@)),
        (forall|v: CompareResponseView|
            buf@.subrange(start as int, end as int) == #[trigger] spec_enc_compare_response(v) ==> (
            r matches Some(x) && x@ == v)),
{
    match decode_str_list(buf, start, end, TAG_CRESP_PEER_IDS) {
        None => {
            None
        },
        Some(items) => {
            Some(CompareResponse { peer_ids: items })
        },
    }
}

pub const TAG_FWREQ_FILE_ID: u8 = 10;

/// A file availability query.
#[derive(Debug, Clone)]
pub struct FileWantRequest {
    pub file_id: Vec<String>,
}

/// Mathematical content of a file availability query.
pub struct FileWantRequestView {
    pub file_id: Seq<Seq<char>>,
}

impl View for FileWantRequest {
    type V = FileWantRequestView;

    open spec fn view(&self) -> FileWantRequestView {
        FileWantRequestView { file_id: str_views(self.file_id@) }
    }
}

/// The encoding of a file availability query.
pub open spec fn spec_enc_file_want_request(v: FileWantRequestView) -> Seq<u8> {
    spec_enc_str_list(v.file_id, TAG_FWREQ_FILE_ID)
}

/// Appends the encoding of `m` to `out`.
pub fn encode_file_want_request_into(m: &FileWantRequest, out: &mut Vec<u8>)
    ensures
        final(out)@ == old(out)@ + spec_enc_file_want_request(m@),
{
    encode_str_list_into(&m.file_id, 0, TAG_FWREQ_FILE_ID, out);
    proof {
        assert(str_views(m.file_id@).skip(0) =~= str_views(m.file_id@));
    }
}

/// Decodes a file availability query from exactly `buf[start..end]`.
pub fn decode_file_want_request_range(buf: &Vec<u8>, start: usize, end: usize) -> (r: Option<FileWantRequest>)
    requires
        start <= end <= buf@.len(),
    ensures
        (r matches Some(x) ==> buf@.subrange(start as int, end as int) == spec_enc_file_want_request(x@)),
        (forall|v: FileWantRequestView|
            buf@.subrange(start as int, end as int) == #[trigger] spec_enc_file_want_request(v) ==> (
            r matches Some(x) && x@ == v)),
{
    match decode_str_list(buf, start, end, TAG_FWREQ_FILE_ID) {
        None => {
            None
        },
        Some(items) => {
            Some(FileWantRequest { file_id: items })
        },
    }
}

pub const TAG_FWRESP_FILE_ID: u8 = 10;

/// A file availability answer.
#[derive(Debug, Clone)]
pub struct FileWantResponse {
    pub file_id: Vec<String>,
}

/// Mathematical content of a file availability answer.
pub struct FileWantResponseView {
    pub file_id: Seq<Seq<char>>,
}

impl View for FileWantResponse {
    type V = FileWantResponseView;

    open spec fn view(&self) -> FileWantResponseView {
        FileWantResponseView { file_id: str_views(self.file_id@) }
    }
}

/// The encoding of a file availability answer.
pub open spec fn spec_enc_file_want_response(v: FileWantResponseView) -> Seq<u8> {
    spec_enc_str_list(v.file_id, TAG_FWRESP_FILE_ID)
}

/// Appends the encoding of `m` to `out`.
pub fn encode_file_want_response_into(m: &FileWantResponse, out: &mut Vec<u8>)
    ensures
        final(out)@ == old(out)@ + spec_enc_file_want_response(m@),
{
    encode_str_list_into(&m.file_id, 0, TAG_FWRESP_FILE_ID, out);
    proof {
        assert(str_views(m.file_id@).skip(0) =~= str_views(m.file_id@));
    }
}

/// Decodes a file availability answer from exactly `buf[start..end]`.
pub fn decode_file_want_response_range(buf: &Vec<u8>, start: usize, end: usize) -> (r: Option<FileWantResponse>)
    requires
        start <= end <= buf@.len(),
    ensures
        (r matches Some(x) ==> buf@.subrange(start as int, end as int) == spec_enc_file_want_response(x@)),
        (forall|v: FileWantResponseView|
            buf@.subrange(start as int, end as int) == #[trigger] spec_enc_file_want_response(v) ==> (
            r matches Some(x) && x@ == v)),
{
    match decode_str_list(buf, start, end, TAG_FWRESP_FILE_ID) {
        None => {
            None
        },
        Some(items) => {
            Some(FileWantResponse { file_id: items })
        },
    }
}


pub const TAG_BR_PEER: u8 = 10;

pub const TAG_BR_MESSAGES: u8 = 18;

/// A batch pull answer: the requested entries in counter order, plus the
/// author's identity record when the caller started from counter 0.
#[derive(Debug, Clone)]
pub struct BatchMessageResponse {
    pub messages: Vec<DbMessage>,
    pub peer: Option<PeerRecord>,
}

/// Mathematical content of a batch pull answer.
pub struct BatchMessageResponseView {
    pub messages: Seq<DbMessageView>,
    pub peer: Option<PeerRecordView>,
}

/// The view of an optional identity record.
pub open spec fn opt_peer_view(p: Option<PeerRecord>) -> Option<PeerRecordView> {
    match p {
        Some(x) => Some(x@),
        None => None,
    }
}

impl View for BatchMessageResponse {
    type V = BatchMessageResponseView;

    open spec fn view(&self) -> BatchMessageResponseView {
        BatchMessageResponseView {
            messages: views_of(self.messages@),
            peer: opt_peer_view(self.peer),
        }
    }
}

/// The encoding of an optional identity record field.
pub open spec fn spec_enc_opt_peer(p: Option<PeerRecordView>, tag: u8) -> Seq<u8> {
    match p {
        Some(v) => spec_bytes_field(tag, spec_enc_peer(v)),
        None => Seq::<u8>::empty(),
    }
}

/// An encoded optional identity record is empty exactly when absent, and
/// otherwise starts with its key byte.
proof fn lemma_enc_opt_peer_shape(p: Option<PeerRecordView>, tag: u8)
    ensures
        p is None ==> spec_enc_opt_peer(p, tag) == Seq::<u8>::empty(),
        p is Some ==> spec_enc_opt_peer(p, tag).len() >= 2 && spec_enc_opt_peer(p, tag)[0] == tag,
{
    if p is Some {
        crate::wire::lemma_varint_len(spec_enc_peer(p->0).len() as u64);
        assert(spec_bytes_field(tag, spec_enc_peer(p->0))[0] == tag);
    }
}

/// Appends the encoding of an optional identity record to `out`.
pub fn encode_opt_peer_into(p: &Option<PeerRecord>, tag: u8, out: &mut Vec<u8>)
    ensures
        final(out)@ == old(out)@ + spec_enc_opt_peer(opt_peer_view(*p), tag),
{
    match p {
        Some(pr) => {
            let mut body: Vec<u8> = Vec::new();
            encode_peer_into(pr, &mut body);
            write_bytes_field(out, tag, &body);
        },
        None => {
            proof {
                assert(out@ =~= old(out)@ + spec_enc_opt_peer(opt_peer_view(*p), tag));
            }
        },
    }
}

/// The encoding of a batch pull answer.
pub open spec fn spec_enc_batch_response(v: BatchMessageResponseView) -> Seq<u8> {
    spec_enc_opt_peer(v.peer, TAG_BR_PEER) + spec_enc_message_list(v.messages, TAG_BR_MESSAGES)
}

/// Appends the encoding of `m` to `out`.
pub fn encode_batch_response_into(m: &BatchMessageResponse, out: &mut Vec<u8>)
    ensures
        final(out)@ == old(out)@ + spec_enc_batch_response(m@),
{
    encode_opt_peer_into(&m.peer, TAG_BR_PEER, out);
    encode_message_list_into(&m.messages, 0, TAG_BR_MESSAGES, out);
    proof {
        assert(views_of(m.messages@).skip(0) =~= views_of(m.messages@));
        assert(out@ =~= old(out)@ + spec_enc_batch_response(m@));
    }
}

/// Where the parts of an encoded batch pull answer sit in `buf[start..end]`.
proof fn lemma_enc_batch_response_split(
    buf: Seq<u8>,
    start: int,
    end: int,
    v: BatchMessageResponseView,
)
    requires
        0 <= start <= end <= buf.len(),
        buf.subrange(start, end) == spec_enc_batch_response(v),
    ensures
        v.peer is None ==> buf.subrange(start, end) == spec_enc_message_list(
            v.messages,
            TAG_BR_MESSAGES,
        ),
        (v.peer is Some ==> ({
            let f1 = spec_bytes_field(TAG_BR_PEER, spec_enc_peer(v.peer->0));
            &&& is_prefix_of(f1, buf.skip(start))
            &&& f1.len() <= end - start
            &&& buf.subrange(start + f1.len(), end) == spec_enc_message_list(
                v.messages,
                TAG_BR_MESSAGES,
            )
        })),
{
    if v.peer is Some {
        lemma_range_split(
            buf,
            start,
            end,
            spec_bytes_field(TAG_BR_PEER, spec_enc_peer(v.peer->0)),
            spec_enc_message_list(v.messages, TAG_BR_MESSAGES),
        );
    } else {
        assert(spec_enc_batch_response(v) =~= spec_enc_message_list(v.messages, TAG_BR_MESSAGES));
    }
}

/// Decodes a batch pull answer from exactly `buf[start..end]`.
#[verifier::rlimit(100)]
#[verifier::spinoff_prover]
pub fn decode_batch_response_range(buf: &Vec<u8>, start: usize, end: usize) -> (r: Option<
    BatchMessageResponse,
>)
    requires
        start <= end <= buf@.len(),
    ensures
        (r matches Some(x) ==> buf@.subrange(start as int, end as int) == spec_enc_batch_response(
            x@,
        )),
        (forall|v: BatchMessageResponseView|
            buf@.subrange(start as int, end as int) == #[trigger] spec_enc_batch_response(v) ==> (
            r matches Some(x) && x@ == v)),
{
    let ghost gbuf = buf@;
    let ghost gs = start as int;
    let ghost ge = end as int;
    if start < end && buf[start] == TAG_BR_PEER {
        proof {
            assert forall|v: BatchMessageResponseView|
                gbuf.subrange(gs, ge) == #[trigger] spec_enc_batch_response(v) implies (
            v.peer is Some && is_prefix_of(
                spec_bytes_field(TAG_BR_PEER, spec_enc_peer(v.peer->0)),
                gbuf.skip(gs),
            ) && spec_bytes_field(TAG_BR_PEER, spec_enc_peer(v.peer->0)).len() <= ge - gs
                && gbuf.subrange(
                gs + spec_bytes_field(TAG_BR_PEER, spec_enc_peer(v.peer->0)).len(),
                ge,
            ) == spec_enc_message_list(v.messages, TAG_BR_MESSAGES)) by {
                lemma_enc_batch_response_split(gbuf, gs, ge, v);
                if v.peer is None {
                    lemma_enc_message_list_shape(v.messages, TAG_BR_MESSAGES);
                    assert(gbuf.subrange(gs, ge)[0] == gbuf[gs]);
                }
            }
        }
        let (bs, be) = match read_field_extent(buf, start, TAG_BR_PEER) {
            None => {
                return None;
            },
            Some(p) => p,
        };
        if be > end {
            proof {
                assert forall|v: BatchMessageResponseView|
                    gbuf.subrange(gs, ge) != #[trigger] spec_enc_batch_response(v) by {}
            }
            return None;
        }
        let pr = match decode_peer_range(buf, bs, be) {
            None => {
                return None;
            },
            Some(x) => x,
        };
        let msgs = match decode_message_list(buf, be, end, TAG_BR_MESSAGES) {
            None => {
                return None;
            },
            Some(x) => x,
        };
        let x = BatchMessageResponse { messages: msgs, peer: Some(pr) };
        proof {
            assert(gbuf.subrange(gs, ge) =~= gbuf.subrange(gs, be as int) + gbuf.subrange(
                be as int,
                ge,
            ));
            assert(gbuf.subrange(gs, ge) == spec_enc_batch_response(x@));
            assert forall|v: BatchMessageResponseView|
                gbuf.subrange(gs, ge) == #[trigger] spec_enc_batch_response(v) implies x@ == v by {}
        }
        Some(x)
    } else {
        proof {
            assert forall|v: BatchMessageResponseView|
                gbuf.subrange(gs, ge) == #[trigger] spec_enc_batch_response(v) implies (
            v.peer is None && gbuf.subrange(gs, ge) == spec_enc_message_list(
                v.messages,
                TAG_BR_MESSAGES,
            )) by {
                lemma_enc_batch_response_split(gbuf, gs, ge, v);
                if v.peer is Some {
                    lemma_enc_opt_peer_shape(v.peer, TAG_BR_PEER);
                    assert(gbuf.subrange(gs, ge)[0] == gbuf[gs]);
                }
            }
        }
        let msgs = match decode_message_list(buf, start, end, TAG_BR_MESSAGES) {
            None => {
                return None;
            },
            Some(x) => x,
        };
        let x = BatchMessageResponse { messages: msgs, peer: None };
        proof {
            assert(gbuf.subrange(gs, ge) == spec_enc_batch_response(x@));
            assert forall|v: BatchMessageResponseView|
                gbuf.subrange(gs, ge) == #[trigger] spec_enc_batch_response(v) implies x@ == v by {}
        }
        Some(x)
    }
}

pub const TAG_MS_PEER_ID: u8 = 10;

pub const TAG_MS_PEER: u8 = 18;

pub const TAG_MS_MESSAGES: u8 = 26;

/// A push of new entries of one authoring peer, with the author's identity
/// record attached when the batch includes the first entry.
#[derive(Debug, Clone)]
pub struct WireMessages {
    pub peer_id: String,
    pub peer: Option<PeerRecord>,
    pub messages: Vec<DbMessage>,
}

/// Mathematical content of a push of new entries.
pub struct WireMessagesView {
    pub peer_id: Seq<char>,
    pub peer: Option<PeerRecordView>,
    pub messages: Seq<DbMessageView>,
}

impl View for WireMessages {
    type V = WireMessagesView;

    open spec fn view(&self) -> WireMessagesView {
        WireMessagesView {
            peer_id: self.peer_id@,
            peer: opt_peer_view(self.peer),
            messages: views_of(self.messages@),
        }
    }
}

/// The encoding of a push of new entries.
pub open spec fn spec_enc_messages(v: WireMessagesView) -> Seq<u8> {
    spec_str_field(TAG_MS_PEER_ID, v.peer_id) + spec_enc_opt_peer(v.peer, TAG_MS_PEER)
        + spec_enc_message_list(v.messages, TAG_MS_MESSAGES)
}

/// Appends the encoding of `m` to `out`.
pub fn encode_messages_into(m: &WireMessages, out: &mut Vec<u8>)
    ensures
        final(out)@ == old(out)@ + spec_enc_messages(m@),
{
    write_str_field(out, TAG_MS_PEER_ID, &m.peer_id);
    encode_opt_peer_into(&m.peer, TAG_MS_PEER, out);
    encode_message_list_into(&m.messages, 0, TAG_MS_MESSAGES, out);
    proof {
        assert(views_of(m.messages@).skip(0) =~= views_of(m.messages@));
        assert(out@ =~= old(out)@ + spec_enc_messages(m@));
    }
}

/// Where the parts of an encoded push sit in `buf[start..end]`.
proof fn lemma_enc_messages_split(buf: Seq<u8>, start: int, end: int, v: WireMessagesView)
    requires
        0 <= start <= end <= buf.len(),
        buf.subrange(start, end) == spec_enc_messages(v),
    ensures
        ({
            let f1 = spec_str_field(TAG_MS_PEER_ID, v.peer_id);
            &&& is_prefix_of(f1, buf.skip(start))
            &&& f1.len() <= end - start
            &&& (v.peer is None ==> buf.subrange(start + f1.len(), end) == spec_enc_message_list(
                v.messages,
                TAG_MS_MESSAGES,
            ))
            &&& (v.peer is Some ==> ({
                let f2 = spec_bytes_field(TAG_MS_PEER, spec_enc_peer(v.peer->0));
                &&& is_prefix_of(f2, buf.skip(start + f1.len()))
                &&& f1.len() + f2.len() <= end - start
                &&& buf.subrange(start + f1.len() + f2.len(), end) == spec_enc_message_list(
                    v.messages,
                    TAG_MS_MESSAGES,
                )
            }))
        }),
{
    let f1 = spec_str_field(TAG_MS_PEER_ID, v.peer_id);
    let f2 = spec_enc_opt_peer(v.peer, TAG_MS_PEER);
    let f3 = spec_enc_message_list(v.messages, TAG_MS_MESSAGES);
    assert(spec_enc_messages(v) =~= f1 + (f2 + f3));
    lemma_range_split(buf, start, end, f1, f2 + f3);
    lemma_range_split(buf, start + f1.len(), end, f2, f3);
    if v.peer is None {
        assert(f2 =~= Seq::<u8>::empty());
        assert(buf.subrange(start + f1.len(), end) =~= buf.subrange(
            start + f1.len() + f2.len(),
            end,
        ));
    }
}

/// Decodes a push of new entries from exactly `buf[start..end]`.
#[verifier::rlimit(100)]
#[verifier::spinoff_prover]
pub fn decode_messages_range(buf: &Vec<u8>, start: usize, end: usize) -> (r: Option<WireMessages>)
    requires
        start <= end <= buf@.len(),
    ensures
        (r matches Some(x) ==> buf@.subrange(start as int, end as int) == spec_enc_messages(x@)),
        (forall|v: WireMessagesView|
            buf@.subrange(start as int, end as int) == #[trigger] spec_enc_messages(v) ==> (
            r matches Some(x) && x@ == v)),
{
    let ghost gbuf = buf@;
    let ghost gs = start as int;
    let ghost ge = end as int;
    let r1 = read_str_field(buf, start, TAG_MS_PEER_ID);
    proof {
        assert forall|v: WireMessagesView|
            gbuf.subrange(gs, ge) == #[trigger] spec_enc_messages(v) implies is_prefix_of(
            spec_str_field(TAG_MS_PEER_ID, v.peer_id),
            gbuf.skip(gs),
        ) by {
            lemma_enc_messages_split(gbuf, gs, ge, v);
        }
    }
    let (peer_id, p1) = match r1 {
        None => {
            return None;
        },
        Some(p) => p,
    };
    if p1 > end {
        proof {
            assert forall|v: WireMessagesView|
                gbuf.subrange(gs, ge) != #[trigger] spec_enc_messages(v) by {
                if gbuf.subrange(gs, ge) == spec_enc_messages(v) {
                    lemma_enc_messages_split(gbuf, gs, ge, v);
                }
            }
        }
        return None;
    }
    if p1 < end && buf[p1] == TAG_MS_PEER {
        proof {
            assert forall|v: WireMessagesView|
                gbuf.subrange(gs, ge) == #[trigger] spec_enc_messages(v) implies (v.peer is Some
                && is_prefix_of(
                spec_bytes_field(TAG_MS_PEER, spec_enc_peer(v.peer->0)),
                gbuf.skip(p1 as int),
            ) && spec_bytes_field(TAG_MS_PEER, spec_enc_peer(v.peer->0)).len() <= ge - p1
                && gbuf.subrange(
                p1 + spec_bytes_field(TAG_MS_PEER, spec_enc_peer(v.peer->0)).len(),
                ge,
            ) == spec_enc_message_list(v.messages, TAG_MS_MESSAGES)) by {
                lemma_enc_messages_split(gbuf, gs, ge, v);
                if v.peer is None {
                    lemma_enc_message_list_shape(v.messages, TAG_MS_MESSAGES);
                    assert(gbuf.subrange(p1 as int, ge)[0] == gbuf[p1 as int]);
                }
            }
        }
        let (bs, be) = match read_field_extent(buf, p1, TAG_MS_PEER) {
            None => {
                return None;
            },
            Some(p) => p,
        };
        if be > end {
            proof {
                assert forall|v: WireMessagesView|
                    gbuf.subrange(gs, ge) != #[trigger] spec_enc_messages(v) by {}
            }
            return None;
        }
        let pr = match decode_peer_range(buf, bs, be) {
            None => {
                return None;
            },
            Some(x) => x,
        };
        let msgs = match decode_message_list(buf, be, end, TAG_MS_MESSAGES) {
            None => {
                return None;
            },
            Some(x) => x,
        };
        let x = WireMessages { peer_id, peer: Some(pr), messages: msgs };
        proof {
            assert(gbuf.subrange(gs, ge) =~= gbuf.subrange(gs, p1 as int) + gbuf.subrange(
                p1 as int,
                be as int,
            ) + gbuf.subrange(be as int, ge));
            assert(gbuf.subrange(gs, ge) == spec_enc_messages(x@));
            assert forall|v: WireMessagesView|
                gbuf.subrange(gs, ge) == #[trigger] spec_enc_messages(v) implies x@ == v by {}
        }
        Some(x)
    } else {
        proof {
            assert forall|v: WireMessagesView|
                gbuf.subrange(gs, ge) == #[trigger] spec_enc_messages(v) implies (v.peer is None
                && gbuf.subrange(p1 as int, ge) == spec_enc_message_list(
                v.messages,
                TAG_MS_MESSAGES,
            )) by {
                lemma_enc_messages_split(gbuf, gs, ge, v);
                if v.peer is Some {
                    lemma_enc_opt_peer_shape(v.peer, TAG_MS_PEER);
                    assert(gbuf.subrange(p1 as int, ge)[0] == gbuf[p1 as int]);
                }
            }
        }
        let msgs = match decode_message_list(buf, p1, end, TAG_MS_MESSAGES) {
            None => {
                return None;
            },
            Some(x) => x,
        };
        let x = WireMessages { peer_id, peer: None, messages: msgs };
        proof {
            assert(gbuf.subrange(gs, ge) =~= gbuf.subrange(gs, p1 as int) + gbuf.subrange(
                p1 as int,
                ge,
            ));
            assert(gbuf.subrange(gs, ge) == spec_enc_messages(x@));
            assert forall|v: WireMessagesView|
                gbuf.subrange(gs, ge) == #[trigger] spec_enc_messages(v) implies x@ == v by {}
        }
        Some(x)
    }
}

pub const TAG_ENV_COMPARE_REQUEST: u8 = 10;

pub const TAG_ENV_COMPARE_RESPONSE: u8 = 18;

pub const TAG_ENV_BATCH_MESSAGE_REQUEST: u8 = 26;

pub const TAG_ENV_BATCH_MESSAGE_RESPONSE: u8 = 34;

pub const TAG_ENV_MESSAGES: u8 = 42;

pub const TAG_ENV_MESSAGE_ACCEPT: u8 = 50;

pub const TAG_ENV_FILE_WANT_REQUEST: u8 = 58;

pub const TAG_ENV_FILE_WANT_RESPONSE: u8 = 66;

pub const TAG_ENV_FILE_DOWNLOAD_REQUEST: u8 = 74;

pub const TAG_ENV_FILE_DOWNLOAD_RESPONSE: u8 = 82;

/// The envelope of every RPC body: exactly one variant.
#[derive(Debug, Clone)]
pub enum ChatMessage {
    CompareRequest(CompareRequest),
    CompareResponse(CompareResponse),
    BatchMessageRequest(BatchMessageRequest),
    BatchMessageResponse(BatchMessageResponse),
    Messages(WireMessages),
    MessageAccept(MessageAccept),
    FileWantRequest(FileWantRequest),
    FileWantResponse(FileWantResponse),
    FileDownloadRequest(FileDownloadRequest),
    FileDownloadResponse(FileDownloadResponse),
}

/// Mathematical content of an envelope.
pub enum ChatMessageView {
    CompareRequest(CompareRequestView),
    CompareResponse(CompareResponseView),
    BatchMessageRequest(BatchMessageRequestView),
    BatchMessageResponse(BatchMessageResponseView),
    Messages(WireMessagesView),
    MessageAccept(MessageAcceptView),
    FileWantRequest(FileWantRequestView),
    FileWantResponse(FileWantResponseView),
    FileDownloadRequest(FileDownloadRequestView),
    FileDownloadResponse(FileDownloadResponseView),
}

impl View for ChatMessage {
    type V = ChatMessageView;

    open spec fn view(&self) -> ChatMessageView {
        match self {
            ChatMessage::CompareRequest(inner) => ChatMessageView::CompareRequest(inner@),
            ChatMessage::CompareResponse(inner) => ChatMessageView::CompareResponse(inner@),
            ChatMessage::BatchMessageRequest(inner) => ChatMessageView::BatchMessageRequest(inner@),
            ChatMessage::BatchMessageResponse(inner) => ChatMessageView::BatchMessageResponse(inner@),
            ChatMessage::Messages(inner) => ChatMessageView::Messages(inner@),
            ChatMessage::MessageAccept(inner) => ChatMessageView::MessageAccept(inner@),
            ChatMessage::FileWantRequest(inner) => ChatMessageView::FileWantRequest(inner@),
            ChatMessage::FileWantResponse(inner) => ChatMessageView::FileWantResponse(inner@),
            ChatMessage::FileDownloadRequest(inner) => ChatMessageView::FileDownloadRequest(inner@),
            ChatMessage::FileDownloadResponse(inner) => ChatMessageView::FileDownloadResponse(inner@),
        }
    }
}

/// The envelope key byte each variant is framed under.
pub open spec fn spec_env_tag(v: ChatMessageView) -> u8 {
    match v {
        ChatMessageView::CompareRequest(_) => TAG_ENV_COMPARE_REQUEST,
        ChatMessageView::CompareResponse(_) => TAG_ENV_COMPARE_RESPONSE,
        ChatMessageView::BatchMessageRequest(_) => TAG_ENV_BATCH_MESSAGE_REQUEST,
        ChatMessageView::BatchMessageResponse(_) => TAG_ENV_BATCH_MESSAGE_RESPONSE,
        ChatMessageView::Messages(_) => TAG_ENV_MESSAGES,
        ChatMessageView::MessageAccept(_) => TAG_ENV_MESSAGE_ACCEPT,
        ChatMessageView::FileWantRequest(_) => TAG_ENV_FILE_WANT_REQUEST,
        ChatMessageView::FileWantResponse(_) => TAG_ENV_FILE_WANT_RESPONSE,
        ChatMessageView::FileDownloadRequest(_) => TAG_ENV_FILE_DOWNLOAD_REQUEST,
        ChatMessageView::FileDownloadResponse(_) => TAG_ENV_FILE_DOWNLOAD_RESPONSE,
    }
}

/// The encoding of an envelope: its variant as one length-delimited field.
pub open spec fn spec_enc_chat(v: ChatMessageView) -> Seq<u8> {
    match v {
        ChatMessageView::CompareRequest(inner) => spec_bytes_field(TAG_ENV_COMPARE_REQUEST, spec_enc_compare_request(inner)),
        ChatMessageView::CompareResponse(inner) => spec_bytes_field(TAG_ENV_COMPARE_RESPONSE, spec_enc_compare_response(inner)),
        ChatMessageView::BatchMessageRequest(inner) => spec_bytes_field(TAG_ENV_BATCH_MESSAGE_REQUEST, spec_enc_batch_request(inner)),
        ChatMessageView::BatchMessageResponse(inner) => spec_bytes_field(TAG_ENV_BATCH_MESSAGE_RESPONSE, spec_enc_batch_response(inner)),
        ChatMessageView::Messages(inner) => spec_bytes_field(TAG_ENV_MESSAGES, spec_enc_messages(inner)),
        ChatMessageView::MessageAccept(inner) => spec_bytes_field(TAG_ENV_MESSAGE_ACCEPT, spec_enc_accept(inner)),
        ChatMessageView::FileWantRequest(inner) => spec_bytes_field(TAG_ENV_FILE_WANT_REQUEST, spec_enc_file_want_request(inner)),
        ChatMessageView::FileWantResponse(inner) => spec_bytes_field(TAG_ENV_FILE_WANT_RESPONSE, spec_enc_file_want_response(inner)),
        ChatMessageView::FileDownloadRequest(inner) => spec_bytes_field(TAG_ENV_FILE_DOWNLOAD_REQUEST, spec_enc_download_request(inner)),
        ChatMessageView::FileDownloadResponse(inner) => spec_bytes_field(TAG_ENV_FILE_DOWNLOAD_RESPONSE, spec_enc_download_response(inner)),
    }
}

/// An encoded envelope starts with its variant's key byte and is never
/// empty.
proof fn lemma_enc_chat_shape(v: ChatMessageView)
    ensures
        spec_enc_chat(v).len() >= 2,
        spec_enc_chat(v)[0] == spec_env_tag(v),
{
    match v {
        ChatMessageView::CompareRequest(inner) => {
            crate::wire::lemma_varint_len(spec_enc_compare_request(inner).len() as u64);
            assert(spec_bytes_field(TAG_ENV_COMPARE_REQUEST, spec_enc_compare_request(inner))[0] == TAG_ENV_COMPARE_REQUEST);
        },
        ChatMessageView::CompareResponse(inner) => {
            crate::wire::lemma_varint_len(spec_enc_compare_response(inner).len() as u64);
            assert(spec_bytes_field(TAG_ENV_COMPARE_RESPONSE, spec_enc_compare_response(inner))[0] == TAG_ENV_COMPARE_RESPONSE);
        },
        ChatMessageView::BatchMessageRequest(inner) => {
            crate::wire::lemma_varint_len(spec_enc_batch_request(inner).len() as u64);
            assert(spec_bytes_field(TAG_ENV_BATCH_MESSAGE_REQUEST, spec_enc_batch_request(inner))[0] == TAG_ENV_BATCH_MESSAGE_REQUEST);
        },
        ChatMessageView::BatchMessageResponse(inner) => {
            crate::wire::lemma_varint_len(spec_enc_batch_response(inner).len() as u64);
            assert(spec_bytes_field(TAG_ENV_BATCH_MESSAGE_RESPONSE, spec_enc_batch_response(inner))[0] == TAG_ENV_BATCH_MESSAGE_RESPONSE);
        },
        ChatMessageView::Messages(inner) => {
            crate::wire::lemma_varint_len(spec_enc_messages(inner).len() as u64);
            assert(spec_bytes_field(TAG_ENV_MESSAGES, spec_enc_messages(inner))[0] == TAG_ENV_MESSAGES);
        },
        ChatMessageView::MessageAccept(inner) => {
            crate::wire::lemma_varint_len(spec_enc_accept(inner).len() as u64);
            assert(spec_bytes_field(TAG_ENV_MESSAGE_ACCEPT, spec_enc_accept(inner))[0] == TAG_ENV_MESSAGE_ACCEPT);
        },
        ChatMessageView::FileWantRequest(inner) => {
            crate::wire::lemma_varint_len(spec_enc_file_want_request(inner).len() as u64);
            assert(spec_bytes_field(TAG_ENV_FILE_WANT_REQUEST, spec_enc_file_want_request(inner))[0] == TAG_ENV_FILE_WANT_REQUEST);
        },
        ChatMessageView::FileWantResponse(inner) => {
            crate::wire::lemma_varint_len(spec_enc_file_want_response(inner).len() as u64);
            assert(spec_bytes_field(TAG_ENV_FILE_WANT_RESPONSE, spec_enc_file_want_response(inner))[0] == TAG_ENV_FILE_WANT_RESPONSE);
        },
        ChatMessageView::FileDownloadRequest(inner) => {
            crate::wire::lemma_varint_len(spec_enc_download_request(inner).len() as u64);
            assert(spec_bytes_field(TAG_ENV_FILE_DOWNLOAD_REQUEST, spec_enc_download_request(inner))[0] == TAG_ENV_FILE_DOWNLOAD_REQUEST);
        },
        ChatMessageView::FileDownloadResponse(inner) => {
            crate::wire::lemma_varint_len(spec_enc_download_response(inner).len() as u64);
            assert(spec_bytes_field(TAG_ENV_FILE_DOWNLOAD_RESPONSE, spec_enc_download_response(inner))[0] == TAG_ENV_FILE_DOWNLOAD_RESPONSE);
        },
    }
}

impl ChatMessage {
    /// The full wire encoding of this envelope.
    pub fn encode(&self) -> (r: Vec<u8>)
        ensures
            r@ == spec_enc_chat(self@),
    {
        let mut out: Vec<u8> = Vec::new();
        match self {
            ChatMessage::CompareRequest(inner) => {
                let mut body: Vec<u8> = Vec::new();
                encode_compare_request_into(inner, &mut body);
                write_bytes_field(&mut out, TAG_ENV_COMPARE_REQUEST, &body);
            },
            ChatMessage::CompareResponse(inner) => {
                let mut body: Vec<u8> = Vec::new();
                encode_compare_response_into(inner, &mut body);
                write_bytes_field(&mut out, TAG_ENV_COMPARE_RESPONSE, &body);
            },
            ChatMessage::BatchMessageRequest(inner) => {
                let mut body: Vec<u8> = Vec::new();
                encode_batch_request_into(inner, &mut body);
                write_bytes_field(&mut out, TAG_ENV_BATCH_MESSAGE_REQUEST, &body);
            },
            ChatMessage::BatchMessageResponse(inner) => {
                let mut body: Vec<u8> = Vec::new();
                encode_batch_response_into(inner, &mut body);
                write_bytes_field(&mut out, TAG_ENV_BATCH_MESSAGE_RESPONSE, &body);
            },
            ChatMessage::Messages(inner) => {
                let mut body: Vec<u8> = Vec::new();
                encode_messages_into(inner, &mut body);
                write_bytes_field(&mut out, TAG_ENV_MESSAGES, &body);
            },
            ChatMessage::MessageAccept(inner) => {
                let mut body: Vec<u8> = Vec::new();
                encode_accept_into(inner, &mut body);
                write_bytes_field(&mut out, TAG_ENV_MESSAGE_ACCEPT, &body);
            },
            ChatMessage::FileWantRequest(inner) => {
                let mut body: Vec<u8> = Vec::new();
                encode_file_want_request_into(inner, &mut body);
                write_bytes_field(&mut out, TAG_ENV_FILE_WANT_REQUEST, &body);
            },
            ChatMessage::FileWantResponse(inner) => {
                let mut body: Vec<u8> = Vec::new();
                encode_file_want_response_into(inner, &mut body);
                write_bytes_field(&mut out, TAG_ENV_FILE_WANT_RESPONSE, &body);
            },
            ChatMessage::FileDownloadRequest(inner) => {
                let mut body: Vec<u8> = Vec::new();
                encode_download_request_into(inner, &mut body);
                write_bytes_field(&mut out, TAG_ENV_FILE_DOWNLOAD_REQUEST, &body);
            },
            ChatMessage::FileDownloadResponse(inner) => {
                let mut body: Vec<u8> = Vec::new();
                encode_download_response_into(inner, &mut body);
                write_bytes_field(&mut out, TAG_ENV_FILE_DOWNLOAD_RESPONSE, &body);
            },
        }
        proof {
            assert(out@ =~= spec_enc_chat(self@));
        }
        out
    }

    /// Decodes an envelope from the whole of `buf`.  Exact: succeeds only on
    /// precisely the bytes `encode` emits, and then returns the encoded
    /// value.
    #[verifier::rlimit(100)]
    #[verifier::spinoff_prover]
    pub fn decode(buf: &Vec<u8>) -> (r: Option<ChatMessage>)
        ensures
            (r matches Some(x) ==> buf@ == spec_enc_chat(x@)),
            (forall|v: ChatMessageView|
                buf@ == #[trigger] spec_enc_chat(v) ==> (r matches Some(x) && x@ == v)),
    {
        let ghost gbuf = buf@;
        let n = buf.len();
        if n == 0 {
            proof {
                assert forall|v: ChatMessageView| gbuf != #[trigger] spec_enc_chat(v) by {
                    lemma_enc_chat_shape(v);
                }
            }
            return None;
        }
        let t = buf[0];
        proof {
            assert(gbuf.skip(0) =~= gbuf);
            assert forall|v: ChatMessageView|
                gbuf == #[trigger] spec_enc_chat(v) implies spec_env_tag(v) == t && is_prefix_of(
                spec_enc_chat(v),
                gbuf.skip(0),
            ) && spec_enc_chat(v).len() == n by {
                lemma_enc_chat_shape(v);
                assert(gbuf.take(spec_enc_chat(v).len() as int) =~= spec_enc_chat(v));
            }
        }
        if t == TAG_ENV_COMPARE_REQUEST {
            let (bs, be) = match read_field_extent(buf, 0, TAG_ENV_COMPARE_REQUEST) {
                None => {
                    return None;
                },
                Some(p) => p,
            };
            if be != n {
                proof {
                    assert forall|v: ChatMessageView| gbuf != #[trigger] spec_enc_chat(v) by {}
                }
                return None;
            }
            let inner = match decode_compare_request_range(buf, bs, be) {
                None => {
                    return None;
                },
                Some(x) => x,
            };
            let x = ChatMessage::CompareRequest(inner);
            proof {
                assert(gbuf =~= gbuf.subrange(0, n as int));
                assert(gbuf == spec_enc_chat(x@));
                assert forall|v: ChatMessageView|
                    gbuf == #[trigger] spec_enc_chat(v) implies x@ == v by {}
            }
            Some(x)
        } else if t == TAG_ENV_COMPARE_RESPONSE {
            let (bs, be) = match read_field_extent(buf, 0, TAG_ENV_COMPARE_RESPONSE) {
                None => {
                    return None;
                },
                Some(p) => p,
            };
            if be != n {
                proof {
                    assert forall|v: ChatMessageView| gbuf != #[trigger] spec_enc_chat(v) by {}
                }
                return None;
            }
            let inner = match decode_compare_response_range(buf, bs, be) {
                None => {
                    return None;
                },
                Some(x) => x,
            };
            let x = ChatMessage::CompareResponse(inner);
            proof {
                assert(gbuf =~= gbuf.subrange(0, n as int));
                assert(gbuf == spec_enc_chat(x@));
                assert forall|v: ChatMessageView|
                    gbuf == #[trigger] spec_enc_chat(v) implies x@ == v by {}
            }
            Some(x)
        } else if t == TAG_ENV_BATCH_MESSAGE_REQUEST {
            let (bs, be) = match read_field_extent(buf, 0, TAG_ENV_BATCH_MESSAGE_REQUEST) {
                None => {
                    return None;
                },
                Some(p) => p,
            };
            if be != n {
                proof {
                    assert forall|v: ChatMessageView| gbuf != #[trigger] spec_enc_chat(v) by {}
                }
                return None;
            }
            let inner = match decode_batch_request_range(buf, bs, be) {
                None => {
                    return None;
                },
                Some(x) => x,
            };
            let x = ChatMessage::BatchMessageRequest(inner);
            proof {
                assert(gbuf =~= gbuf.subrange(0, n as int));
                assert(gbuf == spec_enc_chat(x@));
                assert forall|v: ChatMessageView|
                    gbuf == #[trigger] spec_enc_chat(v) implies x@ == v by {}
            }
            Some(x)
        } else if t == TAG_ENV_BATCH_MESSAGE_RESPONSE {
            let (bs, be) = match read_field_extent(buf, 0, TAG_ENV_BATCH_MESSAGE_RESPONSE) {
                None => {
                    return None;
                },
                Some(p) => p,
            };
            if be != n {
                proof {
                    assert forall|v: ChatMessageView| gbuf != #[trigger] spec_enc_chat(v) by {}
                }
                return None;
            }
            let inner = match decode_batch_response_range(buf, bs, be) {
                None => {
                    return None;
                },
                Some(x) => x,
            };
            let x = ChatMessage::BatchMessageResponse(inner);
            proof {
                assert(gbuf =~= gbuf.subrange(0, n as int));
                assert(gbuf == spec_enc_chat(x@));
                assert forall|v: ChatMessageView|
                    gbuf == #[trigger] spec_enc_chat(v) implies x@ == v by {}
            }
            Some(x)
        } else if t == TAG_ENV_MESSAGES {
            let (bs, be) = match read_field_extent(buf, 0, TAG_ENV_MESSAGES) {
                None => {
                    return None;
                },
                Some(p) => p,
            };
            if be != n {
                proof {
                    assert forall|v: ChatMessageView| gbuf != #[trigger] spec_enc_chat(v) by {}
                }
                return None;
            }
            let inner = match decode_messages_range(buf, bs, be) {
                None => {
                    return None;
                },
                Some(x) => x,
            };
            let x = ChatMessage::Messages(inner);
            proof {
                assert(gbuf =~= gbuf.subrange(0, n as int));
                assert(gbuf == spec_enc_chat(x@));
                assert forall|v: ChatMessageView|
                    gbuf == #[trigger] spec_enc_chat(v) implies x@ == v by {}
            }
            Some(x)
        } else if t == TAG_ENV_MESSAGE_ACCEPT {
            let (bs, be) = match read_field_extent(buf, 0, TAG_ENV_MESSAGE_ACCEPT) {
                None => {
                    return None;
                },
                Some(p) => p,
            };
            if be != n {
                proof {
                    assert forall|v: ChatMessageView| gbuf != #[trigger] spec_enc_chat(v) by {}
                }
                return None;
            }
            let inner = match decode_accept_range(buf, bs, be) {
                None => {
                    return None;
                },
                Some(x) => x,
            };
            let x = ChatMessage::MessageAccept(inner);
            proof {
                assert(gbuf =~= gbuf.subrange(0, n as int));
                assert(gbuf == spec_enc_chat(x@));
                assert forall|v: ChatMessageView|
                    gbuf == #[trigger] spec_enc_chat(v) implies x@ == v by {}
            }
            Some(x)
        } else if t == TAG_ENV_FILE_WANT_REQUEST {
            let (bs, be) = match read_field_extent(buf, 0, TAG_ENV_FILE_WANT_REQUEST) {
                None => {
                    return None;
                },
                Some(p) => p,
            };
            if be != n {
                proof {
                    assert forall|v: ChatMessageView| gbuf != #[trigger] spec_enc_chat(v) by {}
                }
                return None;
            }
            let inner = match decode_file_want_request_range(buf, bs, be) {
                None => {
                    return None;
                },
                Some(x) => x,
            };
            let x = ChatMessage::FileWantRequest(inner);
            proof {
                assert(gbuf =~= gbuf.subrange(0, n as int));
                assert(gbuf == spec_enc_chat(x@));
                assert forall|v: ChatMessageView|
                    gbuf == #[trigger] spec_enc_chat(v) implies x@ == v by {}
            }
            Some(x)
        } else if t == TAG_ENV_FILE_WANT_RESPONSE {
            let (bs, be) = match read_field_extent(buf, 0, TAG_ENV_FILE_WANT_RESPONSE) {
                None => {
                    return None;
                },
                Some(p) => p,
            };
            if be != n {
                proof {
                    assert forall|v: ChatMessageView| gbuf != #[trigger] spec_enc_chat(v) by {}
                }
                return None;
            }
            let inner = match decode_file_want_response_range(buf, bs, be) {
                None => {
                    return None;
                },
                Some(x) => x,
            };
            let x = ChatMessage::FileWantResponse(inner);
            proof {
                assert(gbuf =~= gbuf.subrange(0, n as int));
                assert(gbuf == spec_enc_chat(x@));
                assert forall|v: ChatMessageView|
                    gbuf == #[trigger] spec_enc_chat(v) implies x@ == v by {}
            }
            Some(x)
        } else if t == TAG_ENV_FILE_DOWNLOAD_REQUEST {
            let (bs, be) = match read_field_extent(buf, 0, TAG_ENV_FILE_DOWNLOAD_REQUEST) {
                None => {
                    return None;
                },
                Some(p) => p,
            };
            if be != n {
                proof {
                    assert forall|v: ChatMessageView| gbuf != #[trigger] spec_enc_chat(v) by {}
                }
                return None;
            }
            let inner = match decode_download_request_range(buf, bs, be) {
                None => {
                    return None;
                },
                Some(x) => x,
            };
            let x = ChatMessage::FileDownloadRequest(inner);
            proof {
                assert(gbuf =~= gbuf.subrange(0, n as int));
                assert(gbuf == spec_enc_chat(x@));
                assert forall|v: ChatMessageView|
                    gbuf == #[trigger] spec_enc_chat(v) implies x@ == v by {}
            }
            Some(x)
        } else if t == TAG_ENV_FILE_DOWNLOAD_RESPONSE {
            let (bs, be) = match read_field_extent(buf, 0, TAG_ENV_FILE_DOWNLOAD_RESPONSE) {
                None => {
                    return None;
                },
                Some(p) => p,
            };
            if be != n {
                proof {
                    assert forall|v: ChatMessageView| gbuf != #[trigger] spec_enc_chat(v) by {}
                }
                return None;
            }
            let inner = match decode_download_response_range(buf, bs, be) {
                None => {
                    return None;
                },
                Some(x) => x,
            };
            let x = ChatMessage::FileDownloadResponse(inner);
            proof {
                assert(gbuf =~= gbuf.subrange(0, n as int));
                assert(gbuf == spec_enc_chat(x@));
                assert forall|v: ChatMessageView|
                    gbuf == #[trigger] spec_enc_chat(v) implies x@ == v by {}
            }
            Some(x)
        } else {
            proof {
                assert forall|v: ChatMessageView| gbuf != #[trigger] spec_enc_chat(v) by {}
            }
            None
        }
    }
}


/// The marker an undecodable body is reported with.
#[derive(Debug, Clone, Copy, PartialEq, Eq, Structural)]
pub struct DecodeError;

impl ChatMessage {
    /// Encodes `m` and decodes the bytes again.  Its contract is the round
    /// trip law: for every envelope value, decoding the encoding returns the
    /// same value.
    pub fn encode_decode_round_trip(&self) -> (r: ChatMessage)
        ensures
            r@ == self@,
    {
        let buf = self.encode();
        match ChatMessage::decode(&buf) {
            Some(x) => x,
            None => {
                proof {
                    assert(false);
                }
                ChatMessage::MessageAccept(MessageAccept { counter: 0 })
            },
        }
    }
}

/// Decodes a payload body from the whole of `bytes`.
pub fn decode_payload(bytes: &Vec<u8>) -> (r: Option<MessagePayload>)
    ensures
        (r matches Some(x) ==> bytes@ == spec_enc_payload(x@)),
        (forall|v: MessagePayloadView|
            bytes@ == #[trigger] spec_enc_payload(v) ==> (r matches Some(x) && x@ == v)),
{
    let n = bytes.len();
    let r = decode_payload_range(bytes, 0, n);
    proof {
        assert(bytes@.subrange(0, n as int) =~= bytes@);
    }
    r
}

/// Encodes a payload body on its own.
pub fn encode_payload(m: &MessagePayload) -> (r: Vec<u8>)
    ensures
        r@ == spec_enc_payload(m@),
{
    let mut out: Vec<u8> = Vec::new();
    encode_payload_into(m, &mut out);
    proof {
        assert(out@ =~= spec_enc_payload(m@));
    }
    out
}

impl crate::models::MessageBuilder {
    /// The finished entry: counter and order 0 (both assigned on append) and
    /// the payload bytes carrying the structured body.
    pub fn build(self) -> (r: DbMessage)
        ensures
            r@.id == self.id@,
            r@.counter == 0,
            r@.order == 0,
            r@.timestamp == self.timestamp,
            r@.peer_id == self.peer_id@,
            r@.payload == spec_enc_payload(
                MessagePayloadView {
                    text: match self.text {
                        Some(t) => t@,
                        None => Seq::<char>::empty(),
                    },
                    file_id: match self.file_id {
                        Some(f) => f@,
                        None => Seq::<char>::empty(),
                    },
                    reply_id: Seq::<char>::empty(),
                    mentions: Seq::<Seq<char>>::empty(),
                },
            ),
    {
        let text = match self.text {
            Some(t) => t,
            None => String::new(),
        };
        let file_id = match self.file_id {
            Some(f) => f,
            None => String::new(),
        };
        let payload = MessagePayload {
            text,
            file_id,
            reply_id: String::new(),
            mentions: Vec::new(),
        };
        let ghost pv = payload@;
        let payload_bytes = encode_payload(&payload);
        proof {
            assert(str_views(Seq::<String>::empty()) =~= Seq::<Seq<char>>::empty());
            assert(pv.mentions =~= Seq::<Seq<char>>::empty());
        }
        DbMessage {
            id: self.id,
            counter: 0,
            timestamp: self.timestamp,
            order: 0,
            payload: payload_bytes,
            peer_id: self.peer_id,
        }
    }
}

} // verus!
