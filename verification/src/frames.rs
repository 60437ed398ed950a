//! The encrypted stream's framing: each write becomes one frame holding a
//! two-byte big-endian length, a fresh 12-byte nonce, and the AES-256-GCM
//! ciphertext with its tag.  A reader of the concatenated frames sees the
//! concatenation of the plaintexts, in order.

use vstd::prelude::*;

use crate::crypto::{gcm_open, gcm_seal, random_nonce_12, spec_gcm_seal};
use crate::wire::{append_bytes, copy_range, lemma_range_split};

verus! {

/// The most plaintext one frame can carry: the length field covers the nonce
/// and the 16-byte tag.
pub const MAX_FRAME_PLAINTEXT: usize = 65507;

/// A 16-bit length, big endian.
pub open spec fn spec_be16(n: u16) -> Seq<u8> {
    seq![(n / 256) as u8, (n % 256) as u8]
}

/// One sealed frame: length, nonce, ciphertext with tag.
pub open spec fn spec_sealed_frame(key: Seq<u8>, nonce: Seq<u8>, plain: Seq<u8>) -> Seq<u8> {
    let ct = spec_gcm_seal(key, nonce, plain);
    spec_be16((12 + ct.len()) as u16) + nonce + ct
}

/// A nonce-plaintext list that describes a well-formed frame sequence: every
/// nonce is 12 bytes, every plaintext fits one frame, and sealing adds
/// exactly the 16-byte tag.
pub open spec fn wf_frame_items(key: Seq<u8>, items: Seq<(Seq<u8>, Seq<u8>)>) -> bool {
    forall|i: int|
        0 <= i < items.len() ==> (#[trigger] items[i]).0.len() == 12 && items[i].1.len()
            <= MAX_FRAME_PLAINTEXT && spec_gcm_seal(key, items[i].0, items[i].1).len()
            == items[i].1.len() + 16
}

/// The byte stream a writer emits for these frames, in order.
pub open spec fn spec_frames(key: Seq<u8>, items: Seq<(Seq<u8>, Seq<u8>)>) -> Seq<u8>
    decreases items.len(),
{
    if items.len() == 0 {
        Seq::<u8>::empty()
    } else {
        spec_sealed_frame(key, items[0].0, items[0].1) + spec_frames(key, items.drop_first())
    }
}

/// The plaintexts those frames carry, concatenated in order.
pub open spec fn spec_plains(items: Seq<(Seq<u8>, Seq<u8>)>) -> Seq<u8>
    decreases items.len(),
{
    if items.len() == 0 {
        Seq::<u8>::empty()
    } else {
        items[0].1 + spec_plains(items.drop_first())
    }
}

/// Appending a frame appends its bytes.
proof fn lemma_frames_snoc(key: Seq<u8>, items: Seq<(Seq<u8>, Seq<u8>)>, x: (Seq<u8>, Seq<u8>))
    ensures
        spec_frames(key, items.push(x)) == spec_frames(key, items) + spec_sealed_frame(
            key,
            x.0,
            x.1,
        ),
        spec_plains(items.push(x)) == spec_plains(items) + x.1,
    decreases items.len(),
{
    if items.len() == 0 {
        assert(items.push(x)[0] == x);
        assert(items.push(x).drop_first() =~= Seq::<(Seq<u8>, Seq<u8>)>::empty());
        assert(items =~= Seq::<(Seq<u8>, Seq<u8>)>::empty());
        assert(spec_frames(key, items) == Seq::<u8>::empty());
        assert(spec_plains(items) == Seq::<u8>::empty());
        assert(spec_frames(key, items.push(x)) =~= spec_frames(key, items) + spec_sealed_frame(
            key,
            x.0,
            x.1,
        ));
        assert(spec_plains(items.push(x)) =~= spec_plains(items) + x.1);
    } else {
        assert(items.push(x).drop_first() =~= items.drop_first().push(x));
        lemma_frames_snoc(key, items.drop_first(), x);
        assert(items.push(x)[0] == items[0]);
        assert(spec_sealed_frame(key, items[0].0, items[0].1) + (spec_frames(
            key,
            items.drop_first(),
        ) + spec_sealed_frame(key, x.0, x.1)) =~= (spec_sealed_frame(key, items[0].0, items[0].1)
            + spec_frames(key, items.drop_first())) + spec_sealed_frame(key, x.0, x.1));
        assert(items[0].1 + (spec_plains(items.drop_first()) + x.1) =~= (items[0].1 + spec_plains(
            items.drop_first(),
        )) + x.1);
    }
}

/// Seals one write under a given nonce.
pub fn seal_frame_with(key: &Vec<u8>, nonce: &Vec<u8>, plain: &Vec<u8>) -> (r: Vec<u8>)
    requires
        key@.len() == 32,
        nonce@.len() == 12,
        plain@.len() <= MAX_FRAME_PLAINTEXT,
    ensures
        r@ == spec_sealed_frame(key@, nonce@, plain@),
        spec_gcm_seal(key@, nonce@, plain@).len() == plain@.len() + 16,
{
    let ct = gcm_seal(key, nonce, plain);
    let flen = (12 + ct.len()) as u16;
    let mut r: Vec<u8> = Vec::new();
    r.push((flen / 256) as u8);
    r.push((flen % 256) as u8);
    append_bytes(&mut r, nonce);
    append_bytes(&mut r, &ct);
    proof {
        assert(r@ =~= spec_sealed_frame(key@, nonce@, plain@));
    }
    r
}

/// Seals one write under a fresh random nonce.  On the rare platform
/// failure the randomness wrapper reports, the nonce comes back zeroed;
/// repeating a nonce under one key forfeits the cipher's guarantees, so a
/// transport may prefer to drop such a connection.
pub fn seal_frame(key: &Vec<u8>, plain: &Vec<u8>) -> (r: Vec<u8>)
    requires
        key@.len() == 32,
        plain@.len() <= MAX_FRAME_PLAINTEXT,
    ensures
        exists|nonce: Seq<u8>|
            nonce.len() == 12 && r@ == #[trigger] spec_sealed_frame(key@, nonce, plain@)
                && spec_gcm_seal(key@, nonce, plain@).len() == plain@.len() + 16,
{
    let nonce = random_nonce_12();
    let r = seal_frame_with(key, &nonce, plain);
    proof {
        assert(nonce@.len() == 12 && r@ == spec_sealed_frame(key@, nonce@, plain@)
            && spec_gcm_seal(key@, nonce@, plain@).len() == plain@.len() + 16);
    }
    r
}

/// Reads every frame of `bytes` from `pos` on and concatenates the decrypted
/// plaintexts.  On any honestly framed stream this returns exactly the
/// plaintexts, in order; a malformed length, a truncated frame, or a failed
/// decryption gives `None`.
fn open_frames_from(key: &Vec<u8>, bytes: &Vec<u8>, pos: usize) -> (r: Option<Vec<u8>>)
    requires
        key@.len() == 32,
        pos <= bytes@.len(),
    ensures
        (forall|items: Seq<(Seq<u8>, Seq<u8>)>|
            wf_frame_items(key@, items) && bytes@.skip(pos as int) == #[trigger] spec_frames(
                key@,
                items,
            ) ==> (r matches Some(out) && out@ == spec_plains(items))),
        (bytes@.len() - pos >= 2 && (bytes@[pos as int] as int) * 256 + (bytes@[pos as int
            + 1] as int) < 12 ==> r is None),
    decreases bytes@.len() - pos,
{
    let ghost gbuf = bytes@;
    let n = bytes.len();
    if pos == n {
        let out: Vec<u8> = Vec::new();
        proof {
            assert(gbuf.skip(pos as int) =~= Seq::<u8>::empty());
            assert forall|items: Seq<(Seq<u8>, Seq<u8>)>|
                wf_frame_items(key@, items) && gbuf.skip(pos as int) == #[trigger] spec_frames(
                    key@,
                    items,
                ) implies out@ == spec_plains(items) by {
                if items.len() > 0 {
                    lemma_frame_head(key@, items, gbuf, pos as int);
                }
            }
        }
        return Some(out);
    }
    if n - pos < 2 {
        proof {
            assert forall|items: Seq<(Seq<u8>, Seq<u8>)>|
                !(wf_frame_items(key@, items) && gbuf.skip(pos as int) == #[trigger] spec_frames(
                    key@,
                    items,
                )) by {
                if wf_frame_items(key@, items) && gbuf.skip(pos as int) == spec_frames(
                    key@,
                    items,
                ) {
                    if items.len() > 0 {
                        lemma_frame_head(key@, items, gbuf, pos as int);
                        assert(gbuf.skip(pos as int).len() >= 2);
                    } else {
                        assert(spec_frames(key@, items).len() == 0);
                        assert(gbuf.skip(pos as int).len() > 0);
                    }
                }
            }
        }
        return None;
    }
    let flen = (bytes[pos] as usize) * 256 + (bytes[pos + 1] as usize);
    proof {
        assert forall|items: Seq<(Seq<u8>, Seq<u8>)>|
            wf_frame_items(key@, items) && gbuf.skip(pos as int) == #[trigger] spec_frames(
                key@,
                items,
            ) implies items.len() > 0 && flen == 12 + items[0].1.len() + 16 && pos + 2 + flen
            <= n && gbuf.subrange(pos + 2, pos + 14) == items[0].0 && gbuf.subrange(
            pos + 14,
            pos + 2 + flen,
        ) == spec_gcm_seal(key@, items[0].0, items[0].1) && gbuf.subrange(pos + 2 + flen, n as int)
            == spec_frames(key@, items.drop_first()) by {
            if items.len() == 0 {
                assert(spec_frames(key@, items).len() == 0);
                assert(gbuf.skip(pos as int).len() > 0);
            } else {
                lemma_frame_head(key@, items, gbuf, pos as int);
                let flen0 = 12 + items[0].1.len() + 16;
                vstd::arithmetic::div_mod::lemma_fundamental_div_mod(flen0 as int, 256);
            }
        }
    }
    if flen < 12 {
        return None;
    }
    if flen > n - (pos + 2) {
        return None;
    }
    let nonce = copy_range(bytes, pos + 2, pos + 14);
    let ct = copy_range(bytes, pos + 14, pos + 2 + flen);
    let plain = match gcm_open(key, &nonce, &ct) {
        None => {
            return None;
        },
        Some(p) => p,
    };
    let rest = match open_frames_from(key, bytes, pos + 2 + flen) {
        None => {
            return None;
        },
        Some(x) => x,
    };
    let mut out = plain;
    append_bytes(&mut out, &rest);
    proof {
        assert forall|items: Seq<(Seq<u8>, Seq<u8>)>|
            wf_frame_items(key@, items) && gbuf.skip(pos as int) == #[trigger] spec_frames(
                key@,
                items,
            ) implies out@ == spec_plains(items) by {
            assert(wf_frame_items(key@, items.drop_first()));
        }
    }
    Some(out)
}

/// Where the head frame of a well-formed stream sits: its length field,
/// nonce, ciphertext, and the rest of the stream after it.
proof fn lemma_frame_head(
    key: Seq<u8>,
    items: Seq<(Seq<u8>, Seq<u8>)>,
    buf: Seq<u8>,
    pos: int,
)
    requires
        wf_frame_items(key, items),
        items.len() > 0,
        0 <= pos <= buf.len(),
        buf.skip(pos) == spec_frames(key, items),
    ensures
        ({
            let ct = spec_gcm_seal(key, items[0].0, items[0].1);
            let flen = 12 + items[0].1.len() + 16;
            &&& ct.len() == items[0].1.len() + 16
            &&& pos + 2 + flen <= buf.len()
            &&& buf[pos] == flen / 256
            &&& buf[pos + 1] == flen % 256
            &&& buf.subrange(pos + 2, pos + 14) == items[0].0
            &&& buf.subrange(pos + 14, pos + 2 + flen) == ct
            &&& buf.subrange(pos + 2 + flen, buf.len() as int) == spec_frames(
                key,
                items.drop_first(),
            )
        }),
{
    let ct = spec_gcm_seal(key, items[0].0, items[0].1);
    assert(items[0].0.len() == 12 && items[0].1.len() <= MAX_FRAME_PLAINTEXT && ct.len()
        == items[0].1.len() + 16);
    let flen16 = (12 + ct.len()) as u16;
    let frame = spec_sealed_frame(key, items[0].0, items[0].1);
    assert(flen16 == 12 + items[0].1.len() + 16);
    assert(buf.subrange(pos, buf.len() as int) =~= buf.skip(pos));
    lemma_range_split(buf, pos, buf.len() as int, frame, spec_frames(key, items.drop_first()));
    assert(buf.skip(pos).take(frame.len() as int) == frame);
    assert forall|k: int| 0 <= k < frame.len() implies buf[pos + k] == frame[k] by {
        assert(buf.skip(pos).take(frame.len() as int)[k] == buf.skip(pos)[k]);
    }
    assert(buf.subrange(pos, pos + frame.len()) =~= frame);
    assert(frame =~= (spec_be16(flen16) + items[0].0) + ct);
    lemma_range_split(buf, pos, pos + frame.len(), spec_be16(flen16) + items[0].0, ct);
    assert(buf.subrange(pos, pos + 14) =~= spec_be16(flen16) + items[0].0);
    lemma_range_split(buf, pos, pos + 14, spec_be16(flen16), items[0].0);
    assert(buf.subrange(pos, pos + 2) == spec_be16(flen16));
    assert(buf[pos] == buf.subrange(pos, pos + 2)[0]);
    assert(buf[pos + 1] == buf.subrange(pos, pos + 2)[1]);
}

/// Reads every frame of `bytes` and concatenates the decrypted plaintexts.
pub fn open_frames(key: &Vec<u8>, bytes: &Vec<u8>) -> (r: Option<Vec<u8>>)
    requires
        key@.len() == 32,
    ensures
        (forall|items: Seq<(Seq<u8>, Seq<u8>)>|
            wf_frame_items(key@, items) && bytes@ == #[trigger] spec_frames(key@, items) ==> (
            r matches Some(out) && out@ == spec_plains(items))),
        (bytes@.len() >= 2 && (bytes@[0] as int) * 256 + (bytes@[1] as int) < 12 ==> r is None),
{
    let r = open_frames_from(key, bytes, 0);
    proof {
        assert(bytes@.skip(0) =~= bytes@);
    }
    r
}

/// What a reader should do with the bytes buffered so far: wait for more, a
/// whole frame split into nonce and ciphertext, or a protocol error — a
/// frame length below the nonce size is refused.
pub enum FrameStep {
    NeedMore,
    Malformed,
    Frame(Vec<u8>, Vec<u8>, usize),
}

/// Splits the first frame off a read buffer.
pub fn take_frame(buf: &Vec<u8>) -> (r: FrameStep)
    ensures
        (buf@.len() < 2 ==> r is NeedMore),
        (buf@.len() >= 2 ==> ({
            let flen = (buf@[0] as int) * 256 + (buf@[1] as int);
            &&& (flen < 12 ==> r is Malformed)
            &&& (flen >= 12 && buf@.len() < 2 + flen ==> r is NeedMore)
            &&& (flen >= 12 && buf@.len() >= 2 + flen ==> (r matches FrameStep::Frame(
                nonce,
                ct,
                consumed,
            ) && nonce@ == buf@.subrange(2, 14) && ct@ == buf@.subrange(14, 2 + flen) && consumed
                == 2 + flen))
        })),
{
    if buf.len() < 2 {
        return FrameStep::NeedMore;
    }
    let flen = (buf[0] as usize) * 256 + (buf[1] as usize);
    if flen < 12 {
        return FrameStep::Malformed;
    }
    if buf.len() - 2 < flen {
        return FrameStep::NeedMore;
    }
    let nonce = copy_range(buf, 2, 14);
    let ct = copy_range(buf, 14, 2 + flen);
    FrameStep::Frame(nonce, ct, 2 + flen)
}

/// The concatenation of a list of writes.
pub open spec fn spec_writes_concat(ws: Seq<Vec<u8>>) -> Seq<u8>
    decreases ws.len(),
{
    if ws.len() == 0 {
        Seq::<u8>::empty()
    } else {
        ws[0]@ + spec_writes_concat(ws.drop_first())
    }
}

/// Appending a write appends its bytes.
proof fn lemma_writes_snoc(ws: Seq<Vec<u8>>, x: Vec<u8>)
    ensures
        spec_writes_concat(ws.push(x)) == spec_writes_concat(ws) + x@,
    decreases ws.len(),
{
    if ws.len() == 0 {
        assert(ws.push(x)[0] == x);
        assert(ws.push(x).drop_first() =~= Seq::<Vec<u8>>::empty());
        assert(ws =~= Seq::<Vec<u8>>::empty());
        assert(spec_writes_concat(ws.push(x)) =~= spec_writes_concat(ws) + x@);
    } else {
        assert(ws.push(x).drop_first() =~= ws.drop_first().push(x));
        lemma_writes_snoc(ws.drop_first(), x);
        assert(ws.push(x)[0] == ws[0]);
        assert(ws[0]@ + (spec_writes_concat(ws.drop_first()) + x@) =~= (ws[0]@
            + spec_writes_concat(ws.drop_first())) + x@);
    }
}

/// Seals every write in order, then reads the concatenated stream back.  Its
/// contract is the framing law: whatever the writes, the reader sees exactly
/// their concatenation, in order.
pub fn frames_round_trip(key: &Vec<u8>, writes: &Vec<Vec<u8>>) -> (r: Vec<u8>)
    requires
        key@.len() == 32,
        forall|i: int| 0 <= i < writes@.len() ==> (#[trigger] writes@[i])@.len()
            <= MAX_FRAME_PLAINTEXT,
    ensures
        r@ == spec_writes_concat(writes@),
{
    let mut stream: Vec<u8> = Vec::new();
    let ghost mut items: Seq<(Seq<u8>, Seq<u8>)> = Seq::empty();
    let mut i: usize = 0;
    proof {
        assert(stream@ =~= spec_frames(key@, items));
        assert(spec_plains(items) =~= Seq::<u8>::empty());
        assert(writes@.take(0) =~= Seq::<Vec<u8>>::empty());
        assert(spec_writes_concat(writes@.take(0)) =~= Seq::<u8>::empty());
    }
    while i < writes.len()
        invariant
            i <= writes@.len(),
            key@.len() == 32,
            forall|k: int| 0 <= k < writes@.len() ==> (#[trigger] writes@[k])@.len()
                <= MAX_FRAME_PLAINTEXT,
            wf_frame_items(key@, items),
            stream@ == spec_frames(key@, items),
            spec_plains(items) == spec_writes_concat(writes@.take(i as int)),
        decreases writes@.len() - i,
    {
        let frame = seal_frame(key, &writes[i]);
        let ghost nonce = choose|nonce: Seq<u8>|
            nonce.len() == 12 && frame@ == #[trigger] spec_sealed_frame(key@, nonce, writes@[i as int]@)
                && spec_gcm_seal(key@, nonce, writes@[i as int]@).len() == writes@[i as int]@.len()
                + 16;
        let ghost pre = items;
        proof {
            items = items.push((nonce, writes@[i as int]@));
            lemma_frames_snoc(key@, pre, (nonce, writes@[i as int]@));
            lemma_writes_snoc(writes@.take(i as int), writes@[i as int]);
            assert(writes@.take(i as int).push(writes@[i as int]) =~= writes@.take(i as int + 1));
        }
        append_bytes(&mut stream, &frame);
        i = i + 1;
    }
    proof {
        assert(writes@.take(writes@.len() as int) =~= writes@);
    }
    let opened = open_frames(key, &stream);
    match opened {
        Some(out) => out,
        None => {
            proof {
                assert(false);
            }
            Vec::new()
        },
    }
}

} // verus!
