//! Primitives of the wire encoding: base-128 varints and length-delimited
//! fields, as the Protobuf wire format writes them.  Every reader is exact:
//! it accepts precisely the encodings its writer emits, so decoding an
//! encoded value always gives the value back.

use vstd::prelude::*;
use vstd::utf8::{encode_utf8, valid_utf8};

verus! {

broadcast use vstd::utf8::encode_utf8_valid_utf8;

/// Whether `a` begins `b`.
pub open spec fn is_prefix_of(a: Seq<u8>, b: Seq<u8>) -> bool {
    a.len() <= b.len() && b.take(a.len() as int) == a
}

/// The base-128 varint encoding of `n`: seven bits per byte, least
/// significant group first, high bit set on every byte but the last.
pub open spec fn spec_varint(n: u64) -> Seq<u8>
    decreases n,
{
    if n < 128 {
        seq![n as u8]
    } else {
        seq![(n % 128 + 128) as u8] + spec_varint(n / 128)
    }
}

/// A varint takes between 1 and 10 bytes, and its last byte has the high bit
/// clear while all earlier bytes have it set.
pub proof fn lemma_varint_len(n: u64)
    ensures
        1 <= spec_varint(n).len() <= 10,
    decreases n,
{
    if n >= 128 {
        lemma_varint_len(n / 128);
        assert(n / 128 < n / 128 + 1);
        lemma_varint_shrinks(n);
    }
}

/// Ten divisions by 128 exhaust a `u64`.
proof fn lemma_varint_shrinks(n: u64)
    ensures
        n >= 128 ==> spec_varint(n / 128).len() <= 9,
{
    assert forall|m: u64| m < 0x8000_0000_0000_0000 implies spec_varint(m).len() <= 9 by {
        assert(pow128(9) == 0x8000_0000_0000_0000) by {
            reveal_with_fuel(pow128, 10);
        }
        lemma_varint_len_bound(m, 9);
    }
    if n >= 128 {
        assert(n / 128 < 0x8000_0000_0000_0000) by {
            assert(n / 128 <= u64::MAX / 128);
        }
    }
}

/// A value below `128^k` encodes in at most `k` bytes.
proof fn lemma_varint_len_bound(n: u64, k: nat)
    requires
        k >= 1,
        n < pow128(k),
    ensures
        spec_varint(n).len() <= k,
    decreases k,
{
    if n >= 128 {
        assert(k >= 2) by {
            assert(pow128(1) == 128) by {
                reveal_with_fuel(pow128, 2);
            }
        }
        assert(n / 128 < pow128((k - 1) as nat)) by {
            assert(pow128(k) == 128 * pow128((k - 1) as nat));
        }
        lemma_varint_len_bound(n / 128, (k - 1) as nat);
    }
}

/// `128^k`, used only to bound varint lengths.
pub open spec fn pow128(k: nat) -> int
    decreases k,
{
    if k == 0 {
        1
    } else {
        128 * pow128((k - 1) as nat)
    }
}

/// Appends the varint encoding of `n` to `out`.
pub fn write_varint(out: &mut Vec<u8>, n: u64)
    ensures
        final(out)@ == old(out)@ + spec_varint(n),
{
    let mut n = n;
    let ghost orig = n;
    while n >= 128
        invariant
            out@ + spec_varint(n) == old(out)@ + spec_varint(orig),
        decreases n,
    {
        let ghost pre = out@;
        out.push((n % 128 + 128) as u8);
        proof {
            assert(pre + spec_varint(n) =~= pre.push((n % 128 + 128) as u8) + spec_varint(
                n / 128,
            ));
        }
        n = n / 128;
    }
    let ghost pre = out@;
    out.push(n as u8);
    proof {
        assert(pre + spec_varint(n) =~= pre.push(n as u8));
    }
}

/// Reads one varint at `pos`.  Returns the value and the position after it;
/// `None` when no varint encoding of any value starts there.
pub fn read_varint(buf: &Vec<u8>, pos: usize) -> (r: Option<(u64, usize)>)
    requires
        pos <= buf@.len(),
    ensures
        (r matches Some(p) ==> pos < p.1 <= buf@.len() && buf@.subrange(pos as int, p.1 as int)
            == spec_varint(p.0)),
        (forall|n: u64|
            is_prefix_of(#[trigger] spec_varint(n), buf@.skip(pos as int)) ==> (r matches Some(p)
                && p.0 == n && p.1 == pos + spec_varint(n).len())),
    decreases buf@.len() - pos,
{
    if pos >= buf.len() {
        proof {
            assert forall|n: u64| !is_prefix_of(#[trigger] spec_varint(n), buf@.skip(pos as int))
                by {
                lemma_varint_len(n);
            }
        }
        return None;
    }
    let b = buf[pos];
    if b < 128 {
        proof {
            assert(buf@.subrange(pos as int, pos + 1) =~= spec_varint(b as u64));
            assert forall|n: u64|
                is_prefix_of(#[trigger] spec_varint(n), buf@.skip(pos as int)) implies n == b
                as u64 by {
                if n >= 128 {
                    assert(spec_varint(n)[0] == (n % 128 + 128) as u8);
                    assert(buf@.skip(pos as int)[0] == b);
                } else {
                    assert(spec_varint(n)[0] == n as u8);
                    assert(buf@.skip(pos as int)[0] == b);
                }
            }
        }
        return Some((b as u64, pos + 1));
    }
    let rest = read_varint(buf, pos + 1);
    match rest {
        None => {
            proof {
                assert forall|n: u64| !is_prefix_of(
                    #[trigger] spec_varint(n),
                    buf@.skip(pos as int),
                ) by {
                    if is_prefix_of(spec_varint(n), buf@.skip(pos as int)) {
                        assert(spec_varint(n)[0] == buf@[pos as int]);
                        if n < 128 {
                            assert(spec_varint(n)[0] == n as u8);
                        } else {
                            lemma_prefix_step(seq![(n % 128 + 128) as u8], spec_varint(n / 128), buf@, pos as int);
                        }
                    }
                }
            }
            None
        },
        Some((hi, end)) => {
            let lo = b - 128;
            proof {
                assert forall|n: u64|
                    is_prefix_of(#[trigger] spec_varint(n), buf@.skip(pos as int)) implies n
                    >= 128 && n / 128 == hi && n % 128 == lo by {
                    assert(spec_varint(n)[0] == buf@[pos as int]);
                    if n < 128 {
                        assert(spec_varint(n)[0] == n as u8);
                    } else {
                        lemma_prefix_step(seq![(n % 128 + 128) as u8], spec_varint(n / 128), buf@, pos as int);
                        assert((n % 128 + 128) as u8 == b);
                    }
                }
            }
            if hi == 0 {
                proof {
                    assert forall|n: u64| !is_prefix_of(
                        #[trigger] spec_varint(n),
                        buf@.skip(pos as int),
                    ) by {
                        if is_prefix_of(spec_varint(n), buf@.skip(pos as int)) {
                            assert(n >= 128 && n / 128 == hi);
                        }
                    }
                }
                return None;
            }
            if hi > (u64::MAX - lo as u64) / 128 {
                proof {
                    assert forall|n: u64| !is_prefix_of(
                        #[trigger] spec_varint(n),
                        buf@.skip(pos as int),
                    ) by {
                        if is_prefix_of(spec_varint(n), buf@.skip(pos as int)) {
                            assert(n >= 128 && n / 128 == hi && n % 128 == lo);
                            assert(n == 128 * (n / 128) + n % 128);
                            assert(hi <= (u64::MAX - lo as u64) / 128);
                        }
                    }
                }
                return None;
            }
            let n = hi * 128 + lo as u64;
            proof {
                assert(n >= 128 && n / 128 == hi && n % 128 == lo as u64) by (nonlinear_arith)
                    requires
                        n == hi * 128 + lo as u64,
                        hi >= 1,
                        lo < 128,
                ;
                assert(buf@.subrange(pos as int, end as int) =~= seq![b] + buf@.subrange(
                    pos + 1,
                    end as int,
                ));
                assert(buf@.subrange(pos as int, end as int) == spec_varint(n));
                assert forall|m: u64|
                    is_prefix_of(#[trigger] spec_varint(m), buf@.skip(pos as int)) implies m == n
                    && pos + spec_varint(m).len() == end by {
                    assert(m >= 128 && m / 128 == hi && m % 128 == lo);
                    assert(m == 128 * (m / 128) + m % 128);
                    lemma_prefix_step(seq![(m % 128 + 128) as u8], spec_varint(m / 128), buf@, pos as int);
                }
            }
            Some((n, end))
        },
    }
}

/// A varint field: key byte, then the value.
pub open spec fn spec_varint_field(tag: u8, n: u64) -> Seq<u8> {
    seq![tag] + spec_varint(n)
}

/// A length-delimited payload: byte count as a varint, then the bytes.
pub open spec fn spec_len_bytes(b: Seq<u8>) -> Seq<u8> {
    spec_varint(b.len() as u64) + b
}

/// A length-delimited field: key byte, then the counted bytes.
pub open spec fn spec_bytes_field(tag: u8, b: Seq<u8>) -> Seq<u8> {
    seq![tag] + spec_len_bytes(b)
}

/// A string field: its UTF-8 bytes as a length-delimited field.
pub open spec fn spec_str_field(tag: u8, s: Seq<char>) -> Seq<u8> {
    spec_bytes_field(tag, encode_utf8(s))
}

/// Appends `data` to `out`.
pub fn append_bytes(out: &mut Vec<u8>, data: &Vec<u8>)
    ensures
        final(out)@ == old(out)@ + data@,
{
    let mut i: usize = 0;
    while i < data.len()
        invariant
            i <= data@.len(),
            out@ == old(out)@ + data@.take(i as int),
        decreases data@.len() - i,
    {
        let ghost pre = out@;
        out.push(data[i]);
        proof {
            assert(pre.push(data@[i as int]) =~= old(out)@ + data@.take(i + 1));
        }
        i = i + 1;
    }
    proof {
        assert(data@.take(data@.len() as int) =~= data@);
    }
}

/// Appends a varint field.
pub fn write_varint_field(out: &mut Vec<u8>, tag: u8, n: u64)
    ensures
        final(out)@ == old(out)@ + spec_varint_field(tag, n),
{
    let ghost pre = out@;
    out.push(tag);
    write_varint(out, n);
    proof {
        assert(pre.push(tag) + spec_varint(n) =~= pre + spec_varint_field(tag, n));
    }
}

/// Appends a length-delimited field holding `data`.
pub fn write_bytes_field(out: &mut Vec<u8>, tag: u8, data: &Vec<u8>)
    ensures
        final(out)@ == old(out)@ + spec_bytes_field(tag, data@),
{
    let ghost pre = out@;
    out.push(tag);
    write_varint(out, data.len() as u64);
    append_bytes(out, data);
    proof {
        assert(pre.push(tag) + spec_varint(data@.len() as u64) + data@ =~= pre + spec_bytes_field(
            tag,
            data@,
        ));
    }
}

/// Appends a string field holding the UTF-8 bytes of `s`.
pub fn write_str_field(out: &mut Vec<u8>, tag: u8, s: &String)
    ensures
        final(out)@ == old(out)@ + spec_str_field(tag, s@),
{
    let bytes = s.as_str().as_bytes_vec();
    write_bytes_field(out, tag, &bytes);
}

/// Reads a varint field with key `tag` at `pos`.
pub fn read_varint_field(buf: &Vec<u8>, pos: usize, tag: u8) -> (r: Option<(u64, usize)>)
    requires
        pos <= buf@.len(),
    ensures
        (r matches Some(p) ==> pos < p.1 <= buf@.len() && buf@.subrange(pos as int, p.1 as int)
            == spec_varint_field(tag, p.0)),
        (forall|n: u64|
            is_prefix_of(#[trigger] spec_varint_field(tag, n), buf@.skip(pos as int)) ==> (
            r matches Some(p) && p.0 == n && p.1 == pos + spec_varint_field(tag, n).len())),
{
    if pos >= buf.len() || buf[pos] != tag {
        proof {
            assert forall|n: u64| !is_prefix_of(
                #[trigger] spec_varint_field(tag, n),
                buf@.skip(pos as int),
            ) by {
                if is_prefix_of(spec_varint_field(tag, n), buf@.skip(pos as int)) {
                    assert(spec_varint_field(tag, n)[0] == tag);
                    assert(buf@.skip(pos as int)[0] == buf@[pos as int]);
                }
            }
        }
        return None;
    }
    match read_varint(buf, pos + 1) {
        None => {
            proof {
                assert forall|n: u64| !is_prefix_of(
                    #[trigger] spec_varint_field(tag, n),
                    buf@.skip(pos as int),
                ) by {
                    if is_prefix_of(spec_varint_field(tag, n), buf@.skip(pos as int)) {
                        lemma_prefix_step(seq![tag], spec_varint(n), buf@, pos as int);
                    }
                }
            }
            None
        },
        Some((n, end)) => {
            proof {
                assert(buf@.subrange(pos as int, end as int) =~= seq![tag] + buf@.subrange(
                    pos + 1,
                    end as int,
                ));
                assert forall|m: u64|
                    is_prefix_of(
                        #[trigger] spec_varint_field(tag, m),
                        buf@.skip(pos as int),
                    ) implies m == n && pos + spec_varint_field(tag, m).len() == end by {
                    lemma_prefix_step(seq![tag], spec_varint(m), buf@, pos as int);
                }
            }
            Some((n, end))
        },
    }
}

/// Reads a length-delimited field with key `tag` at `pos`, returning its
/// payload bytes.
pub fn read_bytes_field(buf: &Vec<u8>, pos: usize, tag: u8) -> (r: Option<(Vec<u8>, usize)>)
    requires
        pos <= buf@.len(),
    ensures
        (r matches Some(p) ==> pos < p.1 <= buf@.len() && buf@.subrange(pos as int, p.1 as int)
            == spec_bytes_field(tag, p.0@)),
        (forall|v: Seq<u8>|
            is_prefix_of(#[trigger] spec_bytes_field(tag, v), buf@.skip(pos as int)) ==> (
            r matches Some(p) && p.0@ == v && p.1 == pos + spec_bytes_field(tag, v).len())),
{
    let buf_len = buf.len();
    proof {
        assert(buf@.len() == buf_len <= usize::MAX);
    }
    if pos >= buf_len || buf[pos] != tag {
        proof {
            assert forall|v: Seq<u8>| !is_prefix_of(
                #[trigger] spec_bytes_field(tag, v),
                buf@.skip(pos as int),
            ) by {
                if is_prefix_of(spec_bytes_field(tag, v), buf@.skip(pos as int)) {
                    assert(spec_bytes_field(tag, v)[0] == tag);
                    assert(buf@.skip(pos as int)[0] == buf@[pos as int]);
                }
            }
        }
        return None;
    }
    match read_varint(buf, pos + 1) {
        None => {
            proof {
                assert forall|v: Seq<u8>| !is_prefix_of(
                    #[trigger] spec_bytes_field(tag, v),
                    buf@.skip(pos as int),
                ) by {
                    if is_prefix_of(spec_bytes_field(tag, v), buf@.skip(pos as int)) {
                        if v.len() > u64::MAX {
                            lemma_oversized_bytes_field(tag, v, buf@, pos as int);
                        } else {
                            assert(seq![tag] + spec_len_bytes(v) =~= seq![tag] + spec_varint(
                                v.len() as u64,
                            ) + v);
                            lemma_prefix_step(
                                seq![tag],
                                spec_varint(v.len() as u64) + v,
                                buf@,
                                pos as int,
                            );
                            lemma_prefix_step(spec_varint(v.len() as u64), v, buf@, pos + 1);
                        }
                    }
                }
            }
            None
        },
        Some((len, mid)) => {
            proof {
                assert forall|v: Seq<u8>|
                    is_prefix_of(
                        #[trigger] spec_bytes_field(tag, v),
                        buf@.skip(pos as int),
                    ) implies v.len() == len && is_prefix_of(v, buf@.skip(mid as int)) by {
                    if v.len() > u64::MAX {
                        lemma_oversized_bytes_field(tag, v, buf@, pos as int);
                    }
                    assert(seq![tag] + spec_len_bytes(v) =~= seq![tag] + spec_varint(
                        v.len() as u64,
                    ) + v);
                    lemma_prefix_step(seq![tag], spec_varint(v.len() as u64) + v, buf@, pos as int);
                    lemma_prefix_step(spec_varint(v.len() as u64), v, buf@, pos + 1);
                }
            }
            if len > (buf.len() - mid) as u64 {
                return None;
            }
            let end = mid + len as usize;
            let payload = copy_range(buf, mid, end);
            proof {
                assert(buf@.subrange(pos as int, end as int) =~= seq![tag] + buf@.subrange(
                    pos + 1,
                    mid as int,
                ) + buf@.subrange(mid as int, end as int));
                assert(buf@.subrange(pos as int, end as int) == spec_bytes_field(tag, payload@));
                assert forall|v: Seq<u8>|
                    is_prefix_of(
                        #[trigger] spec_bytes_field(tag, v),
                        buf@.skip(pos as int),
                    ) implies v == payload@ && pos + spec_bytes_field(tag, v).len() == end by {
                    assert(v.len() == len && is_prefix_of(v, buf@.skip(mid as int)));
                    assert(buf@.skip(mid as int).take(v.len() as int) =~= buf@.subrange(
                        mid as int,
                        end as int,
                    ));
                }
            }
            Some((payload, end))
        },
    }
}

/// Reads the extent of a length-delimited field with key `tag` at `pos`:
/// the half-open byte range of its payload inside `buf`.
pub fn read_field_extent(buf: &Vec<u8>, pos: usize, tag: u8) -> (r: Option<(usize, usize)>)
    requires
        pos <= buf@.len(),
    ensures
        (r matches Some(p) ==> pos < p.0 <= p.1 <= buf@.len() && buf@.subrange(pos as int, p.1 as int)
            == spec_bytes_field(tag, buf@.subrange(p.0 as int, p.1 as int))),
        (forall|v: Seq<u8>|
            is_prefix_of(#[trigger] spec_bytes_field(tag, v), buf@.skip(pos as int)) ==> (
            r matches Some(p) && buf@.subrange(p.0 as int, p.1 as int) == v && p.1 == pos
                + spec_bytes_field(tag, v).len())),
{
    let buf_len = buf.len();
    proof {
        assert(buf@.len() == buf_len <= usize::MAX);
    }
    if pos >= buf_len || buf[pos] != tag {
        proof {
            assert forall|v: Seq<u8>| !is_prefix_of(
                #[trigger] spec_bytes_field(tag, v),
                buf@.skip(pos as int),
            ) by {
                if is_prefix_of(spec_bytes_field(tag, v), buf@.skip(pos as int)) {
                    assert(spec_bytes_field(tag, v)[0] == tag);
                    assert(buf@.skip(pos as int)[0] == buf@[pos as int]);
                }
            }
        }
        return None;
    }
    match read_varint(buf, pos + 1) {
        None => {
            proof {
                assert forall|v: Seq<u8>| !is_prefix_of(
                    #[trigger] spec_bytes_field(tag, v),
                    buf@.skip(pos as int),
                ) by {
                    if is_prefix_of(spec_bytes_field(tag, v), buf@.skip(pos as int)) {
                        if v.len() > u64::MAX {
                            lemma_oversized_bytes_field(tag, v, buf@, pos as int);
                        } else {
                            assert(seq![tag] + spec_len_bytes(v) =~= seq![tag] + spec_varint(
                                v.len() as u64,
                            ) + v);
                            lemma_prefix_step(
                                seq![tag],
                                spec_varint(v.len() as u64) + v,
                                buf@,
                                pos as int,
                            );
                            lemma_prefix_step(spec_varint(v.len() as u64), v, buf@, pos + 1);
                        }
                    }
                }
            }
            None
        },
        Some((len, mid)) => {
            proof {
                assert forall|v: Seq<u8>|
                    is_prefix_of(
                        #[trigger] spec_bytes_field(tag, v),
                        buf@.skip(pos as int),
                    ) implies v.len() == len && is_prefix_of(v, buf@.skip(mid as int)) by {
                    if v.len() > u64::MAX {
                        lemma_oversized_bytes_field(tag, v, buf@, pos as int);
                    }
                    assert(seq![tag] + spec_len_bytes(v) =~= seq![tag] + spec_varint(
                        v.len() as u64,
                    ) + v);
                    lemma_prefix_step(seq![tag], spec_varint(v.len() as u64) + v, buf@, pos as int);
                    lemma_prefix_step(spec_varint(v.len() as u64), v, buf@, pos + 1);
                }
            }
            if len > (buf_len - mid) as u64 {
                return None;
            }
            let end = mid + len as usize;
            proof {
                assert(buf@.subrange(pos as int, end as int) =~= seq![tag] + buf@.subrange(
                    pos + 1,
                    mid as int,
                ) + buf@.subrange(mid as int, end as int));
                assert(buf@.subrange(pos as int, end as int) == spec_bytes_field(
                    tag,
                    buf@.subrange(mid as int, end as int),
                ));
                assert forall|v: Seq<u8>|
                    is_prefix_of(
                        #[trigger] spec_bytes_field(tag, v),
                        buf@.skip(pos as int),
                    ) implies buf@.subrange(mid as int, end as int) == v && pos
                    + spec_bytes_field(tag, v).len() == end by {
                    assert(v.len() == len && is_prefix_of(v, buf@.skip(mid as int)));
                    assert(buf@.skip(mid as int).take(v.len() as int) =~= buf@.subrange(
                        mid as int,
                        end as int,
                    ));
                }
            }
            Some((mid, end))
        },
    }
}

/// Splitting an exact range: when `buf[start..end]` is `a + b`, `a` begins
/// the suffix at `start` and `b` fills the range after it.
pub proof fn lemma_range_split(buf: Seq<u8>, start: int, end: int, a: Seq<u8>, b: Seq<u8>)
    requires
        0 <= start <= end <= buf.len(),
        buf.subrange(start, end) == a + b,
    ensures
        a.len() + b.len() == end - start,
        is_prefix_of(a, buf.skip(start)),
        is_prefix_of(b, buf.skip(start + a.len())),
        buf.subrange(start + a.len(), end) == b,
{
    let whole = a + b;
    assert(whole.len() == end - start);
    assert forall|i: int| 0 <= i < a.len() implies buf.skip(start)[i] == a[i] by {
        assert(buf.subrange(start, end)[i] == whole[i]);
        assert(whole[i] == a[i]);
    }
    assert(buf.skip(start).take(a.len() as int) =~= a);
    assert forall|i: int| 0 <= i < b.len() implies buf.skip(start + a.len())[i] == b[i] by {
        assert(buf.subrange(start, end)[a.len() + i] == whole[a.len() + i]);
        assert(whole[a.len() + i] == b[i]);
    }
    assert(buf.skip(start + a.len()).take(b.len() as int) =~= b);
    assert(buf.subrange(start + a.len(), end) =~= b);
}

/// Reads a string field with key `tag` at `pos`.  Fails when the payload is
/// not valid UTF-8.
pub fn read_str_field(buf: &Vec<u8>, pos: usize, tag: u8) -> (r: Option<(String, usize)>)
    requires
        pos <= buf@.len(),
    ensures
        (r matches Some(p) ==> pos < p.1 <= buf@.len() && buf@.subrange(pos as int, p.1 as int)
            == spec_str_field(tag, p.0@)),
        (forall|s: Seq<char>|
            is_prefix_of(#[trigger] spec_str_field(tag, s), buf@.skip(pos as int)) ==> (
            r matches Some(p) && p.0@ == s && p.1 == pos + spec_str_field(tag, s).len())),
{
    broadcast use vstd::utf8::encode_utf8_decode_utf8;

    match read_bytes_field(buf, pos, tag) {
        None => {
            None
        },
        Some((payload, end)) => {
            match bytes_to_string(&payload) {
                None => {
                    proof {
                        assert forall|s: Seq<char>| !is_prefix_of(
                            #[trigger] spec_str_field(tag, s),
                            buf@.skip(pos as int),
                        ) by {
                            if is_prefix_of(spec_str_field(tag, s), buf@.skip(pos as int)) {
                                assert(payload@ == encode_utf8(s));
                                assert(valid_utf8(payload@));
                            }
                        }
                    }
                    None
                },
                Some(text) => {
                    proof {
                        assert forall|s: Seq<char>|
                            is_prefix_of(
                                #[trigger] spec_str_field(tag, s),
                                buf@.skip(pos as int),
                            ) implies text@ == s && pos + spec_str_field(tag, s).len() == end by {
                            assert(payload@ == encode_utf8(s));
                            assert(encode_utf8(text@) == encode_utf8(s));
                            assert(vstd::utf8::decode_utf8(encode_utf8(text@)) == text@);
                            assert(vstd::utf8::decode_utf8(encode_utf8(s)) == s);
                        }
                    }
                    Some((text, end))
                },
            }
        },
    }
}

/// A copy of `buf[from..to]`.
pub fn copy_range(buf: &Vec<u8>, from: usize, to: usize) -> (r: Vec<u8>)
    requires
        from <= to <= buf@.len(),
    ensures
        r@ == buf@.subrange(from as int, to as int),
{
    let mut r: Vec<u8> = Vec::new();
    let mut i: usize = from;
    while i < to
        invariant
            from <= i <= to <= buf@.len(),
            r@ == buf@.subrange(from as int, i as int),
        decreases to - i,
    {
        let ghost pre = r@;
        r.push(buf[i]);
        proof {
            assert(pre.push(buf@[i as int]) =~= buf@.subrange(from as int, i + 1));
        }
        i = i + 1;
    }
    r
}

/// Relies on std's `str::from_utf8`: it returns `Ok` exactly on valid UTF-8,
/// giving the characters whose UTF-8 encoding is the input.
#[verifier::external_body]
pub(crate) fn bytes_to_string(v: &Vec<u8>) -> (r: Option<String>)
    ensures
        (r matches Some(s) ==> encode_utf8(s@) == v@),
        valid_utf8(v@) ==> r is Some,
{
    match core::str::from_utf8(v.as_slice()) {
        Ok(s) => Some(s.to_string()),
        Err(_) => None,
    }
}

/// A payload too long for a length varint never begins a real buffer.
pub proof fn lemma_oversized_bytes_field(tag: u8, v: Seq<u8>, buf: Seq<u8>, pos: int)
    requires
        0 <= pos <= buf.len(),
        buf.len() <= usize::MAX,
        v.len() > u64::MAX,
    ensures
        !is_prefix_of(spec_bytes_field(tag, v), buf.skip(pos)),
{
    assert(spec_bytes_field(tag, v).len() >= v.len());
    assert(buf.skip(pos).len() <= buf.len());
}

/// Splitting a prefix: when `head + tail` begins `buf` at `pos`, `head`
/// begins it there and `tail` begins it right after `head`.
pub proof fn lemma_prefix_step(head: Seq<u8>, tail: Seq<u8>, buf: Seq<u8>, pos: int)
    requires
        0 <= pos <= buf.len(),
        is_prefix_of(head + tail, buf.skip(pos)),
    ensures
        is_prefix_of(head, buf.skip(pos)),
        is_prefix_of(tail, buf.skip(pos + head.len())),
{
    let whole = head + tail;
    assert(buf.skip(pos).take(whole.len() as int) == whole);
    assert forall|i: int| 0 <= i < head.len() implies buf.skip(pos)[i] == head[i] by {
        assert(whole[i] == head[i]);
        assert(buf.skip(pos).take(whole.len() as int)[i] == buf.skip(pos)[i]);
    }
    assert(buf.skip(pos).take(head.len() as int) =~= head);
    assert forall|i: int| 0 <= i < tail.len() implies buf.skip(pos + head.len())[i] == tail[i] by {
        assert(whole[head.len() + i] == tail[i]);
        assert(buf.skip(pos).take(whole.len() as int)[head.len() + i] == buf.skip(pos)[head.len()
            + i]);
        assert(buf.skip(pos)[head.len() + i] == buf[pos + head.len() + i]);
    }
    assert(buf.skip(pos + head.len()).take(tail.len() as int) =~= tail);
}

} // verus!
