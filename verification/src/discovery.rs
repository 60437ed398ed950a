//! The discovery record: `key=value` pairs packed as length-prefixed
//! entries, carrying this node's name, port, verifying key, and a signature
//! over the name.

use vstd::prelude::*;
use vstd::utf8::encode_utf8;

use crate::crypto::{ed25519_verify, hex_decode, spec_ed25519_valid, spec_hex};
use crate::repository::equal_strings;
use crate::wire::{append_bytes, bytes_to_string, copy_range, lemma_range_split};
use crate::ChatError;

verus! {

broadcast use vstd::utf8::encode_utf8_valid_utf8;

/// A verified discovery record: the advertised port, display name, and the
/// hex of the signer's verifying key.
#[derive(Debug, Clone)]
pub struct DnsRecord {
    pub port: u16,
    pub name: String,
    pub pub_key: String,
}

/// The views of a sequence of key-value pairs.
pub open spec fn pair_views(ps: Seq<(String, String)>) -> Seq<(Seq<char>, Seq<char>)> {
    Seq::new(ps.len(), |i: int| (ps[i].0@, ps[i].1@))
}

/// One record entry: the key's UTF-8 bytes, an equals sign, the value's
/// UTF-8 bytes.
pub open spec fn spec_entry(k: Seq<char>, v: Seq<char>) -> Seq<u8> {
    encode_utf8(k) + seq![61u8] + encode_utf8(v)
}

/// An encodable pair: the key holds no equals sign and the entry fits one
/// length byte.
pub open spec fn wf_pair(k: Seq<char>, v: Seq<char>) -> bool {
    !encode_utf8(k).contains(61u8) && spec_entry(k, v).len() <= 255
}

/// The record bytes: for each pair, one length byte and the entry.
pub open spec fn spec_txt(ps: Seq<(Seq<char>, Seq<char>)>) -> Seq<u8>
    decreases ps.len(),
{
    if ps.len() == 0 {
        Seq::<u8>::empty()
    } else {
        seq![spec_entry(ps[0].0, ps[0].1).len() as u8] + spec_entry(ps[0].0, ps[0].1) + spec_txt(
            ps.drop_first(),
        )
    }
}

/// Appending a pair appends its entry.
proof fn lemma_txt_snoc(ps: Seq<(Seq<char>, Seq<char>)>, x: (Seq<char>, Seq<char>))
    ensures
        spec_txt(ps.push(x)) == spec_txt(ps) + seq![spec_entry(x.0, x.1).len() as u8]
            + spec_entry(x.0, x.1),
    decreases ps.len(),
{
    if ps.len() == 0 {
        assert(ps.push(x)[0] == x);
        assert(ps.push(x).drop_first() =~= Seq::<(Seq<char>, Seq<char>)>::empty());
        assert(ps =~= Seq::<(Seq<char>, Seq<char>)>::empty());
        assert(spec_txt(ps) == Seq::<u8>::empty());
        assert(spec_txt(ps.push(x)) =~= spec_txt(ps) + seq![spec_entry(x.0, x.1).len() as u8]
            + spec_entry(x.0, x.1));
    } else {
        assert(ps.push(x).drop_first() =~= ps.drop_first().push(x));
        lemma_txt_snoc(ps.drop_first(), x);
        assert(ps.push(x)[0] == ps[0]);
        let h = seq![spec_entry(ps[0].0, ps[0].1).len() as u8] + spec_entry(ps[0].0, ps[0].1);
        let t = seq![spec_entry(x.0, x.1).len() as u8] + spec_entry(x.0, x.1);
        assert(h + (spec_txt(ps.drop_first()) + t) =~= (h + spec_txt(ps.drop_first())) + t);
    }
}

/// Packs key-value pairs into a record.  Fails exactly when some entry
/// exceeds 255 bytes.
pub fn encode_txt_record(pairs: &Vec<(String, String)>) -> (r: Option<Vec<u8>>)
    ensures
        (r matches Some(out) ==> out@ == spec_txt(pair_views(pairs@))),
        (r is Some <==> forall|i: int|
            0 <= i < pairs@.len() ==> spec_entry(
                (#[trigger] pair_views(pairs@)[i]).0,
                pair_views(pairs@)[i].1,
            ).len() <= 255),
{
    let ghost pv = pair_views(pairs@);
    let mut out: Vec<u8> = Vec::new();
    let mut i: usize = 0;
    proof {
        assert(pv.take(0) =~= Seq::<(Seq<char>, Seq<char>)>::empty());
        assert(out@ =~= spec_txt(pv.take(0)));
    }
    while i < pairs.len()
        invariant
            i <= pairs@.len(),
            pv == pair_views(pairs@),
            out@ == spec_txt(pv.take(i as int)),
            forall|j: int|
                0 <= j < i ==> spec_entry((#[trigger] pv[j]).0, pv[j].1).len() <= 255,
        decreases pairs@.len() - i,
    {
        let mut entry: Vec<u8> = Vec::new();
        let kb = pairs[i].0.as_str().as_bytes_vec();
        let vb = pairs[i].1.as_str().as_bytes_vec();
        append_bytes(&mut entry, &kb);
        entry.push(61);
        append_bytes(&mut entry, &vb);
        proof {
            assert(entry@ =~= spec_entry(pv[i as int].0, pv[i as int].1));
        }
        if entry.len() > 255 {
            return None;
        }
        out.push(entry.len() as u8);
        append_bytes(&mut out, &entry);
        proof {
            lemma_txt_snoc(pv.take(i as int), pv[i as int]);
            assert(pv.take(i as int).push(pv[i as int]) =~= pv.take(i as int + 1));
        }
        i = i + 1;
    }
    proof {
        assert(pv.take(pairs@.len() as int) =~= pv);
    }
    Some(out)
}

/// Unpacks a record back into key-value pairs, splitting each entry at its
/// first equals sign.  On any record this library's encoder produced from
/// well-formed pairs, it returns exactly those pairs.
#[verifier::rlimit(100)]
#[verifier::spinoff_prover]
fn decode_txt_record_from(data: &Vec<u8>, pos: usize) -> (r: Option<Vec<(String, String)>>)
    requires
        pos <= data@.len(),
    ensures
        (forall|ps: Seq<(Seq<char>, Seq<char>)>|
            (forall|i: int| 0 <= i < ps.len() ==> wf_pair((#[trigger] ps[i]).0, ps[i].1))
                && data@.skip(pos as int) == #[trigger] spec_txt(ps) ==> (r matches Some(out)
                && pair_views(out@) == ps)),
    decreases data@.len() - pos,
{
    let ghost gbuf = data@;
    let n = data.len();
    if pos == n {
        let out: Vec<(String, String)> = Vec::new();
        proof {
            assert(gbuf.skip(pos as int) =~= Seq::<u8>::empty());
            assert forall|ps: Seq<(Seq<char>, Seq<char>)>|
                (forall|i: int| 0 <= i < ps.len() ==> wf_pair((#[trigger] ps[i]).0, ps[i].1))
                    && gbuf.skip(pos as int) == #[trigger] spec_txt(ps) implies pair_views(out@)
                =~= ps by {
                if ps.len() > 0 {
                    lemma_txt_head(ps, gbuf, pos as int);
                }
            }
        }
        return Some(out);
    }
    proof {
        assert forall|ps: Seq<(Seq<char>, Seq<char>)>|
            (forall|i: int| 0 <= i < ps.len() ==> wf_pair((#[trigger] ps[i]).0, ps[i].1))
                && gbuf.skip(pos as int) == #[trigger] spec_txt(ps) implies ps.len() > 0
            && txt_head_shape(ps, gbuf, pos as int) by {
            if ps.len() == 0 {
                assert(spec_txt(ps).len() == 0);
                assert(gbuf.skip(pos as int).len() > 0);
            } else {
                lemma_txt_head(ps, gbuf, pos as int);
            }
        }
    }
    let elen = data[pos] as usize;
    if elen > n - (pos + 1) {
        return None;
    }
    let estart = pos + 1;
    let eend = estart + elen;
    let mut eq: usize = estart;
    while eq < eend && data[eq] != 61
        invariant
            estart <= eq <= eend <= data@.len(),
            gbuf == data@,
            forall|k: int| estart <= k < eq ==> gbuf[k] != 61u8,
        decreases eend - eq,
    {
        eq = eq + 1;
    }
    if eq == eend {
        proof {
            assert forall|ps: Seq<(Seq<char>, Seq<char>)>|
                !((forall|i: int| 0 <= i < ps.len() ==> wf_pair((#[trigger] ps[i]).0, ps[i].1))
                    && gbuf.skip(pos as int) == #[trigger] spec_txt(ps)) by {
                if (forall|i: int| 0 <= i < ps.len() ==> wf_pair((#[trigger] ps[i]).0, ps[i].1))
                    && gbuf.skip(pos as int) == spec_txt(ps) {
                    lemma_entry_split(ps, gbuf, pos as int, eq as int);
                }
            }
        }
        return None;
    }
    let kb = copy_range(data, estart, eq);
    let vb = copy_range(data, eq + 1, eend);
    proof {
        assert forall|ps: Seq<(Seq<char>, Seq<char>)>|
            (forall|i: int| 0 <= i < ps.len() ==> wf_pair((#[trigger] ps[i]).0, ps[i].1))
                && gbuf.skip(pos as int) == #[trigger] spec_txt(ps) implies kb@ == encode_utf8(
            ps[0].0,
        ) && vb@ == encode_utf8(ps[0].1) && gbuf.subrange(eend as int, n as int) == spec_txt(
            ps.drop_first(),
        ) by {
            lemma_entry_split(ps, gbuf, pos as int, eq as int);
        }
    }
    let key = match bytes_to_string(&kb) {
        None => {
            return None;
        },
        Some(s) => s,
    };
    let value = match bytes_to_string(&vb) {
        None => {
            return None;
        },
        Some(s) => s,
    };
    let rest = match decode_txt_record_from(data, eend) {
        None => {
            return None;
        },
        Some(x) => x,
    };
    let ghost tail = rest@;
    let mut rest = rest;
    rest.insert(0, (key, value));
    proof {
        broadcast use vstd::utf8::encode_utf8_decode_utf8;

        assert forall|ps: Seq<(Seq<char>, Seq<char>)>|
            (forall|i: int| 0 <= i < ps.len() ==> wf_pair((#[trigger] ps[i]).0, ps[i].1))
                && gbuf.skip(pos as int) == #[trigger] spec_txt(ps) implies pair_views(rest@)
            =~= ps by {
            lemma_entry_split(ps, gbuf, pos as int, eq as int);
            assert(kb@ == encode_utf8(ps[0].0));
            assert(vb@ == encode_utf8(ps[0].1));
            assert(encode_utf8(key@) == encode_utf8(ps[0].0));
            assert(vstd::utf8::decode_utf8(encode_utf8(key@)) == key@);
            assert(vstd::utf8::decode_utf8(encode_utf8(ps[0].0)) == ps[0].0);
            assert(encode_utf8(value@) == encode_utf8(ps[0].1));
            assert(vstd::utf8::decode_utf8(encode_utf8(value@)) == value@);
            assert(vstd::utf8::decode_utf8(encode_utf8(ps[0].1)) == ps[0].1);
            assert(pair_views(tail) == ps.drop_first());
            assert(pair_views(rest@) =~= seq![(key@, value@)] + pair_views(tail));
        }
    }
    Some(rest)
}

/// The shape facts the head entry of a well-formed record gives the parser,
/// bundled so the big quantifier above has one conclusion.
pub open spec fn txt_head_shape(
    ps: Seq<(Seq<char>, Seq<char>)>,
    buf: Seq<u8>,
    pos: int,
) -> bool {
    let entry = spec_entry(ps[0].0, ps[0].1);
    &&& buf[pos] == entry.len() as u8
    &&& pos + 1 + entry.len() <= buf.len()
    &&& buf.subrange(pos + 1, pos + 1 + entry.len()) == entry
    &&& buf.subrange(pos + 1, pos + 1 + encode_utf8(ps[0].0).len()) == encode_utf8(ps[0].0)
    &&& buf.subrange(
        pos + 1 + encode_utf8(ps[0].0).len(),
        pos + 1 + encode_utf8(ps[0].0).len() + 1,
    ) == seq![61u8]
    &&& buf.subrange(pos + 1 + encode_utf8(ps[0].0).len() + 1, pos + 1 + entry.len())
        == encode_utf8(ps[0].1)
    &&& buf.subrange(pos + 1 + entry.len(), buf.len() as int) == spec_txt(ps.drop_first())
}

/// Where the head entry of a well-formed record sits.
proof fn lemma_txt_head(ps: Seq<(Seq<char>, Seq<char>)>, buf: Seq<u8>, pos: int)
    requires
        forall|i: int| 0 <= i < ps.len() ==> wf_pair((#[trigger] ps[i]).0, ps[i].1),
        ps.len() > 0,
        0 <= pos <= buf.len(),
        buf.skip(pos) == spec_txt(ps),
    ensures
        txt_head_shape(ps, buf, pos),
{
    let entry = spec_entry(ps[0].0, ps[0].1);
    assert(wf_pair(ps[0].0, ps[0].1));
    let head = seq![entry.len() as u8] + entry;
    assert(buf.subrange(pos, buf.len() as int) =~= buf.skip(pos));
    assert(spec_txt(ps) =~= head + spec_txt(ps.drop_first()));
    lemma_range_split(buf, pos, buf.len() as int, head, spec_txt(ps.drop_first()));
    assert(buf.skip(pos).take(head.len() as int) == head);
    assert forall|k: int| 0 <= k < head.len() implies buf[pos + k] == head[k] by {
        assert(buf.skip(pos).take(head.len() as int)[k] == buf.skip(pos)[k]);
    }
    assert(buf[pos] == head[0]);
    assert forall|k: int|
        0 <= k < entry.len() implies buf.subrange(pos + 1, pos + 1 + entry.len())[k]
        == entry[k] by {
        assert(buf[pos + (1 + k)] == head[1 + k]);
        assert(head[1 + k] == entry[k]);
    }
    assert(buf.subrange(pos + 1, pos + 1 + entry.len()) =~= entry);
    assert(entry =~= (encode_utf8(ps[0].0) + seq![61u8]) + encode_utf8(ps[0].1));
    lemma_range_split(
        buf,
        pos + 1,
        pos + 1 + entry.len(),
        encode_utf8(ps[0].0) + seq![61u8],
        encode_utf8(ps[0].1),
    );
    assert(buf.subrange(pos + 1, pos + 1 + encode_utf8(ps[0].0).len() + 1) =~= encode_utf8(
        ps[0].0,
    ) + seq![61u8]);
    lemma_range_split(
        buf,
        pos + 1,
        pos + 1 + encode_utf8(ps[0].0).len() + 1,
        encode_utf8(ps[0].0),
        seq![61u8],
    );
    let kl = encode_utf8(ps[0].0).len() as int;
    assert forall|k: int|
        0 <= k < kl implies buf.subrange(pos + 1, pos + 1 + kl)[k] == encode_utf8(ps[0].0)[k] by {
        assert(buf.skip(pos + 1).take(kl) == encode_utf8(ps[0].0));
        assert(buf.skip(pos + 1).take(kl)[k] == buf.skip(pos + 1)[k]);
    }
    assert(buf.subrange(pos + 1, pos + 1 + kl) =~= encode_utf8(ps[0].0));
}

/// Where the equals-sign scan of a well-formed head entry must stop: at the
/// end of the key's bytes.
proof fn lemma_entry_split(
    ps: Seq<(Seq<char>, Seq<char>)>,
    buf: Seq<u8>,
    pos: int,
    eq: int,
)
    requires
        ps.len() > 0,
        wf_pair(ps[0].0, ps[0].1),
        0 <= pos,
        txt_head_shape(ps, buf, pos),
        pos + 1 <= eq <= pos + 1 + spec_entry(ps[0].0, ps[0].1).len(),
        forall|k: int| pos + 1 <= k < eq ==> buf[k] != 61u8,
        (eq == pos + 1 + spec_entry(ps[0].0, ps[0].1).len() || buf[eq] == 61u8),
    ensures
        eq == pos + 1 + encode_utf8(ps[0].0).len(),
        buf.subrange(pos + 1, eq) == encode_utf8(ps[0].0),
        buf.subrange(eq + 1, pos + 1 + spec_entry(ps[0].0, ps[0].1).len()) == encode_utf8(
            ps[0].1,
        ),
{
    let entry = spec_entry(ps[0].0, ps[0].1);
    let kl = encode_utf8(ps[0].0).len() as int;
    assert(entry.len() == kl + 1 + encode_utf8(ps[0].1).len());
    assert(buf[pos + 1 + kl] == 61u8) by {
        assert(buf.subrange(pos + 1 + kl, pos + 1 + kl + 1)[0] == 61u8);
    }
    assert forall|k: int| pos + 1 <= k < pos + 1 + kl implies buf[k] != 61u8 by {
        assert(buf.subrange(pos + 1, pos + 1 + kl)[k - (pos + 1)] == encode_utf8(ps[0].0)[k - (pos
            + 1)]);
        assert(encode_utf8(ps[0].0).contains(buf[k]) || true);
        if buf[k] == 61u8 {
            assert(encode_utf8(ps[0].0)[k - (pos + 1)] == 61u8);
            assert(encode_utf8(ps[0].0).contains(61u8));
        }
    }
    if eq < pos + 1 + kl {
        assert(buf[eq] != 61u8);
        assert(eq < pos + 1 + entry.len());
        assert(false);
    }
    if eq > pos + 1 + kl {
        assert(buf[pos + 1 + kl] != 61u8);
        assert(false);
    }
}

/// Unpacks a whole record.
pub fn decode_txt_record(data: &Vec<u8>) -> (r: Option<Vec<(String, String)>>)
    ensures
        (forall|ps: Seq<(Seq<char>, Seq<char>)>|
            (forall|i: int| 0 <= i < ps.len() ==> wf_pair((#[trigger] ps[i]).0, ps[i].1))
                && data@ == #[trigger] spec_txt(ps) ==> (r matches Some(out) && pair_views(out@)
                == ps)),
{
    let r = decode_txt_record_from(data, 0);
    proof {
        assert(data@.skip(0) =~= data@);
    }
    r
}

/// The first value stored under `key`, front to back.
pub open spec fn spec_lookup(ps: Seq<(Seq<char>, Seq<char>)>, key: Seq<char>) -> Option<Seq<char>>
    decreases ps.len(),
{
    if ps.len() == 0 {
        None
    } else if ps[0].0 == key {
        Some(ps[0].1)
    } else {
        spec_lookup(ps.drop_first(), key)
    }
}

/// The first value stored under `key`, if any.
pub fn lookup_value(pairs: &Vec<(String, String)>, key: &String) -> (r: Option<String>)
    ensures
        (r matches Some(v) ==> spec_lookup(pair_views(pairs@), key@) == Some(v@)),
        (r is None ==> spec_lookup(pair_views(pairs@), key@) is None),
{
    let ghost pv = pair_views(pairs@);
    let mut i: usize = 0;
    proof {
        assert(pv.skip(0) =~= pv);
    }
    while i < pairs.len()
        invariant
            i <= pairs@.len(),
            pv == pair_views(pairs@),
            spec_lookup(pv, key@) == spec_lookup(pv.skip(i as int), key@),
        decreases pairs@.len() - i,
    {
        proof {
            assert(pv.skip(i as int)[0] == pv[i as int]);
            assert(pv.skip(i as int).drop_first() =~= pv.skip(i as int + 1));
        }
        if equal_strings(&pairs[i].0, key) {
            return Some(pairs[i].1.clone());
        }
        i = i + 1;
    }
    proof {
        assert(pv.skip(pairs@.len() as int) =~= Seq::<(Seq<char>, Seq<char>)>::empty());
    }
    None
}

/// Whether every character of `s` is a decimal digit.
pub open spec fn all_digits(s: Seq<char>) -> bool {
    forall|i: int| 0 <= i < s.len() ==> '0' <= #[trigger] s[i] <= '9'
}

/// The value of a digit string read left to right, starting from `acc`.
pub open spec fn spec_digits_val(s: Seq<char>, acc: int) -> int
    decreases s.len(),
{
    if s.len() == 0 {
        acc
    } else {
        spec_digits_val(s.drop_first(), acc * 10 + (s[0] as int - 48))
    }
}

/// Digits never decrease the accumulated value.
proof fn lemma_digits_monotone(s: Seq<char>, acc: int)
    requires
        acc >= 0,
        all_digits(s),
    ensures
        spec_digits_val(s, acc) >= acc,
    decreases s.len(),
{
    if s.len() > 0 {
        assert('0' <= s[0] <= '9');
        assert(all_digits(s.drop_first()));
        lemma_digits_monotone(s.drop_first(), acc * 10 + (s[0] as int - 48));
    }
}

/// Reads a port from its decimal digits: accepted exactly when the string is
/// non-empty, all digits, and the value fits 16 bits.
pub fn parse_port(s: &String) -> (r: Option<u16>)
    ensures
        (r matches Some(n) ==> n == spec_digits_val(s@, 0)),
        (r is Some <==> s@.len() > 0 && all_digits(s@) && spec_digits_val(s@, 0) <= u16::MAX),
{
    let text = s.as_str();
    let n = text.unicode_len();
    if n == 0 {
        return None;
    }
    let mut acc: u32 = 0;
    let mut i: usize = 0;
    proof {
        assert(s@.skip(0) =~= s@);
    }
    while i < n
        invariant
            i <= n,
            n == s@.len(),
            text@ == s@,
            acc <= u16::MAX,
            all_digits(s@.take(i as int)),
            spec_digits_val(s@, 0) == spec_digits_val(s@.skip(i as int), acc as int),
        decreases n - i,
    {
        let c = text.get_char(i);
        if c < '0' || c > '9' {
            proof {
                assert(!all_digits(s@));
            }
            return None;
        }
        let d = (c as u32) - 48;
        let next = acc * 10 + d;
        proof {
            assert(s@.skip(i as int)[0] == s@[i as int]);
            assert(s@.skip(i as int).drop_first() =~= s@.skip(i as int + 1));
            assert(all_digits(s@.take(i as int + 1)));
        }
        if next > 65535 {
            proof {
                assert(all_digits(s@.skip(i as int + 1)) ==> all_digits(s@)) by {
                    if all_digits(s@.skip(i as int + 1)) {
                        assert forall|k: int| 0 <= k < s@.len() implies '0' <= #[trigger] s@[k]
                            <= '9' by {
                            if k <= i {
                                assert(s@.take(i as int + 1)[k] == s@[k]);
                            } else {
                                assert(s@.skip(i as int + 1)[k - i - 1] == s@[k]);
                            }
                        }
                    }
                }
                if all_digits(s@) {
                    assert(all_digits(s@.skip(i as int + 1))) by {
                        assert forall|k: int|
                            0 <= k < s@.skip(i as int + 1).len() implies '0' <= #[trigger] s@.skip(
                            i as int + 1,
                        )[k] <= '9' by {
                            assert(s@.skip(i as int + 1)[k] == s@[k + i + 1]);
                        }
                    }
                    lemma_digits_monotone(s@.skip(i as int + 1), next as int);
                }
            }
            return None;
        }
        acc = next;
        i = i + 1;
    }
    proof {
        assert(s@.take(s@.len() as int) =~= s@);
        assert(s@.skip(s@.len() as int) =~= Seq::<char>::empty());
    }
    Some(acc as u16)
}

/// Checks a received discovery record: unpacks it, reads the signature,
/// name, port and verifying key, and accepts exactly when the signature over
/// the name verifies under the key.
pub fn verify_record(record: &Vec<u8>) -> (r: Result<DnsRecord, ChatError>)
    ensures
        (forall|ps: Seq<(Seq<char>, Seq<char>)>|
            (forall|i: int| 0 <= i < ps.len() ==> wf_pair((#[trigger] ps[i]).0, ps[i].1))
                && record@ == #[trigger] spec_txt(ps) ==> (r matches Ok(d)
                ==> spec_lookup(ps, "name"@) == Some(d.name@) && spec_lookup(ps, "pub_key"@)
                == Some(d.pub_key@))),
{
    let pairs = match decode_txt_record(record) {
        None => {
            return Err(ChatError::FailedToDecodeTxtRecord);
        },
        Some(p) => p,
    };
    verify_record_pairs(&pairs)
}

/// Checks an unpacked discovery record.  A record carrying a name, a
/// parsable port, and a key and signature in lowercase hex such that the
/// signature verifies over the name is accepted.
pub fn verify_record_pairs(pairs: &Vec<(String, String)>) -> (r: Result<DnsRecord, ChatError>)
    ensures
        (({
            let pv = pair_views(pairs@);
            spec_lookup(pv, "name"@) matches Some(nm) && (spec_lookup(pv, "port"@) matches Some(
                pt,
            ) && pt.len() > 0 && all_digits(pt) && spec_digits_val(pt, 0) <= u16::MAX && (
            exists|kb: Seq<u8>|
                spec_lookup(pv, "pub_key"@) == Some(#[trigger] spec_hex(kb)) && (exists|sb: Seq<
                    u8,
                >|
                    spec_lookup(pv, "signature"@) == Some(#[trigger] spec_hex(sb))
                        && spec_ed25519_valid(kb, encode_utf8(nm), sb))))
        }) ==> r is Ok),
        (r matches Ok(d) ==> ({
            let pv = pair_views(pairs@);
            &&& spec_lookup(pv, "name"@) == Some(d.name@)
            &&& spec_lookup(pv, "pub_key"@) == Some(d.pub_key@)
            &&& (spec_lookup(pv, "port"@) matches Some(p) && all_digits(p) && spec_digits_val(
                p,
                0,
            ) == d.port)
            &&& (forall|kb: Seq<u8>, sb: Seq<u8>|
                d.pub_key@ == spec_hex(kb) && (spec_lookup(pv, "signature"@) matches Some(ss)
                    && ss == #[trigger] spec_hex(sb)) ==> #[trigger] spec_ed25519_valid(
                    kb,
                    encode_utf8(d.name@),
                    sb,
                ))
        })),
{
    let sig_key = ("signature").to_owned();
    let name_key = ("name").to_owned();
    let port_key = ("port").to_owned();
    let pub_key_key = ("pub_key").to_owned();
    let signature = match lookup_value(pairs, &sig_key) {
        None => {
            return Err(ChatError::FailedToDecodeTxtRecord);
        },
        Some(v) => v,
    };
    let name = match lookup_value(pairs, &name_key) {
        None => {
            return Err(ChatError::FailedToDecodeTxtRecord);
        },
        Some(v) => v,
    };
    let port_text = match lookup_value(pairs, &port_key) {
        None => {
            return Err(ChatError::FailedToDecodeTxtRecord);
        },
        Some(v) => v,
    };
    let pub_key = match lookup_value(pairs, &pub_key_key) {
        None => {
            return Err(ChatError::FailedToDecodeTxtRecord);
        },
        Some(v) => v,
    };
    let sig_bytes = match hex_decode(&signature) {
        None => {
            return Err(ChatError::FailedToDecodeTxtRecord);
        },
        Some(b) => b,
    };
    let key_bytes = match hex_decode(&pub_key) {
        None => {
            return Err(ChatError::FailedToDecodeTxtRecord);
        },
        Some(b) => b,
    };
    let name_bytes = name.as_str().as_bytes_vec();
    if !ed25519_verify(&key_bytes, &name_bytes, &sig_bytes) {
        return Err(ChatError::FailedToDecodeTxtRecord);
    }
    let port = match parse_port(&port_text) {
        None => {
            return Err(ChatError::FailedToDecodeTxtRecord);
        },
        Some(p) => p,
    };
    Ok(DnsRecord { port, name, pub_key })
}

} // verus!
