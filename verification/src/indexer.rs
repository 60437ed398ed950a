//! The derived index: one row per stored entry, with the decoded payload
//! fields and, once the referenced file is local, its path.  Rows are keyed
//! by an order key that sorts like the global order.

use vstd::prelude::*;
use vstd::utf8::{encode_utf8, valid_utf8};

use crate::codec::{decode_payload, spec_enc_payload, str_views, MessagePayloadView};
use crate::file_catalog::FileCatalog;
use crate::models::{DbMessage, IndexedMessage};
use crate::repository::equal_strings;
use crate::wire::{append_bytes, bytes_to_string};

verus! {

broadcast use vstd::utf8::valid_utf8_concat, vstd::utf8::encode_utf8_valid_utf8;

/// Mathematical content of one index row.
pub struct IndexedMessageView {
    pub id: Seq<char>,
    pub order_id: Seq<char>,
    pub mentions: Seq<Seq<char>>,
    pub reply: Option<Seq<char>>,
    pub text: Seq<char>,
    pub file_id: Option<Seq<char>>,
    pub file_path: Option<Seq<char>>,
    pub peer_id: Seq<char>,
}

impl View for IndexedMessage {
    type V = IndexedMessageView;

    open spec fn view(&self) -> IndexedMessageView {
        IndexedMessageView {
            id: self.id@,
            order_id: self.order_id@,
            mentions: str_views(self.mentions@),
            reply: crate::peers::opt_str_view(self.reply),
            text: self.text@,
            file_id: crate::peers::opt_str_view(self.file_id),
            file_path: crate::peers::opt_str_view(self.file_path),
            peer_id: self.peer_id@,
        }
    }
}

impl IndexedMessage {
    /// A copy of the row with the same content.
    pub fn duplicate(&self) -> (r: IndexedMessage)
        ensures
            r@ == self@,
    {
        let mut mentions: Vec<String> = Vec::new();
        let mut i: usize = 0;
        while i < self.mentions.len()
            invariant
                i <= self.mentions@.len(),
                mentions@.len() == i,
                forall|k: int| 0 <= k < i ==> (#[trigger] mentions@[k]@) == self.mentions@[k]@,
            decreases self.mentions@.len() - i,
        {
            mentions.push(self.mentions[i].clone());
            i = i + 1;
        }
        let r = IndexedMessage {
            id: self.id.clone(),
            order_id: self.order_id.clone(),
            mentions,
            reply: clone_opt_string(&self.reply),
            text: self.text.clone(),
            file_id: clone_opt_string(&self.file_id),
            file_path: clone_opt_string(&self.file_path),
            peer_id: self.peer_id.clone(),
        };
        proof {
            assert(str_views(r.mentions@) =~= str_views(self.mentions@));
        }
        r
    }
}

/// A copy of an optional string with the same characters.
pub fn clone_opt_string(s: &Option<String>) -> (r: Option<String>)
    ensures
        crate::peers::opt_str_view(r) == crate::peers::opt_str_view(*s),
{
    match s {
        Some(x) => Some(x.clone()),
        None => None,
    }
}

/// The ASCII decimal digits of `n`, most significant first.
pub open spec fn spec_dec_bytes(n: u64) -> Seq<u8>
    decreases n,
{
    if n < 10 {
        seq![(48 + n) as u8]
    } else {
        spec_dec_bytes(n / 10) + seq![(48 + n % 10) as u8]
    }
}

/// The digits of `n`, left-padded with zeros to at least eight places.
pub open spec fn spec_padded_dec(n: u64) -> Seq<u8> {
    if spec_dec_bytes(n).len() >= 8 {
        spec_dec_bytes(n)
    } else {
        Seq::new((8 - spec_dec_bytes(n).len()) as nat, |i: int| 48u8) + spec_dec_bytes(n)
    }
}

/// The order key of an entry: the padded decimal order, a dash, the
/// authoring peer.  Keys compare like `(order, peer_id)` for orders below
/// one hundred million.
pub open spec fn spec_order_key(order: u64, peer_id: Seq<char>) -> Seq<u8> {
    spec_padded_dec(order) + seq![45u8] + encode_utf8(peer_id)
}

/// Every decimal digit byte is ASCII.
proof fn lemma_dec_bytes_ascii(n: u64)
    ensures
        spec_dec_bytes(n).len() >= 1,
        forall|i: int|
            0 <= i < spec_dec_bytes(n).len() ==> 48 <= #[trigger] spec_dec_bytes(n)[i] <= 57,
    decreases n,
{
    if n >= 10 {
        lemma_dec_bytes_ascii(n / 10);
        assert forall|i: int|
            0 <= i < spec_dec_bytes(n).len() implies 48 <= #[trigger] spec_dec_bytes(n)[i]
            <= 57 by {
            if i < spec_dec_bytes(n / 10).len() {
                assert(spec_dec_bytes(n)[i] == spec_dec_bytes(n / 10)[i]);
            }
        }
    }
}

/// The decimal digits of `n`, as bytes.
fn dec_bytes(n: u64) -> (r: Vec<u8>)
    ensures
        r@ == spec_dec_bytes(n),
    decreases n,
{
    if n < 10 {
        let mut r: Vec<u8> = Vec::new();
        r.push(48 + n as u8);
        proof {
            assert(r@ =~= spec_dec_bytes(n));
        }
        r
    } else {
        let mut r = dec_bytes(n / 10);
        r.push(48 + (n % 10) as u8);
        proof {
            assert(r@ =~= spec_dec_bytes(n));
        }
        r
    }
}

/// The order key of an entry, as a string.
pub fn format_order_id(order: u64, peer_id: &String) -> (r: String)
    ensures
        encode_utf8(r@) == spec_order_key(order, peer_id@),
{
    let digits = dec_bytes(order);
    let mut key: Vec<u8> = Vec::new();
    let mut pad: usize = 0;
    let digit_count = digits.len();
    let target_pad: usize = if digit_count >= 8 {
        0
    } else {
        8 - digit_count
    };
    while pad < target_pad
        invariant
            pad <= target_pad,
            key@ =~= Seq::new(pad as nat, |i: int| 48u8),
        decreases target_pad - pad,
    {
        key.push(48);
        proof {
            assert(key@ =~= Seq::new(pad as nat + 1, |i: int| 48u8));
        }
        pad = pad + 1;
    }
    append_bytes(&mut key, &digits);
    proof {
        assert(key@ =~= spec_padded_dec(order));
    }
    key.push(45);
    let peer_bytes = peer_id.as_str().as_bytes_vec();
    append_bytes(&mut key, &peer_bytes);
    proof {
        assert(key@ =~= spec_order_key(order, peer_id@));
        lemma_dec_bytes_ascii(order);
        assert(valid_utf8(spec_padded_dec(order) + seq![45u8])) by {
            let prefix = spec_padded_dec(order) + seq![45u8];
            assert(forall|i: int|
                0 <= i < prefix.len() ==> #[trigger] vstd::utf8::is_leading_byte_width_1(
                    prefix[i],
                ));
            assert(vstd::utf8::partial_valid_utf8(prefix, 0)) by {
                assert(prefix.subrange(0, 0) =~= Seq::<u8>::empty());
                reveal_with_fuel(valid_utf8, 2);
            }
            vstd::utf8::partial_valid_utf8_extend_ascii_block(prefix, 0, prefix.len() as int);
            assert(prefix.subrange(0, prefix.len() as int) =~= prefix);
        }
        assert(key@ =~= (spec_padded_dec(order) + seq![45u8]) + encode_utf8(peer_id@));
        assert(valid_utf8(key@));
    }
    let text = match bytes_to_string(&key) {
        Some(s) => s,
        None => {
            proof {
                assert(false);
            }
            String::new()
        },
    };
    text
}

/// The index row of one stored entry: the decoded payload fields, the order
/// key, and the file's local path when the catalog already holds it.  Fails
/// exactly when the payload bytes are not a payload encoding this library
/// writes.
pub fn process_message(msg: &DbMessage, catalog: &FileCatalog) -> (r: Option<IndexedMessage>)
    requires
        catalog.wf(),
    ensures
        (forall|pv: MessagePayloadView|
            msg.payload@ == #[trigger] spec_enc_payload(pv) ==> (r matches Some(row) && ({
                &&& row@.id == msg@.id
                &&& encode_utf8(row@.order_id) == spec_order_key(msg@.order, msg@.peer_id)
                &&& row@.mentions == pv.mentions
                &&& row@.text == pv.text
                &&& row@.peer_id == msg@.peer_id
                &&& (pv.reply_id.len() == 0 ==> row@.reply is None)
                &&& (pv.reply_id.len() > 0 ==> row@.reply == Some(pv.reply_id))
                &&& (pv.file_id.len() == 0 ==> row@.file_id is None && row@.file_path is None)
                &&& (pv.file_id.len() > 0 ==> row@.file_id == Some(pv.file_id) && (
                catalog.has_file(pv.file_id) ==> row@.file_path == Some(
                    catalog.descriptor_of(pv.file_id).local_path,
                )) && (!catalog.has_file(pv.file_id) ==> row@.file_path is None))
            }))),
{
    let payload = match decode_payload(&msg.payload) {
        None => {
            return None;
        },
        Some(p) => p,
    };
    let file_path = if payload.file_id.as_str().unicode_len() > 0 {
        match catalog.get_by_id(&payload.file_id) {
            Some(descr) => Some(descr.local_path),
            None => None,
        }
    } else {
        None
    };
    let file_id = if payload.file_id.as_str().unicode_len() > 0 {
        Some(payload.file_id)
    } else {
        None
    };
    let reply = if payload.reply_id.as_str().unicode_len() > 0 {
        Some(payload.reply_id)
    } else {
        None
    };
    let row = IndexedMessage {
        id: msg.id.clone(),
        order_id: format_order_id(msg.order, &msg.peer_id),
        mentions: payload.mentions,
        reply,
        text: payload.text,
        file_id,
        file_path,
        peer_id: msg.peer_id.clone(),
    };
    Some(row)
}

/// The views of a sequence of index rows, element for element.
pub open spec fn row_views(s: Seq<IndexedMessage>) -> Seq<IndexedMessageView> {
    Seq::new(s.len(), |i: int| s[i]@)
}

/// The in-memory index: rows in append order (global orders only grow, so
/// that is order-key order).
pub struct IndexStore {
    rows: Vec<IndexedMessage>,
}

impl IndexStore {
    /// The stored rows, in append order.
    pub closed spec fn rows_spec(&self) -> Seq<IndexedMessageView> {
        Seq::new(self.rows@.len(), |i: int| self.rows@[i]@)
    }

    /// An empty index.
    pub fn new() -> (r: IndexStore)
        ensures
            r.rows_spec() == Seq::<IndexedMessageView>::empty(),
    {
        let r = IndexStore { rows: Vec::new() };
        proof {
            assert(r.rows_spec() =~= Seq::<IndexedMessageView>::empty());
        }
        r
    }

    /// Appends one row.
    pub fn save(&mut self, row: IndexedMessage)
        ensures
            final(self).rows_spec() == old(self).rows_spec().push(row@),
    {
        let ghost pre = self.rows_spec();
        let ghost rv = row@;
        self.rows.push(row);
        proof {
            assert(self.rows_spec() =~= pre.push(rv));
        }
    }

    /// The row `v` with its file path set to `p`.
    pub open spec fn with_path(v: IndexedMessageView, p: Seq<char>) -> IndexedMessageView {
        IndexedMessageView { file_path: Some(p), ..v }
    }

    /// Fills in `file_path` on every row that references `file_id` and
    /// returns copies of exactly the rows now updated, in row order, so
    /// subscribers can be told the file is available.
    pub fn update_file_id(&mut self, file_id: &String, file_path: &String) -> (r: Vec<
        IndexedMessage,
    >)
        ensures
            final(self).rows_spec().len() == old(self).rows_spec().len(),
            forall|i: int|
                0 <= i < old(self).rows_spec().len() ==> (#[trigger] final(self).rows_spec()[i])
                    == (if old(self).rows_spec()[i].file_id == Some(file_id@) {
                    IndexStore::with_path(old(self).rows_spec()[i], file_path@)
                } else {
                    old(self).rows_spec()[i]
                }),
            row_views(r@) == old(self).rows_spec().filter(
                (|v: IndexedMessageView| v.file_id == Some(file_id@)),
            ).map_values((|v: IndexedMessageView| IndexStore::with_path(v, file_path@))),
            forall|k: int|
                0 <= k < r@.len() ==> (#[trigger] r@[k]@).file_id == Some(file_id@) && r@[k]@.file_path
                    == Some(file_path@),
    {
        let ghost fpred = |v: IndexedMessageView| v.file_id == Some(file_id@);
        let ghost fmap = |v: IndexedMessageView| IndexStore::with_path(v, file_path@);
        let mut updated: Vec<IndexedMessage> = Vec::new();
        let mut i: usize = 0;
        let ghost pre = self.rows_spec();
        proof {
            assert(pre.take(0) =~= Seq::<IndexedMessageView>::empty());
            assert(Seq::<IndexedMessageView>::empty().filter(fpred)
                =~= Seq::<IndexedMessageView>::empty()) by {
                reveal(Seq::filter);
            }
            assert(row_views(updated@) =~= Seq::<IndexedMessageView>::empty().map_values(fmap));
        }
        while i < self.rows.len()
            invariant
                i <= self.rows@.len(),
                pre == old(self).rows_spec(),
                fpred == (|v: IndexedMessageView| v.file_id == Some(file_id@)),
                fmap == (|v: IndexedMessageView| IndexStore::with_path(v, file_path@)),
                row_views(updated@) == pre.take(i as int).filter(fpred).map_values(fmap),
                self.rows_spec().len() == pre.len(),
                forall|k: int|
                    i <= k < pre.len() ==> (#[trigger] self.rows_spec()[k]) == pre[k],
                forall|k: int|
                    0 <= k < i ==> (#[trigger] self.rows_spec()[k]) == (if pre[k].file_id == Some(
                        file_id@,
                    ) {
                        IndexStore::with_path(pre[k], file_path@)
                    } else {
                        pre[k]
                    }),
                forall|k: int|
                    0 <= k < updated@.len() ==> (#[trigger] updated@[k]@).file_id == Some(file_id@)
                        && updated@[k]@.file_path == Some(file_path@),
            decreases self.rows@.len() - i,
        {
            let matches_file = match &self.rows[i].file_id {
                Some(f) => equal_strings(f, file_id),
                None => false,
            };
            proof {
                assert(pre.take(i as int + 1) =~= pre.take(i as int).push(pre[i as int]));
                crate::repository::lemma_filter_push(pre.take(i as int), pre[i as int], fpred);
                assert(self.rows_spec()[i as int] == pre[i as int]);
                assert(pre[i as int].file_id == crate::peers::opt_str_view(
                    self.rows@[i as int].file_id,
                ));
                assert(matches_file == fpred(pre[i as int]));
            }
            if matches_file {
                let ghost before = self.rows_spec();
                let row = &mut self.rows[i];
                row.file_path = Some(file_path.clone());
                proof {
                    assert(self.rows_spec() =~= before.update(
                        i as int,
                        IndexStore::with_path(before[i as int], file_path@),
                    ));
                }
                let ghost uv = row_views(updated@);
                updated.push(self.rows[i].duplicate());
                proof {
                    assert(row_views(updated@) =~= uv.push(fmap(pre[i as int])));
                    assert(pre.take(i as int).filter(fpred).push(pre[i as int]).map_values(fmap)
                        =~= pre.take(i as int).filter(fpred).map_values(fmap).push(
                        fmap(pre[i as int]),
                    ));
                }
            }
            i = i + 1;
        }
        proof {
            assert(pre.take(pre.len() as int) =~= pre);
        }
        updated
    }

    /// Copies of all rows, in append order.
    pub fn get_all(&self) -> (r: Vec<IndexedMessage>)
        ensures
            r@.len() == self.rows_spec().len(),
            forall|i: int| 0 <= i < r@.len() ==> (#[trigger] r@[i]@) == self.rows_spec()[i],
    {
        let mut r: Vec<IndexedMessage> = Vec::new();
        let mut i: usize = 0;
        while i < self.rows.len()
            invariant
                i <= self.rows@.len(),
                r@.len() == i,
                forall|k: int| 0 <= k < i ==> (#[trigger] r@[k]@) == self.rows_spec()[k],
            decreases self.rows@.len() - i,
        {
            r.push(self.rows[i].duplicate());
            i = i + 1;
        }
        r
    }
}

} // verus!
