//! Data model of the log: stored entries, indexed rows, and the builder that
//! callers use to author a new message.

use vstd::prelude::*;

verus! {

/// One entry of an authoring peer's append-only log.
///
/// `counter` is 1-based and dense within `peer_id`; `order` is the
/// process-wide sequence number assigned when the entry first enters this
/// node.  `payload` carries the encoded structured body.
#[derive(Debug, Clone)]
pub struct DbMessage {
    pub counter: u64,
    pub id: String,
    pub order: u64,
    pub timestamp: i64,
    pub payload: Vec<u8>,
    pub peer_id: String,
}

/// Mathematical content of one log entry: every field down to its bytes.
pub struct DbMessageView {
    pub counter: u64,
    pub id: Seq<char>,
    pub order: u64,
    pub timestamp: i64,
    pub payload: Seq<u8>,
    pub peer_id: Seq<char>,
}

impl View for DbMessage {
    type V = DbMessageView;

    open spec fn view(&self) -> DbMessageView {
        DbMessageView {
            counter: self.counter,
            id: self.id@,
            order: self.order,
            timestamp: self.timestamp,
            payload: self.payload@,
            peer_id: self.peer_id@,
        }
    }
}

/// The views of a sequence of entries, element for element.
pub open spec fn views_of(s: Seq<DbMessage>) -> Seq<DbMessageView> {
    Seq::new(s.len(), |i: int| s[i]@)
}

impl DbMessage {
    /// A copy of the entry whose content is the same, field for field.
    pub fn duplicate(&self) -> (r: DbMessage)
        ensures
            r@ == self@,
    {
        DbMessage {
            counter: self.counter,
            id: self.id.clone(),
            order: self.order,
            timestamp: self.timestamp,
            payload: clone_bytes(&self.payload),
            peer_id: self.peer_id.clone(),
        }
    }
}

/// A copy of a byte vector with the same contents.
pub fn clone_bytes(v: &Vec<u8>) -> (r: Vec<u8>)
    ensures
        r@ == v@,
{
    let mut r: Vec<u8> = Vec::new();
    let mut i: usize = 0;
    while i < v.len()
        invariant
            i <= v@.len(),
            r@ == v@.take(i as int),
        decreases v@.len() - i,
    {
        r.push(v[i]);
        proof {
            assert(r@ =~= v@.take(i as int + 1));
        }
        i = i + 1;
    }
    proof {
        assert(v@.take(v@.len() as int) =~= v@);
    }
    r
}

/// A derived row of the index, keyed by `order_id`, duplicating the decoded
/// payload fields.  `file_path` is the only mutable column: it is filled in
/// once the referenced file is materialized locally.
#[derive(Debug, Clone)]
pub struct IndexedMessage {
    pub id: String,
    pub order_id: String,
    pub mentions: Vec<String>,
    pub reply: Option<String>,
    pub text: String,
    pub file_id: Option<String>,
    pub file_path: Option<String>,
    pub peer_id: String,
}

/// Step-by-step construction of a fresh log entry.  The built entry carries
/// counter 0 and order 0: both are assigned when the entry is appended.
pub struct MessageBuilder {
    pub id: String,
    pub timestamp: i64,
    pub peer_id: String,
    pub text: Option<String>,
    pub file_id: Option<String>,
}

impl MessageBuilder {
    pub fn new(id: String, timestamp: i64, peer_id: String) -> (r: MessageBuilder)
        ensures
            r.id == id,
            r.timestamp == timestamp,
            r.peer_id == peer_id,
            r.text is None,
            r.file_id is None,
    {
        MessageBuilder { id, timestamp, peer_id, text: None, file_id: None }
    }

    pub fn text(self, text: String) -> (r: MessageBuilder)
        ensures
            r.text == Some(text),
            r.id == self.id,
            r.timestamp == self.timestamp,
            r.peer_id == self.peer_id,
            r.file_id == self.file_id,
    {
        MessageBuilder { text: Some(text), ..self }
    }

    pub fn file_id(self, file_id: String) -> (r: MessageBuilder)
        ensures
            r.file_id == Some(file_id),
            r.id == self.id,
            r.timestamp == self.timestamp,
            r.peer_id == self.peer_id,
            r.text == self.text,
    {
        MessageBuilder { file_id: Some(file_id), ..self }
    }
}

} // verus!
