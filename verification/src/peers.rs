//! Peer identities: the records of known authoring peers, including this
//! node's own identity (the one record that carries a signing key).

use vstd::prelude::*;

use crate::codec::PeerRecord;
use crate::crypto::{
    ed25519_key_is_valid, ed25519_public_key, hex_decode, hex_encode, random_bytes_32,
    spec_ed25519_key_ok, spec_ed25519_pub, spec_hex,
};
use crate::repository::equal_strings;
use crate::ChatError;

verus! {

/// One known peer: its id (lowercase hex of the verifying key), display
/// name, creation time, verifying key bytes, and — for the local identity
/// only — the signing key bytes.
#[derive(Debug)]
pub struct Peer {
    pub id: String,
    pub name: Option<String>,
    pub created_at: i64,
    pub public_key: Vec<u8>,
    pub signing_key: Option<Vec<u8>>,
}

/// The view of an optional string.
pub open spec fn opt_str_view(s: Option<String>) -> Option<Seq<char>> {
    match s {
        Some(x) => Some(x@),
        None => None,
    }
}

/// The view of optional key bytes.
pub open spec fn opt_bytes_view(s: Option<Vec<u8>>) -> Option<Seq<u8>> {
    match s {
        Some(x) => Some(x@),
        None => None,
    }
}

/// Mathematical content of a peer record.
pub struct PeerView {
    pub id: Seq<char>,
    pub name: Option<Seq<char>>,
    pub created_at: i64,
    pub public_key: Seq<u8>,
    pub signing_key: Option<Seq<u8>>,
}

impl View for Peer {
    type V = PeerView;

    open spec fn view(&self) -> PeerView {
        PeerView {
            id: self.id@,
            name: opt_str_view(self.name),
            created_at: self.created_at,
            public_key: self.public_key@,
            signing_key: opt_bytes_view(self.signing_key),
        }
    }
}

impl Peer {
    /// A peer from a received identity: the id, a name, the hex of its
    /// verifying key, and the time of receipt.  Exactly the records whose
    /// key field is the hex of a well-formed verifying key are accepted.
    pub fn new(id: String, name: String, pub_key: String, created_at: i64) -> (r: Result<
        Peer,
        ChatError,
    >)
        ensures
            (r matches Ok(p) ==> p@.id == id@ && p@.name == Some(name@) && p@.created_at
                == created_at && p@.public_key.len() == 32 && p@.signing_key is None),
            (r matches Ok(p) ==> forall|b: Seq<u8>| pub_key@ == #[trigger] spec_hex(b) ==> p@.public_key
                == b),
            (forall|b: Seq<u8>|
                pub_key@ == #[trigger] spec_hex(b) ==> (r is Ok <==> spec_ed25519_key_ok(b))),
            (r matches Err(e) ==> e is FailedToDecodeTxtRecord),
    {
        let bytes = match hex_decode(&pub_key) {
            Some(b) => b,
            None => {
                return Err(ChatError::FailedToDecodeTxtRecord);
            },
        };
        if !ed25519_key_is_valid(&bytes) {
            return Err(ChatError::FailedToDecodeTxtRecord);
        }
        Ok(Peer { id, name: Some(name), created_at, public_key: bytes, signing_key: None })
    }

    /// The display name, or a fixed default when none was given.
    pub fn get_name(&self) -> (r: String)
        ensures
            r@ == match self@.name {
                Some(n) => n,
                None => "Default"@,
            },
    {
        match &self.name {
            Some(n) => n.clone(),
            None => {
                let d = "Default";
                d.to_owned()
            },
        }
    }

    /// A copy of the record with the same content.
    pub fn duplicate(&self) -> (r: Peer)
        ensures
            r@ == self@,
    {
        let name = match &self.name {
            Some(n) => Some(n.clone()),
            None => None,
        };
        let signing_key = match &self.signing_key {
            Some(k) => Some(crate::models::clone_bytes(k)),
            None => None,
        };
        Peer {
            id: self.id.clone(),
            name,
            created_at: self.created_at,
            public_key: crate::models::clone_bytes(&self.public_key),
            signing_key,
        }
    }

    /// The wire identity record of this peer: id, name, and the lowercase
    /// hex of its verifying key.
    pub fn to_record(&self) -> (r: PeerRecord)
        ensures
            r@.id == self@.id,
            r@.name == match self@.name {
                Some(n) => n,
                None => "Default"@,
            },
            r@.pub_key == spec_hex(self@.public_key),
    {
        PeerRecord {
            id: self.id.clone(),
            name: self.get_name(),
            pub_key: hex_encode(&self.public_key),
        }
    }
}

/// The known peers, keyed by id; insert-or-replace on save.
pub struct PeerStore {
    peers: Vec<Peer>,
}

impl PeerStore {
    /// The stored records, in first-save order.
    pub closed spec fn peers_spec(&self) -> Seq<PeerView> {
        Seq::new(self.peers@.len(), |i: int| self.peers@[i]@)
    }

    /// Whether a record for `id` is stored.
    pub open spec fn has_peer(&self, id: Seq<char>) -> bool {
        exists|i: int|
            0 <= i < self.peers_spec().len() && (#[trigger] self.peers_spec()[i]).id == id
    }

    /// The index of the record for `id` (meaningful when `has_peer`).
    pub open spec fn peer_index(&self, id: Seq<char>) -> int {
        choose|i: int|
            0 <= i < self.peers_spec().len() && (#[trigger] self.peers_spec()[i]).id == id
    }

    /// The record stored for `id` (meaningful when `has_peer`).
    pub open spec fn record_of(&self, id: Seq<char>) -> PeerView {
        self.peers_spec()[self.peer_index(id)]
    }

    /// No two stored records share an id.
    pub open spec fn wf(&self) -> bool {
        forall|i: int, j: int|
            #![trigger self.peers_spec()[i], self.peers_spec()[j]]
            0 <= i < j < self.peers_spec().len() ==> self.peers_spec()[i].id
                != self.peers_spec()[j].id
    }

    /// An empty store.
    pub fn new() -> (r: PeerStore)
        ensures
            r.wf(),
            r.peers_spec() == Seq::<PeerView>::empty(),
    {
        let r = PeerStore { peers: Vec::new() };
        proof {
            assert(r.peers_spec() =~= Seq::<PeerView>::empty());
        }
        r
    }

    /// The index of the record for `id`, if one is stored.
    fn find(&self, id: &String) -> (r: Option<usize>)
        requires
            self.wf(),
        ensures
            (r matches Some(i) ==> self.has_peer(id@) && i == self.peer_index(id@)
                && i < self.peers_spec().len()),
            (r is None ==> !self.has_peer(id@)),
    {
        let mut i: usize = 0;
        while i < self.peers.len()
            invariant
                self.wf(),
                i <= self.peers_spec().len(),
                forall|j: int| 0 <= j < i ==> (#[trigger] self.peers_spec()[j]).id != id@,
            decreases self.peers_spec().len() - i,
        {
            if equal_strings(&self.peers[i].id, id) {
                proof {
                    assert(self.peers_spec()[i as int].id == id@);
                    let w = self.peer_index(id@);
                    if w != i as int {
                        assert(self.peers_spec()[w].id == id@);
                    }
                }
                return Some(i);
            }
            proof {
                assert(self.peers_spec()[i as int].id != id@);
            }
            i = i + 1;
        }
        proof {
            if self.has_peer(id@) {
                let w = self.peer_index(id@);
                assert(self.peers_spec()[w].id == id@);
            }
        }
        None
    }

    /// Stores `peer`, replacing any record already held under its id.
    pub fn save_peer(&mut self, peer: Peer)
        requires
            old(self).wf(),
        ensures
            final(self).wf(),
            final(self).has_peer(peer@.id),
            final(self).record_of(peer@.id) == peer@,
            forall|id: Seq<char>|
                id != peer@.id ==> (final(self).has_peer(id) == old(self).has_peer(id) && (old(
                    self,
                ).has_peer(id) ==> final(self).record_of(id) == old(self).record_of(id))),
    {
        let ghost pv = peer@;
        let found = self.find(&peer.id);
        match found {
            Some(i) => {
                let ghost pre = self.peers_spec();
                self.peers[i] = peer;
                proof {
                    assert(self.peers_spec() =~= pre.update(i as int, pv));
                    assert(pre[i as int].id == pv.id);
                    lemma_store_update(pre, self.peers_spec(), i as int, pv);
                    assert(self.has_peer(pv.id));
                    let w = self.peer_index(pv.id);
                    assert(self.peers_spec()[w].id == pv.id);
                    if w != i as int {
                        assert(self.peers_spec()[w].id != self.peers_spec()[i as int].id);
                    }
                    assert forall|id: Seq<char>| id != pv.id implies (self.has_peer(id) == old(
                        self,
                    ).has_peer(id) && (old(self).has_peer(id) ==> self.record_of(id) == old(
                        self,
                    ).record_of(id))) by {
                        if old(self).has_peer(id) {
                            let w1 = old(self).peer_index(id);
                            assert(pre[w1].id == id);
                            assert(w1 != i as int);
                            assert(self.peers_spec()[w1].id == id);
                            assert(self.has_peer(id));
                            let w2 = self.peer_index(id);
                            assert(self.peers_spec()[w2].id == id);
                            if w2 != w1 {
                                assert(self.peers_spec()[w2].id != self.peers_spec()[w1].id);
                            }
                        }
                        if self.has_peer(id) {
                            let w2 = self.peer_index(id);
                            assert(self.peers_spec()[w2].id == id);
                            assert(w2 != i as int);
                            assert(pre[w2].id == id);
                            assert(old(self).has_peer(id));
                        }
                    }
                }
            },
            None => {
                let ghost pre = self.peers_spec();
                let idx = self.peers.len();
                self.peers.push(peer);
                proof {
                    assert(self.peers_spec() =~= pre.push(pv));
                    assert forall|i: int, j: int|
                        #![trigger self.peers_spec()[i], self.peers_spec()[j]]
                        0 <= i < j < self.peers_spec().len() implies self.peers_spec()[i].id
                        != self.peers_spec()[j].id by {
                        if j < pre.len() {
                            assert(pre[i].id != pre[j].id);
                        } else {
                            assert(pre[i].id != pv.id);
                        }
                    }
                    assert(self.has_peer(pv.id));
                    let w = self.peer_index(pv.id);
                    assert(self.peers_spec()[w].id == pv.id);
                    if w != idx as int {
                        assert(self.peers_spec()[w].id != self.peers_spec()[idx as int].id);
                    }
                    assert forall|id: Seq<char>| id != pv.id implies (self.has_peer(id) == old(
                        self,
                    ).has_peer(id) && (old(self).has_peer(id) ==> self.record_of(id) == old(
                        self,
                    ).record_of(id))) by {
                        lemma_frame_after_push(pre, self.peers_spec(), pv, id);
                    }
                }
            },
        }
    }

    /// The record stored for `id`, if any.
    pub fn get_peer_by_id(&self, id: &String) -> (r: Option<Peer>)
        requires
            self.wf(),
        ensures
            (r matches Some(p) ==> self.has_peer(id@) && p@ == self.record_of(id@)),
            (r is None ==> !self.has_peer(id@)),
    {
        match self.find(id) {
            Some(i) => Some(self.peers[i].duplicate()),
            None => None,
        }
    }

    /// Copies of all stored records, in first-save order.
    pub fn get_all_peers(&self) -> (r: Vec<Peer>)
        requires
            self.wf(),
        ensures
            r@.len() == self.peers_spec().len(),
            forall|i: int| 0 <= i < r@.len() ==> (#[trigger] r@[i]@) == self.peers_spec()[i],
    {
        let mut r: Vec<Peer> = Vec::new();
        let mut i: usize = 0;
        while i < self.peers.len()
            invariant
                i <= self.peers_spec().len(),
                r@.len() == i,
                forall|j: int| 0 <= j < i ==> (#[trigger] r@[j]@) == self.peers_spec()[j],
            decreases self.peers_spec().len() - i,
        {
            r.push(self.peers[i].duplicate());
            i = i + 1;
        }
        r
    }

    /// The first stored record that carries a signing key: this node's own
    /// identity, if one was created or loaded.
    pub fn get_local_peer(&self) -> (r: Option<Peer>)
        requires
            self.wf(),
        ensures
            (r matches Some(p) ==> p@.signing_key is Some && exists|i: int|
                0 <= i < self.peers_spec().len() && (#[trigger] self.peers_spec()[i]) == p@),
            (r is None ==> forall|i: int|
                0 <= i < self.peers_spec().len() ==> (#[trigger] self.peers_spec()[i]).signing_key
                    is None),
    {
        let mut i: usize = 0;
        while i < self.peers.len()
            invariant
                i <= self.peers_spec().len(),
                forall|j: int|
                    0 <= j < i ==> (#[trigger] self.peers_spec()[j]).signing_key is None,
            decreases self.peers_spec().len() - i,
        {
            if self.peers[i].signing_key.is_some() {
                let p = self.peers[i].duplicate();
                proof {
                    assert(self.peers_spec()[i as int] == p@);
                }
                return Some(p);
            }
            i = i + 1;
        }
        None
    }

    /// Creates a fresh local identity: a random signing key, its verifying
    /// key, and the id as the lowercase hex of the verifying key; stores it
    /// and returns a copy.  On the rare platform failure the randomness
    /// wrapper reports, the signing key comes back zeroed.
    pub fn create_local_peer(&mut self, name: Option<String>, created_at: i64) -> (r: Peer)
        requires
            old(self).wf(),
        ensures
            final(self).wf(),
            r@.signing_key matches Some(sk) && r@.public_key == spec_ed25519_pub(sk) && r@.id
                == spec_hex(r@.public_key),
            r@.name == opt_str_view(name),
            r@.created_at == created_at,
            final(self).has_peer(r@.id) && final(self).record_of(r@.id) == r@,
    {
        let sk = random_bytes_32();
        let pk = ed25519_public_key(&sk);
        let id = hex_encode(&pk);
        let peer = Peer {
            id,
            name,
            created_at,
            public_key: pk,
            signing_key: Some(sk),
        };
        let copy = peer.duplicate();
        self.save_peer(peer);
        copy
    }
}

/// After replacing the record at `idx` by one with the same id, lookups
/// behave as before for every other id.
proof fn lemma_store_update(pre: Seq<PeerView>, post: Seq<PeerView>, idx: int, pv: PeerView)
    requires
        0 <= idx < pre.len(),
        post == pre.update(idx, pv),
        pre[idx].id == pv.id,
        forall|i: int, j: int|
            #![trigger pre[i], pre[j]]
            0 <= i < j < pre.len() ==> pre[i].id != pre[j].id,
    ensures
        forall|i: int, j: int|
            #![trigger post[i], post[j]]
            0 <= i < j < post.len() ==> post[i].id != post[j].id,
{
    assert forall|i: int, j: int|
        #![trigger post[i], post[j]]
        0 <= i < j < post.len() implies post[i].id != post[j].id by {
        assert(post[i].id == pre[i].id);
        assert(post[j].id == pre[j].id);
    }
}

/// Appending a record with a fresh id leaves every other id's lookup alone.
proof fn lemma_frame_after_push(pre: Seq<PeerView>, post: Seq<PeerView>, pv: PeerView, id: Seq<char>)
    requires
        post == pre.push(pv),
        id != pv.id,
    ensures
        (exists|i: int| 0 <= i < post.len() && (#[trigger] post[i]).id == id) == (exists|i: int|
            0 <= i < pre.len() && (#[trigger] pre[i]).id == id),
{
    if exists|i: int| 0 <= i < post.len() && (#[trigger] post[i]).id == id {
        let w = choose|i: int| 0 <= i < post.len() && (#[trigger] post[i]).id == id;
        assert(w < pre.len());
        assert(pre[w].id == id);
    }
    if exists|i: int| 0 <= i < pre.len() && (#[trigger] pre[i]).id == id {
        let w = choose|i: int| 0 <= i < pre.len() && (#[trigger] pre[i]).id == id;
        assert(post[w].id == id);
    }
}

} // verus!
