//! The resolver's state: which files this node still wants and which peers
//! advertise each of them, plus the decision taken for each resolve attempt.
//! The channel plumbing, the retry timer and the downloads themselves run
//! outside; every transition of the state lives here.

use vstd::prelude::*;

use crate::codec::str_views;
use crate::file_catalog::FileCatalog;
use crate::repository::equal_strings;
use crate::sync_engine::contains_string;

verus! {

/// One resolve attempt: the wanted file and the peers a previous attempt
/// already failed against.
#[derive(Debug, Clone)]
pub struct ResolveWant {
    pub file_id: String,
    pub failed_peers: Vec<String>,
}

/// A finished download: the file and where it landed locally.
#[derive(Debug, Clone)]
pub struct ResolveResult {
    pub file_id: String,
    pub file_path: String,
}

/// The files still wanted and, per file, the peers known to advertise it.
pub struct FileResolverStorage {
    need_resolve: Vec<String>,
    peers_have: Vec<(String, Vec<String>)>,
}

/// How many times `id` occurs in a list of file ids.
pub open spec fn spec_mentions(ids: Seq<Seq<char>>, id: Seq<char>) -> nat {
    ids.filter(|x: Seq<char>| x == id).len()
}

/// What one resolve attempt decides.
pub enum ResolveAction {
    /// The file is already in the catalog at this path: index it.
    AlreadyHave(String),
    /// Try downloading from these peers, in order.
    Download(Vec<String>),
    /// Nobody advertises the file: re-enter the wanted state after a delay.
    Backoff,
    /// Nothing to do for this attempt.
    Skip,
}

impl FileResolverStorage {
    /// The wanted file ids, in first-want order.
    pub closed spec fn need_spec(&self) -> Seq<Seq<char>> {
        str_views(self.need_resolve@)
    }

    /// The advertisement lists, keyed by file id.
    pub closed spec fn have_spec(&self) -> Seq<(Seq<char>, Seq<Seq<char>>)> {
        Seq::new(
            self.peers_have@.len(),
            |i: int| (self.peers_have@[i].0@, str_views(self.peers_have@[i].1@)),
        )
    }

    /// Whether `id` is wanted.
    pub open spec fn wants(&self, id: Seq<char>) -> bool {
        self.need_spec().contains(id)
    }

    /// Whether an advertisement list exists for `id`.
    pub open spec fn has_entry(&self, id: Seq<char>) -> bool {
        exists|i: int|
            0 <= i < self.have_spec().len() && (#[trigger] self.have_spec()[i]).0 == id
    }

    /// The index of the advertisement list for `id`.
    pub open spec fn entry_index(&self, id: Seq<char>) -> int {
        choose|i: int|
            0 <= i < self.have_spec().len() && (#[trigger] self.have_spec()[i]).0 == id
    }

    /// The peers advertising `id`; empty when none are known.
    pub open spec fn peers_of(&self, id: Seq<char>) -> Seq<Seq<char>> {
        if self.has_entry(id) {
            self.have_spec()[self.entry_index(id)].1
        } else {
            Seq::<Seq<char>>::empty()
        }
    }

    /// No two advertisement lists serve the same file.
    pub open spec fn wf(&self) -> bool {
        forall|i: int, j: int|
            #![trigger self.have_spec()[i], self.have_spec()[j]]
            0 <= i < j < self.have_spec().len() ==> self.have_spec()[i].0
                != self.have_spec()[j].0
    }

    /// Empty resolver state.
    pub fn new() -> (r: FileResolverStorage)
        ensures
            r.wf(),
            r.need_spec() == Seq::<Seq<char>>::empty(),
            r.have_spec() == Seq::<(Seq<char>, Seq<Seq<char>>)>::empty(),
    {
        let r = FileResolverStorage { need_resolve: Vec::new(), peers_have: Vec::new() };
        proof {
            assert(r.need_spec() =~= Seq::<Seq<char>>::empty());
            assert(r.have_spec() =~= Seq::<(Seq<char>, Seq<Seq<char>>)>::empty());
        }
        r
    }

    /// The index of the advertisement list for `id`, if one exists.
    fn find_entry(&self, id: &String) -> (r: Option<usize>)
        requires
            self.wf(),
        ensures
            (r matches Some(i) ==> self.has_entry(id@) && i == self.entry_index(id@)
                && i < self.have_spec().len()),
            (r is None ==> !self.has_entry(id@)),
    {
        let mut i: usize = 0;
        while i < self.peers_have.len()
            invariant
                self.wf(),
                i <= self.have_spec().len(),
                forall|j: int| 0 <= j < i ==> (#[trigger] self.have_spec()[j]).0 != id@,
            decreases self.have_spec().len() - i,
        {
            if equal_strings(&self.peers_have[i].0, id) {
                proof {
                    assert(self.have_spec()[i as int].0 == id@);
                    let w = self.entry_index(id@);
                    if w != i as int {
                        assert(self.have_spec()[w].0 == id@);
                    }
                }
                return Some(i);
            }
            proof {
                assert(self.have_spec()[i as int].0 != id@);
            }
            i = i + 1;
        }
        proof {
            if self.has_entry(id@) {
                let w = self.entry_index(id@);
                assert(self.have_spec()[w].0 == id@);
            }
        }
        None
    }

    /// Every peer other than `changed`'s reads the same advertisement list in
    /// `post` as in `pre`, when only `changed`'s entry was touched or added.
    proof fn lemma_peers_of_other(
        pre: FileResolverStorage,
        post: FileResolverStorage,
        changed: Seq<char>,
        id: Seq<char>,
    )
        requires
            pre.wf(),
            post.wf(),
            id != changed,
            post.have_spec().len() >= pre.have_spec().len(),
            forall|k: int|
                0 <= k < pre.have_spec().len() && (#[trigger] pre.have_spec()[k]).0 != changed
                    ==> post.have_spec()[k] == pre.have_spec()[k],
            forall|k: int|
                0 <= k < post.have_spec().len() ==> ((k < pre.have_spec().len() && (
                #[trigger] post.have_spec()[k]).0 == pre.have_spec()[k].0) || post.have_spec()[k].0
                    == changed),
        ensures
            post.peers_of(id) == pre.peers_of(id),
    {
        if pre.has_entry(id) {
            let w = pre.entry_index(id);
            assert(pre.have_spec()[w].0 == id);
            assert(post.have_spec()[w] == pre.have_spec()[w]);
            assert(post.has_entry(id));
            let w2 = post.entry_index(id);
            assert(post.have_spec()[w2].0 == id);
            if w2 != w {
                assert(post.have_spec()[w2].0 != post.have_spec()[w].0);
            }
        } else {
            if post.has_entry(id) {
                let w2 = post.entry_index(id);
                assert(post.have_spec()[w2].0 == id);
                if w2 < pre.have_spec().len() && post.have_spec()[w2].0
                    == pre.have_spec()[w2].0 {
                    assert(pre.has_entry(id));
                }
            }
            assert(!post.has_entry(id));
        }
    }

    /// Marks `file_id` wanted and, when a peer is already known to have it,
    /// records the advertisement.  The caller then queues a resolve attempt.
    pub fn add_need_resolve(&mut self, file_id: &String, peer_id: Option<String>)
        requires
            old(self).wf(),
        ensures
            final(self).wf(),
            final(self).wants(file_id@),
            forall|id: Seq<char>|
                id != file_id@ ==> (final(self).wants(id) == old(self).wants(id)),
            (peer_id is None ==> final(self).have_spec() == old(self).have_spec()),
            (peer_id matches Some(p) ==> final(self).peers_of(file_id@) == old(self).peers_of(
                file_id@,
            ).push(p@)),
            forall|id: Seq<char>|
                id != file_id@ ==> final(self).peers_of(id) == old(self).peers_of(id),
    {
        if !contains_string(&self.need_resolve, file_id) {
            let ghost pre = self.need_spec();
            self.need_resolve.push(file_id.clone());
            proof {
                assert(self.need_spec() =~= pre.push(file_id@));
                assert(self.need_spec().contains(file_id@)) by {
                    assert(self.need_spec()[pre.len() as int] == file_id@);
                }
                assert forall|id: Seq<char>| id != file_id@ implies (self.wants(id) == old(
                    self,
                ).wants(id)) by {
                    if pre.contains(id) {
                        let w = choose|k: int| 0 <= k < pre.len() && pre[k] == id;
                        assert(self.need_spec()[w] == id);
                    }
                    if self.need_spec().contains(id) {
                        let w = choose|k: int|
                            0 <= k < self.need_spec().len() && self.need_spec()[k] == id;
                        assert(w < pre.len());
                        assert(pre[w] == id);
                    }
                }
            }
        } else {
            proof {
                assert(self.wants(file_id@));
            }
        }
        proof {
            assert(self.have_spec() =~= old(self).have_spec());
            assert(self.wf());
            assert(self.wants(file_id@));
        }
        let ghost mid = *self;
        match peer_id {
            Some(p) => {
                self.add_peer_have(file_id, &p);
                proof {
                    assert(self.need_spec() == mid.need_spec());
                    assert(self.wants(file_id@));
                    assert(mid.peers_of(file_id@) == old(self).peers_of(file_id@));
                    assert forall|id: Seq<char>| id != file_id@ implies self.peers_of(id) == old(
                        self,
                    ).peers_of(id) by {
                        assert(mid.peers_of(id) == old(self).peers_of(id));
                    }
                }
            },
            None => {},
        }
    }

    /// Records that `peer_id` advertises `file_id`.
    pub fn add_peer_have(&mut self, file_id: &String, peer_id: &String)
        requires
            old(self).wf(),
        ensures
            final(self).wf(),
            final(self).has_entry(file_id@),
            final(self).peers_of(file_id@) == old(self).peers_of(file_id@).push(peer_id@),
            forall|id: Seq<char>|
                id != file_id@ ==> final(self).peers_of(id) == old(self).peers_of(id),
            final(self).need_spec() == old(self).need_spec(),
    {
        let found = self.find_entry(file_id);
        match found {
            Some(i) => {
                let ghost pre = self.have_spec();
                proof {
                    assert(i < self.peers_have@.len());
                }
                let entry = &mut self.peers_have[i];
                entry.1.push(peer_id.clone());
                proof {
                    assert(self.peers_have@[i as int].0@ == pre[i as int].0);
                    assert(str_views(self.peers_have@[i as int].1@) =~= pre[i as int].1.push(
                        peer_id@,
                    ));
                    assert forall|k: int|
                        0 <= k < pre.len() && k != i implies #[trigger] self.have_spec()[k]
                        == pre[k] by {
                        assert(self.peers_have@[k] == old(self).peers_have@[k]);
                    }
                    assert(self.have_spec() =~= pre.update(
                        i as int,
                        (pre[i as int].0, pre[i as int].1.push(peer_id@)),
                    ));
                    assert forall|i1: int, j1: int|
                        #![trigger self.have_spec()[i1], self.have_spec()[j1]]
                        0 <= i1 < j1 < self.have_spec().len() implies self.have_spec()[i1].0
                        != self.have_spec()[j1].0 by {
                        assert(self.have_spec()[i1].0 == pre[i1].0);
                        assert(self.have_spec()[j1].0 == pre[j1].0);
                    }
                    assert(self.have_spec()[i as int].0 == file_id@);
                    assert(self.has_entry(file_id@));
                    let w = self.entry_index(file_id@);
                    if w != i as int {
                        assert(self.have_spec()[w].0 != self.have_spec()[i as int].0);
                    }
                    assert forall|id: Seq<char>| id != file_id@ implies self.peers_of(id) == old(
                        self,
                    ).peers_of(id) by {
                        FileResolverStorage::lemma_peers_of_other(*old(self), *self, file_id@, id);
                    }
                }
            },
            None => {
                let ghost pre = self.have_spec();
                let mut fresh: Vec<String> = Vec::new();
                fresh.push(peer_id.clone());
                let ghost fv = str_views(fresh@);
                proof {
                    assert(fv =~= Seq::<Seq<char>>::empty().push(peer_id@));
                }
                let idx = self.peers_have.len();
                self.peers_have.push((file_id.clone(), fresh));
                proof {
                    assert(self.have_spec() =~= pre.push((file_id@, fv)));
                    assert forall|i1: int, j1: int|
                        #![trigger self.have_spec()[i1], self.have_spec()[j1]]
                        0 <= i1 < j1 < self.have_spec().len() implies self.have_spec()[i1].0
                        != self.have_spec()[j1].0 by {
                        if j1 < idx as int {
                            assert(pre[i1].0 != pre[j1].0);
                        } else {
                            assert(pre[i1].0 != file_id@);
                        }
                    }
                    assert(self.have_spec()[idx as int].0 == file_id@);
                    assert(self.has_entry(file_id@));
                    let w = self.entry_index(file_id@);
                    if w != idx as int {
                        assert(self.have_spec()[w].0 != self.have_spec()[idx as int].0);
                    }
                    assert(old(self).peers_of(file_id@) =~= Seq::<Seq<char>>::empty());
                    assert forall|id: Seq<char>| id != file_id@ implies self.peers_of(id) == old(
                        self,
                    ).peers_of(id) by {
                        FileResolverStorage::lemma_peers_of_other(*old(self), *self, file_id@, id);
                    }
                }
            },
        }
    }

    /// Records that `peer_id` advertises each of `file_ids`: every listed
    /// file's advertisement list gains one entry for `peer_id` per mention,
    /// and every other list is untouched.
    pub fn add_peer_have_many(&mut self, file_ids: &Vec<String>, peer_id: &String)
        requires
            old(self).wf(),
        ensures
            final(self).wf(),
            final(self).need_spec() == old(self).need_spec(),
            forall|id: Seq<char>|
                #![trigger old(self).peers_of(id)]
                final(self).peers_of(id) == old(self).peers_of(id) + Seq::new(
                    spec_mentions(str_views(file_ids@), id),
                    |k: int| peer_id@,
                ),
    {
        let ghost ids = str_views(file_ids@);
        let mut i: usize = 0;
        proof {
            assert forall|id: Seq<char>|
                #![trigger old(self).peers_of(id)]
                self.peers_of(id) == old(self).peers_of(id) + Seq::new(
                    spec_mentions(ids.take(0), id),
                    |k: int| peer_id@,
                ) by {
                assert(ids.take(0) =~= Seq::<Seq<char>>::empty());
                assert(Seq::<Seq<char>>::empty().filter(|x: Seq<char>| x == id)
                    =~= Seq::<Seq<char>>::empty()) by {
                    reveal(Seq::filter);
                }
                assert(old(self).peers_of(id) + Seq::new(0, |k: int| peer_id@) =~= old(
                    self,
                ).peers_of(id));
            }
        }
        while i < file_ids.len()
            invariant
                i <= file_ids@.len(),
                ids == str_views(file_ids@),
                self.wf(),
                self.need_spec() == old(self).need_spec(),
                forall|id: Seq<char>|
                    #![trigger old(self).peers_of(id)]
                    self.peers_of(id) == old(self).peers_of(id) + Seq::new(
                        spec_mentions(ids.take(i as int), id),
                        |k: int| peer_id@,
                    ),
            decreases file_ids@.len() - i,
        {
            let ghost mid = *self;
            let ghost cur = ids[i as int];
            self.add_peer_have(&file_ids[i], peer_id);
            proof {
                assert(ids.take(i as int + 1) =~= ids.take(i as int).push(cur));
                assert forall|id: Seq<char>|
                    #![trigger old(self).peers_of(id)]
                    self.peers_of(id) == old(self).peers_of(id) + Seq::new(
                        spec_mentions(ids.take(i as int + 1), id),
                        |k: int| peer_id@,
                    ) by {
                    crate::repository::lemma_filter_push(
                        ids.take(i as int),
                        cur,
                        |x: Seq<char>| x == id,
                    );
                    if id == cur {
                        assert(self.peers_of(id) == mid.peers_of(id).push(peer_id@));
                        assert(mid.peers_of(id).push(peer_id@) =~= old(self).peers_of(id)
                            + Seq::new(
                            spec_mentions(ids.take(i as int), id) + 1,
                            |k: int| peer_id@,
                        ));
                    } else {
                        assert(self.peers_of(id) == mid.peers_of(id));
                    }
                }
            }
            i = i + 1;
        }
        proof {
            assert(ids.take(file_ids@.len() as int) =~= ids);
        }
    }

    /// The peers advertising `file_id`, in record order.
    pub fn get_peers_have(&self, file_id: &String) -> (r: Vec<String>)
        requires
            self.wf(),
        ensures
            str_views(r@) == self.peers_of(file_id@),
    {
        match self.find_entry(file_id) {
            Some(i) => {
                let mut r: Vec<String> = Vec::new();
                let list = &self.peers_have[i].1;
                let mut j: usize = 0;
                while j < list.len()
                    invariant
                        j <= list@.len(),
                        r@.len() == j,
                        forall|k: int| 0 <= k < j ==> (#[trigger] r@[k]@) == list@[k]@,
                    decreases list@.len() - j,
                {
                    r.push(list[j].clone());
                    j = j + 1;
                }
                proof {
                    assert(str_views(r@) =~= self.peers_of(file_id@));
                }
                r
            },
            None => {
                let r: Vec<String> = Vec::new();
                proof {
                    assert(str_views(r@) =~= Seq::<Seq<char>>::empty());
                }
                r
            },
        }
    }

    /// The wanted file ids, in first-want order.
    pub fn get_need_resolve(&self) -> (r: Vec<String>)
        ensures
            str_views(r@) == self.need_spec(),
    {
        let mut r: Vec<String> = Vec::new();
        let mut i: usize = 0;
        while i < self.need_resolve.len()
            invariant
                i <= self.need_resolve@.len(),
                r@.len() == i,
                forall|k: int| 0 <= k < i ==> (#[trigger] r@[k]@) == self.need_resolve@[k]@,
            decreases self.need_resolve@.len() - i,
        {
            r.push(self.need_resolve[i].clone());
            i = i + 1;
        }
        proof {
            assert(str_views(r@) =~= self.need_spec());
        }
        r
    }

    /// Whether the catalog already holds `file_id`.
    pub fn db_contains(&self, catalog: &FileCatalog, file_id: &String) -> (r: bool)
        requires
            catalog.wf(),
        ensures
            r == catalog.has_file(file_id@),
    {
        catalog.contains(file_id)
    }

    /// Drops `file_id` from the wanted set, leaving every other want alone.
    fn remove_need(&mut self, file_id: &String)
        requires
            old(self).wf(),
        ensures
            final(self).wf(),
            !final(self).wants(file_id@),
            final(self).need_spec() == old(self).need_spec().filter(
                |x: Seq<char>| x != file_id@,
            ),
            forall|id: Seq<char>|
                id != file_id@ ==> final(self).wants(id) == old(self).wants(id),
            final(self).have_spec() == old(self).have_spec(),
    {
        let ghost pred = |x: Seq<char>| x != file_id@;
        let ghost pre = self.need_spec();
        let mut kept: Vec<String> = Vec::new();
        let mut i: usize = 0;
        proof {
            assert(pre.take(0) =~= Seq::<Seq<char>>::empty());
            assert(Seq::<Seq<char>>::empty().filter(pred) =~= Seq::<Seq<char>>::empty()) by {
                reveal(Seq::filter);
            }
            assert(str_views(kept@) =~= Seq::<Seq<char>>::empty());
        }
        while i < self.need_resolve.len()
            invariant
                i <= self.need_resolve@.len(),
                pred == (|x: Seq<char>| x != file_id@),
                pre == self.need_spec(),
                str_views(kept@) == pre.take(i as int).filter(pred),
            decreases self.need_resolve@.len() - i,
        {
            proof {
                assert(pre.take(i as int + 1) =~= pre.take(i as int).push(pre[i as int]));
                crate::repository::lemma_filter_push(pre.take(i as int), pre[i as int], pred);
            }
            if !equal_strings(&self.need_resolve[i], file_id) {
                let ghost before = str_views(kept@);
                kept.push(self.need_resolve[i].clone());
                proof {
                    assert(str_views(kept@) =~= before.push(pre[i as int]));
                }
            }
            i = i + 1;
        }
        proof {
            assert(pre.take(pre.len() as int) =~= pre);
        }
        self.need_resolve = kept;
        proof {
            broadcast use Seq::lemma_filter_pred, Seq::lemma_filter_contains;

            assert(self.have_spec() =~= old(self).have_spec());
            assert(self.wf());
            if self.need_spec().contains(file_id@) {
                let w = choose|k: int|
                    0 <= k < self.need_spec().len() && self.need_spec()[k] == file_id@;
                assert(self.need_spec()[w] == file_id@);
                assert(pred(self.need_spec()[w]));
            }
            assert forall|id: Seq<char>| id != file_id@ implies self.wants(id) == old(
                self,
            ).wants(id) by {
                if old(self).need_spec().contains(id) {
                    let w = choose|k: int|
                        0 <= k < old(self).need_spec().len() && old(self).need_spec()[k] == id;
                    assert(pred(old(self).need_spec()[w]));
                    assert(self.need_spec().contains(old(self).need_spec()[w]));
                }
                if self.need_spec().contains(id) {
                    old(self).need_spec().lemma_filter_contains_rev(pred, id);
                }
            }
        }
    }

    /// One resolve attempt for `want`, against the current catalog.  A file
    /// the catalog already holds is reported for indexing.  Otherwise the
    /// peers the attempt failed against are removed from the stored
    /// advertisement list; a download over the peers that remain is started
    /// when the file is still wanted, and the file is backed off when no
    /// advertiser remains.
    pub fn resolve_step(&mut self, catalog: &FileCatalog, want: &ResolveWant) -> (r: ResolveAction)
        requires
            old(self).wf(),
            catalog.wf(),
        ensures
            final(self).wf(),
            (catalog.has_file(want.file_id@) ==> (r matches ResolveAction::AlreadyHave(p) && p@
                == catalog.descriptor_of(want.file_id@).local_path) && !final(self).wants(
                want.file_id@,
            ) && final(self).have_spec() == old(self).have_spec()),
            (!catalog.has_file(want.file_id@) && !old(self).has_entry(want.file_id@) ==> (r
                is Skip && *final(self) == *old(self))),
            (!catalog.has_file(want.file_id@) && old(self).has_entry(want.file_id@) ==> ({
                let remaining = old(self).peers_of(want.file_id@).filter(
                    |p: Seq<char>| !str_views(want.failed_peers@).contains(p),
                );
                &&& final(self).peers_of(want.file_id@) == remaining
                &&& (forall|id: Seq<char>|
                    id != want.file_id@ ==> final(self).peers_of(id) == old(self).peers_of(id))
                &&& (remaining.len() == 0 ==> r is Backoff && final(self).need_spec() == old(
                    self,
                ).need_spec())
                &&& (remaining.len() > 0 && !old(self).wants(want.file_id@) ==> (r is Skip
                    && final(self).need_spec() == old(self).need_spec()))
                &&& (remaining.len() > 0 && old(self).wants(want.file_id@) ==> ((
                r matches ResolveAction::Download(peers) && str_views(peers@) == remaining)
                    && !final(self).wants(want.file_id@) && (forall|id: Seq<char>|
                    id != want.file_id@ ==> final(self).wants(id) == old(self).wants(id))))
            })),
    {
        if self.db_contains(catalog, &want.file_id) {
            let descr = match catalog.get_by_id(&want.file_id) {
                Some(d) => d,
                None => {
                    proof {
                        assert(false);
                    }
                    return ResolveAction::Skip;
                },
            };
            self.remove_need(&want.file_id);
            return ResolveAction::AlreadyHave(descr.local_path);
        }
        let wanted = contains_string(&self.need_resolve, &want.file_id);
        let found = self.find_entry(&want.file_id);
        let idx = match found {
            None => {
                return ResolveAction::Skip;
            },
            Some(i) => i,
        };
        let current = self.get_peers_have(&want.file_id);
        let ghost pred = |p: Seq<char>| !str_views(want.failed_peers@).contains(p);
        let mut remaining: Vec<String> = Vec::new();
        let mut i: usize = 0;
        proof {
            assert(str_views(current@).take(0) =~= Seq::<Seq<char>>::empty());
            assert(Seq::<Seq<char>>::empty().filter(pred) =~= Seq::<Seq<char>>::empty()) by {
                reveal(Seq::filter);
            }
            assert(str_views(remaining@) =~= Seq::<Seq<char>>::empty());
        }
        while i < current.len()
            invariant
                i <= current@.len(),
                pred == (|p: Seq<char>| !str_views(want.failed_peers@).contains(p)),
                str_views(remaining@) == str_views(current@).take(i as int).filter(pred),
            decreases current@.len() - i,
        {
            let ghost taken = str_views(current@).take(i as int);
            proof {
                assert(str_views(current@).take(i as int + 1) =~= taken.push(
                    str_views(current@)[i as int],
                ));
                crate::repository::lemma_filter_push(taken, str_views(current@)[i as int], pred);
            }
            if !contains_string(&want.failed_peers, &current[i]) {
                let ghost pre = str_views(remaining@);
                remaining.push(current[i].clone());
                proof {
                    assert(str_views(remaining@) =~= pre.push(str_views(current@)[i as int]));
                }
            }
            i = i + 1;
        }
        proof {
            assert(str_views(current@).take(current@.len() as int) =~= str_views(current@));
        }
        let stored = copy_strings(&remaining);
        let ghost pre_have = self.have_spec();
        let ghost mid0 = *self;
        proof {
            assert(idx < self.peers_have@.len());
        }
        let entry = &mut self.peers_have[idx];
        entry.1 = stored;
        proof {
            assert(self.peers_have@[idx as int].0@ == pre_have[idx as int].0);
            assert(str_views(self.peers_have@[idx as int].1@) =~= str_views(remaining@));
            assert forall|k: int|
                0 <= k < pre_have.len() && k != idx implies #[trigger] self.have_spec()[k]
                == pre_have[k] by {
                assert(self.peers_have@[k] == mid0.peers_have@[k]);
            }
            assert(self.have_spec() =~= pre_have.update(
                idx as int,
                (pre_have[idx as int].0, str_views(remaining@)),
            ));
            assert forall|i1: int, j1: int|
                #![trigger self.have_spec()[i1], self.have_spec()[j1]]
                0 <= i1 < j1 < self.have_spec().len() implies self.have_spec()[i1].0
                != self.have_spec()[j1].0 by {
                assert(self.have_spec()[i1].0 == pre_have[i1].0);
                assert(self.have_spec()[j1].0 == pre_have[j1].0);
            }
            assert(self.have_spec()[idx as int].0 == want.file_id@);
            assert(self.has_entry(want.file_id@));
            let w = self.entry_index(want.file_id@);
            if w != idx as int {
                assert(self.have_spec()[w].0 != self.have_spec()[idx as int].0);
            }
            assert(self.peers_of(want.file_id@) == str_views(remaining@));
            assert forall|id: Seq<char>| id != want.file_id@ implies self.peers_of(id) == old(
                self,
            ).peers_of(id) by {
                FileResolverStorage::lemma_peers_of_other(mid0, *self, want.file_id@, id);
            }
            assert(self.need_spec() == old(self).need_spec());
        }
        if remaining.len() == 0 {
            return ResolveAction::Backoff;
        }
        if !wanted {
            return ResolveAction::Skip;
        }
        let ghost mid1 = *self;
        self.remove_need(&want.file_id);
        proof {
            assert(self.have_spec() == mid1.have_spec());
            assert(self.peers_of(want.file_id@) == mid1.peers_of(want.file_id@));
            assert forall|id: Seq<char>| id != want.file_id@ implies self.peers_of(id)
                == mid1.peers_of(id) by {}
        }
        ResolveAction::Download(remaining)
    }
}

/// A copy of a string list with the same characters, entry for entry.
fn copy_strings(v: &Vec<String>) -> (r: Vec<String>)
    ensures
        str_views(r@) == str_views(v@),
{
    let mut r: Vec<String> = Vec::new();
    let mut i: usize = 0;
    while i < v.len()
        invariant
            i <= v@.len(),
            r@.len() == i,
            forall|k: int| 0 <= k < i ==> (#[trigger] r@[k]@) == v@[k]@,
        decreases v@.len() - i,
    {
        r.push(v[i].clone());
        i = i + 1;
    }
    proof {
        assert(str_views(r@) =~= str_views(v@));
    }
    r
}

} // verus!
