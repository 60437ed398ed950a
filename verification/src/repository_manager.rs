//! One log store per known authoring peer, plus the process-wide `order`
//! counter.  Every append, own or remote, receives fresh, strictly
//! increasing global orders from here.

use vstd::prelude::*;

use crate::models::{views_of, DbMessage, DbMessageView};
use crate::repository::{equal_strings, with_counter, with_order, LogError, Repository};

verus! {

/// The replication state of one repository: its peer and its highest
/// committed counter.
#[derive(Debug, Clone)]
pub struct RepoState {
    pub counter: u64,
    pub peer_id: String,
}

/// Mathematical content of one replication state.
pub struct RepoStateView {
    pub counter: u64,
    pub peer_id: Seq<char>,
}

impl View for RepoState {
    type V = RepoStateView;

    open spec fn view(&self) -> RepoStateView {
        RepoStateView { counter: self.counter, peer_id: self.peer_id@ }
    }
}

/// The views of a sequence of replication states.
pub open spec fn rs_views(s: Seq<RepoState>) -> Seq<RepoStateView> {
    Seq::new(s.len(), |i: int| s[i]@)
}

/// Owns the per-peer repositories (lazily created) and the global order
/// counter.
pub struct RepositoryManager {
    repos: Vec<Repository>,
    order_counter: u64,
    assigned: Ghost<Seq<u64>>,
}

impl RepositoryManager {
    /// The repositories, in creation order.
    pub closed spec fn repos_spec(&self) -> Seq<Repository> {
        self.repos@
    }

    /// The current global order counter.
    pub closed spec fn order_spec(&self) -> u64 {
        self.order_counter
    }

    /// The history of global orders handed out so far, oldest first.
    pub closed spec fn assigned_spec(&self) -> Seq<u64> {
        self.assigned@
    }

    /// Whether a repository for `id` exists.
    pub open spec fn has_repo(&self, id: Seq<char>) -> bool {
        exists|i: int|
            0 <= i < self.repos_spec().len() && (#[trigger] self.repos_spec()[i]).id_spec() == id
    }

    /// The index of the repository for `id` (meaningful when `has_repo`).
    pub open spec fn index_of(&self, id: Seq<char>) -> int {
        choose|i: int|
            0 <= i < self.repos_spec().len() && (#[trigger] self.repos_spec()[i]).id_spec() == id
    }

    /// The stored log of peer `id`; empty when no repository exists yet.
    pub open spec fn log_of(&self, id: Seq<char>) -> Seq<DbMessageView> {
        if self.has_repo(id) {
            self.repos_spec()[self.index_of(id)]@
        } else {
            Seq::<DbMessageView>::empty()
        }
    }

    /// Well-formedness: every repository is well formed and holds fewer than
    /// `u64::MAX` entries, no two repositories serve the same peer, the order
    /// history is strictly increasing and bounded by the order counter, and
    /// every stored entry's order is at most the order counter.
    pub open spec fn wf(&self) -> bool {
        &&& (forall|i: int|
            0 <= i < self.repos_spec().len() ==> (#[trigger] self.repos_spec()[i]).wf()
                && self.repos_spec()[i]@.len() < u64::MAX)
        &&& (forall|i: int, j: int|
            #![trigger self.repos_spec()[i], self.repos_spec()[j]]
            0 <= i < j < self.repos_spec().len() ==> self.repos_spec()[i].id_spec()
                != self.repos_spec()[j].id_spec())
        &&& (forall|i: int, j: int|
            #![trigger self.assigned_spec()[i], self.assigned_spec()[j]]
            0 <= i < j < self.assigned_spec().len() ==> self.assigned_spec()[i]
                < self.assigned_spec()[j])
        &&& (forall|i: int|
            0 <= i < self.assigned_spec().len() ==> (#[trigger] self.assigned_spec()[i])
                <= self.order_spec())
        &&& (forall|i: int, k: int|
            #![trigger self.repos_spec()[i]@[k]]
            0 <= i < self.repos_spec().len() && 0 <= k < self.repos_spec()[i]@.len()
                ==> self.repos_spec()[i]@[k].order <= self.order_spec())
        &&& (forall|i1: int, k1: int, i2: int, k2: int|
            #![trigger self.repos_spec()[i1]@[k1], self.repos_spec()[i2]@[k2]]
            0 <= i1 < self.repos_spec().len() && 0 <= k1 < self.repos_spec()[i1]@.len() && 0 <= i2
                < self.repos_spec().len() && 0 <= k2 < self.repos_spec()[i2]@.len() && (i1 != i2
                || k1 != k2) ==> self.repos_spec()[i1]@[k1].order
                != self.repos_spec()[i2]@[k2].order)
    }

    /// A manager with no repositories whose order counter starts at
    /// `order_counter` (the highest order already persisted, or 0).
    pub fn new(order_counter: u64) -> (r: RepositoryManager)
        ensures
            r.wf(),
            r.repos_spec() == Seq::<Repository>::empty(),
            r.order_spec() == order_counter,
            r.assigned_spec() == Seq::<u64>::empty(),
    {
        RepositoryManager { repos: Vec::new(), order_counter, assigned: Ghost(Seq::empty()) }
    }

    /// The index of the repository for `peer_id`, if one exists.
    fn find_repo(&self, peer_id: &String) -> (r: Option<usize>)
        requires
            self.wf(),
        ensures
            (r matches Some(i) ==> self.has_repo(peer_id@) && i == self.index_of(peer_id@)),
            (r is None ==> !self.has_repo(peer_id@)),
    {
        let mut i: usize = 0;
        while i < self.repos.len()
            invariant
                self.wf(),
                i <= self.repos_spec().len(),
                forall|j: int|
                    0 <= j < i ==> (#[trigger] self.repos_spec()[j]).id_spec() != peer_id@,
            decreases self.repos_spec().len() - i,
        {
            if equal_strings(self.repos[i].id_ref(), peer_id) {
                proof {
                    assert(self.repos_spec()[i as int].id_spec() == peer_id@);
                    let w = self.index_of(peer_id@);
                    if w != i as int {
                        assert(self.repos_spec()[w].id_spec() == peer_id@);
                    }
                }
                return Some(i);
            }
            proof {
                assert(self.repos_spec()[i as int].id_spec() != peer_id@);
            }
            i = i + 1;
        }
        proof {
            if self.has_repo(peer_id@) {
                let w = self.index_of(peer_id@);
                assert(self.repos_spec()[w].id_spec() == peer_id@);
            }
        }
        None
    }

    /// Ensures a repository for `peer_id` exists and returns its index.
    /// Creating an empty repository changes no peer's stored log.
    fn ensure_repo(&mut self, peer_id: &String) -> (r: usize)
        requires
            old(self).wf(),
        ensures
            final(self).wf(),
            final(self).has_repo(peer_id@),
            r == final(self).index_of(peer_id@),
            r < final(self).repos_spec().len(),
            (final(self).repos_spec()[r as int]).id_spec() == peer_id@,
            forall|id: Seq<char>| final(self).log_of(id) == old(self).log_of(id),
            final(self).order_spec() == old(self).order_spec(),
            final(self).assigned_spec() == old(self).assigned_spec(),
            old(self).has_repo(peer_id@) ==> *final(self) == *old(self),
            !old(self).has_repo(peer_id@) ==> final(self).repos_spec() == old(
                self,
            ).repos_spec().push(final(self).repos_spec()[r as int]),
    {
        let found = self.find_repo(peer_id);
        match found {
            Some(i) => {
                proof {
                    assert(*self == *old(self));
                }
                i
            },
            None => {
                let idx = self.repos.len();
                let fresh = Repository::new(peer_id.clone());
                self.repos.push(fresh);
                proof {
                    let post = self.repos_spec();
                    let pre = old(self).repos_spec();
                    assert(post[idx as int].id_spec() == peer_id@);
                    assert forall|i: int, j: int| 0 <= i < j < post.len() implies (
                    #[trigger] post[i]).id_spec() != (#[trigger] post[j]).id_spec() by {
                        if j < idx as int {
                            assert(pre[i].id_spec() != pre[j].id_spec());
                        } else {
                            assert(j == idx as int);
                            assert(!old(self).has_repo(peer_id@));
                            assert(pre[i].id_spec() != peer_id@);
                        }
                    }
                    assert(self.has_repo(peer_id@));
                    let w = self.index_of(peer_id@);
                    assert(post[w].id_spec() == peer_id@);
                    if w != idx as int {
                        assert(post[w].id_spec() != post[idx as int].id_spec());
                    }
                    assert(w == idx as int);
                    assert forall|id: Seq<char>| self.log_of(id) == old(self).log_of(id) by {
                        lemma_log_of_after_push(*old(self), *self, peer_id@, id);
                    }
                    assert(self.assigned_spec() == old(self).assigned_spec());
                    assert(self.wf());
                }
                idx
            },
        }
    }
}

impl RepositoryManager {
    /// Raises the order counter to at least `message.order`.
    pub fn update_counter(&mut self, message: &DbMessage)
        requires
            old(self).wf(),
        ensures
            final(self).wf(),
            final(self).order_spec() == if message@.order > old(self).order_spec() {
                message@.order
            } else {
                old(self).order_spec()
            },
            final(self).repos_spec() == old(self).repos_spec(),
            final(self).assigned_spec() == old(self).assigned_spec(),
    {
        if message.order > self.order_counter {
            self.order_counter = message.order;
        }
        proof {
            assert(self.repos_spec() == old(self).repos_spec());
            assert(self.assigned_spec() == old(self).assigned_spec());
            assert(self.order_spec() >= old(self).order_spec());
            assert(forall|i: int|
                0 <= i < self.assigned_spec().len() ==> (#[trigger] self.assigned_spec()[i])
                    <= self.order_spec());
            assert(forall|i: int, k: int|
                #![trigger self.repos_spec()[i]@[k]]
                0 <= i < self.repos_spec().len() && 0 <= k < self.repos_spec()[i]@.len()
                    ==> self.repos_spec()[i]@[k].order <= self.order_spec());
            assert(self.wf());
        }
    }

    /// Raises the order counter to at least the highest order in `messages`.
    pub fn update_counter_many(&mut self, messages: &Vec<DbMessage>)
        requires
            old(self).wf(),
        ensures
            final(self).wf(),
            final(self).order_spec() >= old(self).order_spec(),
            ({
                let fo = final(self).order_spec();
                forall|i: int| 0 <= i < messages@.len() ==> (#[trigger] messages@[i]@).order <= fo
            }),
            ({
                let fo = final(self).order_spec();
                fo == old(self).order_spec() || exists|i: int|
                    0 <= i < messages@.len() && (#[trigger] messages@[i]@).order == fo
            }),
            final(self).repos_spec() == old(self).repos_spec(),
            final(self).assigned_spec() == old(self).assigned_spec(),
    {
        let mut i: usize = 0;
        while i < messages.len()
            invariant
                old(self).wf(),
                i <= messages@.len(),
                self.repos_spec() == old(self).repos_spec(),
                self.assigned_spec() == old(self).assigned_spec(),
                self.order_spec() >= old(self).order_spec(),
                forall|j: int|
                    0 <= j < i ==> (#[trigger] messages@[j]@).order <= self.order_spec(),
                (self.order_spec() == old(self).order_spec() || exists|j: int|
                    0 <= j < i && (#[trigger] messages@[j]@).order == self.order_spec()),
            decreases messages@.len() - i,
        {
            if messages[i].order > self.order_counter {
                self.order_counter = messages[i].order;
                proof {
                    assert(messages@[i as int]@.order == self.order_spec());
                }
            }
            i = i + 1;
        }
        proof {
            assert(self.wf());
        }
    }

    /// Assigns the next global order to `message`, routes it to the local
    /// peer's repository (created on first use), and appends it there.  The
    /// entry must carry counter 0 (to be assigned) or exactly the next
    /// counter of that log.  Returns the entry as stored.
    pub fn add_own_message(&mut self, message: DbMessage) -> (r: Result<DbMessage, LogError>)
        requires
            old(self).wf(),
            old(self).order_spec() < u64::MAX,
            old(self).log_of(message@.peer_id).len() + 1 < u64::MAX,
        ensures
            final(self).wf(),
            ({
                let c = old(self).log_of(message@.peer_id).len();
                let o = old(self).order_spec();
                if message@.counter == 0 || message@.counter == c + 1 {
                    &&& (r matches Ok(stored) && stored@ == with_counter(
                        with_order(message@, (o + 1) as u64),
                        (c + 1) as u64,
                    ) && final(self).log_of(message@.peer_id) == old(self).log_of(
                        message@.peer_id,
                    ).push(stored@))
                    &&& final(self).order_spec() == o + 1
                    &&& final(self).assigned_spec() == old(self).assigned_spec().push(
                        (o + 1) as u64,
                    )
                    &&& (forall|id: Seq<char>|
                        id != message@.peer_id ==> final(self).log_of(id) == old(self).log_of(id))
                } else {
                    &&& r == Err::<DbMessage, LogError>(LogError::InvalidCounter)
                    &&& final(self).order_spec() == old(self).order_spec()
                    &&& final(self).assigned_spec() == old(self).assigned_spec()
                    &&& (forall|id: Seq<char>| final(self).log_of(id) == old(self).log_of(id))
                }
            }),
    {
        let peer_id = message.peer_id.clone();
        let idx = self.ensure_repo(&peer_id);
        let ghost mid = *self;
        proof {
            assert(mid.log_of(peer_id@) == mid.repos_spec()[idx as int]@);
        }
        let c = self.repos[idx].get_counter();
        if message.counter != 0 && message.counter != c + 1 {
            proof {
                assert(forall|id: Seq<char>| self.log_of(id) == old(self).log_of(id));
            }
            return Err(LogError::InvalidCounter);
        }
        let new_order = self.order_counter + 1;
        let mut m2 = message;
        m2.order = new_order;
        let ghost repos_mid = self.repos@;
        let repo = &mut self.repos[idx];
        let res = repo.save_message(&m2);
        match res {
            Ok(stored) => {
                self.order_counter = new_order;
                proof {
                    self.assigned@ = self.assigned@.push(new_order);
                }
                proof {
                    let post = self.repos_spec();
                    assert(post =~= repos_mid.update(idx as int, post[idx as int]));
                    assert(post[idx as int]@ == mid.log_of(peer_id@).push(stored@));
                    assert(stored@.order == new_order);
                    assert(self.assigned_spec() =~= mid.assigned_spec() + Seq::new(
                        1,
                        |j: int| ((new_order - 1) + j + 1) as u64,
                    ));
                    lemma_manager_after_append(mid, *self, idx as int, (new_order - 1) as u64, 1);
                    assert forall|id: Seq<char>| id != message@.peer_id implies self.log_of(id)
                        == old(self).log_of(id) by {
                        lemma_log_of_after_update(mid, *self, idx as int, id);
                    }
                    lemma_log_of_after_update(mid, *self, idx as int, peer_id@);
                }
                Ok(stored)
            },
            Err(e) => {
                proof {
                    assert(false);
                }
                Err(e)
            },
        }
    }

    /// Appends a batch received for peer `peer_id`, assigning fresh global
    /// orders to the entries actually appended.  The batch obeys the contract
    /// of `Repository::insert_message_batch`.
    pub fn append_remote_batch(&mut self, peer_id: &String, messages: &Vec<DbMessage>) -> (r:
        Result<u64, LogError>)
        requires
            old(self).wf(),
            old(self).log_of(peer_id@).len() + messages@.len() < u64::MAX,
            old(self).order_spec() + messages@.len() <= u64::MAX,
        ensures
            final(self).wf(),
            ({
                let c = old(self).log_of(peer_id@).len();
                let o = old(self).order_spec();
                let kept = views_of(messages@).filter(|m: DbMessageView| m.counter > c);
                if forall|j: int|
                    0 <= j < kept.len() ==> (#[trigger] kept[j]).counter == c + j + 1
                        && kept[j].peer_id == peer_id@ {
                    &&& r == Ok::<u64, LogError>(kept.len() as u64)
                    &&& final(self).log_of(peer_id@) == old(self).log_of(peer_id@) + Seq::new(
                        kept.len(),
                        |j: int| with_order(kept[j], (o + j + 1) as u64),
                    )
                    &&& final(self).order_spec() == o + kept.len()
                    &&& final(self).assigned_spec() == old(self).assigned_spec() + Seq::new(
                        kept.len(),
                        |j: int| (o + j + 1) as u64,
                    )
                    &&& (forall|id: Seq<char>|
                        id != peer_id@ ==> final(self).log_of(id) == old(self).log_of(id))
                } else {
                    &&& r is Err
                    &&& final(self).order_spec() == old(self).order_spec()
                    &&& final(self).assigned_spec() == old(self).assigned_spec()
                    &&& (forall|id: Seq<char>| final(self).log_of(id) == old(self).log_of(id))
                }
            }),
    {
        let idx = self.ensure_repo(peer_id);
        let ghost mid = *self;
        proof {
            assert(mid.log_of(peer_id@) == mid.repos_spec()[idx as int]@);
        }
        let base_order = self.order_counter;
        let ghost repos_mid = self.repos@;
        let repo = &mut self.repos[idx];
        let res = repo.insert_message_batch(messages, base_order);
        match res {
            Ok(k) => {
                self.order_counter = base_order + k;
                proof {
                    let ghost c = mid.log_of(peer_id@).len();
                    let ghost kept = views_of(messages@).filter(
                        |m: DbMessageView| m.counter > c,
                    );
                    self.assigned@ = self.assigned@ + Seq::new(
                        k as nat,
                        |j: int| (base_order + j + 1) as u64,
                    );
                    let post = self.repos_spec();
                    assert(post =~= repos_mid.update(idx as int, post[idx as int]));
                    lemma_manager_after_append(mid, *self, idx as int, base_order as u64, k as int);
                    assert forall|id: Seq<char>| id != peer_id@ implies self.log_of(id) == old(
                        self,
                    ).log_of(id) by {
                        lemma_log_of_after_update(mid, *self, idx as int, id);
                    }
                    lemma_log_of_after_update(mid, *self, idx as int, peer_id@);
                }
                Ok(k)
            },
            Err(e) => {
                proof {
                    let post = self.repos_spec();
                    assert(post =~= repos_mid.update(idx as int, post[idx as int]));
                    assert forall|id: Seq<char>| self.log_of(id) == old(self).log_of(id) by {
                        lemma_log_of_after_update(mid, *self, idx as int, id);
                    }
                    assert(self.wf());
                }
                Err(e)
            },
        }
    }

    /// The highest committed counter stored for `peer_id`; 0 when no
    /// repository exists.
    pub fn counter_of(&self, peer_id: &String) -> (r: u64)
        requires
            self.wf(),
        ensures
            r == self.log_of(peer_id@).len(),
    {
        match self.find_repo(peer_id) {
            Some(i) => self.repos[i].get_counter(),
            None => 0,
        }
    }

    /// All entries of `peer_id` with counter greater than `counter`, in
    /// counter order.
    pub fn messages_after(&self, peer_id: &String, counter: u64) -> (r: Vec<DbMessage>)
        requires
            self.wf(),
        ensures
            views_of(r@) == if counter < self.log_of(peer_id@).len() {
                self.log_of(peer_id@).skip(counter as int)
            } else {
                Seq::<DbMessageView>::empty()
            },
    {
        match self.find_repo(peer_id) {
            Some(i) => self.repos[i].get_messages(counter),
            None => {
                let r: Vec<DbMessage> = Vec::new();
                proof {
                    assert(views_of(r@) =~= Seq::<DbMessageView>::empty());
                }
                r
            },
        }
    }

    /// The current global order counter, as stored.
    pub fn current_order(&self) -> (r: u64)
        ensures
            r == self.order_spec(),
    {
        self.order_counter
    }

    /// The replication state of every repository, in creation order.
    pub fn get_repo_states(&self) -> (r: Vec<RepoState>)
        requires
            self.wf(),
        ensures
            r@.len() == self.repos_spec().len(),
            forall|i: int|
                0 <= i < r@.len() ==> (#[trigger] r@[i]).peer_id@ == self.repos_spec()[i].id_spec()
                    && r@[i].counter == self.repos_spec()[i]@.len(),
    {
        let mut r: Vec<RepoState> = Vec::new();
        let mut i: usize = 0;
        while i < self.repos.len()
            invariant
                self.wf(),
                i <= self.repos_spec().len(),
                r@.len() == i,
                forall|j: int|
                    0 <= j < i ==> (#[trigger] r@[j]).peer_id@ == self.repos_spec()[j].id_spec()
                        && r@[j].counter == self.repos_spec()[j]@.len(),
            decreases self.repos_spec().len() - i,
        {
            let state = RepoState {
                counter: self.repos[i].get_counter(),
                peer_id: self.repos[i].id_ref().clone(),
            };
            r.push(state);
            i = i + 1;
        }
        r
    }

    /// The repository for `peer_id`, created empty on first use.
    pub fn get_repository(&mut self, peer_id: &String) -> (r: &Repository)
        requires
            old(self).wf(),
        ensures
            final(self).wf(),
            r.id_spec() == peer_id@,
            r@ == final(self).log_of(peer_id@),
            forall|id: Seq<char>| final(self).log_of(id) == old(self).log_of(id),
            final(self).order_spec() == old(self).order_spec(),
            final(self).assigned_spec() == old(self).assigned_spec(),
    {
        let idx = self.ensure_repo(peer_id);
        &self.repos[idx]
    }
}

/// The history of handed-out global orders is strictly increasing, so no two
/// of them are equal, and no two stored entries anywhere share an order.
pub proof fn lemma_orders_strictly_monotonic(m: RepositoryManager)
    requires
        m.wf(),
    ensures
        forall|i: int, j: int|
            #![trigger m.assigned_spec()[i], m.assigned_spec()[j]]
            0 <= i < j < m.assigned_spec().len() ==> m.assigned_spec()[i] < m.assigned_spec()[j],
        forall|i: int, j: int|
            #![trigger m.assigned_spec()[i], m.assigned_spec()[j]]
            0 <= i < m.assigned_spec().len() && 0 <= j < m.assigned_spec().len() && i != j
                ==> m.assigned_spec()[i] != m.assigned_spec()[j],
        forall|i1: int, k1: int, i2: int, k2: int|
            #![trigger m.repos_spec()[i1]@[k1], m.repos_spec()[i2]@[k2]]
            0 <= i1 < m.repos_spec().len() && 0 <= k1 < m.repos_spec()[i1]@.len() && 0 <= i2
                < m.repos_spec().len() && 0 <= k2 < m.repos_spec()[i2]@.len() && (i1 != i2 || k1
                != k2) ==> m.repos_spec()[i1]@[k1].order != m.repos_spec()[i2]@[k2].order,
{
}

/// After repository `idx` alone is replaced by one serving the same peer,
/// lookups behave as before: other peers' logs are untouched, and the peer of
/// `idx` reads the new contents.
proof fn lemma_log_of_after_update(
    pre: RepositoryManager,
    post: RepositoryManager,
    idx: int,
    id: Seq<char>,
)
    requires
        0 <= idx < pre.repos_spec().len(),
        post.repos_spec().len() == pre.repos_spec().len(),
        forall|i: int|
            0 <= i < pre.repos_spec().len() && i != idx ==> post.repos_spec()[i]
                == pre.repos_spec()[i],
        post.repos_spec()[idx].id_spec() == pre.repos_spec()[idx].id_spec(),
        forall|i: int, j: int|
            #![trigger pre.repos_spec()[i], pre.repos_spec()[j]]
            0 <= i < j < pre.repos_spec().len() ==> pre.repos_spec()[i].id_spec()
                != pre.repos_spec()[j].id_spec(),
    ensures
        id != pre.repos_spec()[idx].id_spec() ==> post.log_of(id) == pre.log_of(id),
        id == pre.repos_spec()[idx].id_spec() ==> post.log_of(id) == post.repos_spec()[idx]@,
{
    assert forall|i: int, j: int|
        #![trigger post.repos_spec()[i], post.repos_spec()[j]]
        0 <= i < j < post.repos_spec().len() implies post.repos_spec()[i].id_spec()
        != post.repos_spec()[j].id_spec() by {
        assert(post.repos_spec()[i].id_spec() == pre.repos_spec()[i].id_spec());
        assert(post.repos_spec()[j].id_spec() == pre.repos_spec()[j].id_spec());
    }
    if id == pre.repos_spec()[idx].id_spec() {
        assert(post.repos_spec()[idx].id_spec() == id);
        assert(post.has_repo(id));
        let w = post.index_of(id);
        assert(post.repos_spec()[w].id_spec() == id);
        if w != idx {
            assert(post.repos_spec()[w].id_spec() != post.repos_spec()[idx].id_spec());
        }
        assert(w == idx);
    } else {
        if pre.has_repo(id) {
            let w = pre.index_of(id);
            assert(pre.repos_spec()[w].id_spec() == id);
            assert(w != idx);
            assert(post.repos_spec()[w].id_spec() == id);
            assert(post.has_repo(id));
            let w2 = post.index_of(id);
            assert(post.repos_spec()[w2].id_spec() == id);
            if w2 != w {
                assert(post.repos_spec()[w2].id_spec() != post.repos_spec()[w].id_spec());
            }
            assert(post.log_of(id) == post.repos_spec()[w]@);
            assert(post.repos_spec()[w]@ == pre.repos_spec()[w]@);
        } else {
            if post.has_repo(id) {
                let w2 = post.index_of(id);
                assert(post.repos_spec()[w2].id_spec() == id);
                assert(w2 != idx);
                assert(pre.repos_spec()[w2].id_spec() == id);
                assert(pre.has_repo(id));
            }
            assert(!post.has_repo(id));
        }
    }
}

/// Restores manager well-formedness after `count` entries carrying the fresh
/// orders `base_order + 1 ..= base_order + count` were appended to repository
/// `idx` and the order counter advanced past them.
proof fn lemma_manager_after_append(
    pre: RepositoryManager,
    post: RepositoryManager,
    idx: int,
    base_order: u64,
    count: int,
)
    requires
        pre.wf(),
        0 <= idx < pre.repos_spec().len(),
        0 <= count,
        base_order >= pre.order_spec(),
        base_order + count <= u64::MAX,
        post.repos_spec().len() == pre.repos_spec().len(),
        forall|i: int|
            0 <= i < pre.repos_spec().len() && i != idx ==> post.repos_spec()[i]
                == pre.repos_spec()[i],
        post.repos_spec()[idx].id_spec() == pre.repos_spec()[idx].id_spec(),
        post.repos_spec()[idx].wf(),
        post.repos_spec()[idx]@.len() == pre.repos_spec()[idx]@.len() + count,
        post.repos_spec()[idx]@.len() < u64::MAX,
        forall|k: int|
            0 <= k < pre.repos_spec()[idx]@.len() ==> (#[trigger] post.repos_spec()[idx]@[k])
                == pre.repos_spec()[idx]@[k],
        forall|j: int|
            0 <= j < count ==> (#[trigger] post.repos_spec()[idx]@[pre.repos_spec()[idx]@.len()
                + j]).order == base_order + j + 1,
        post.order_spec() == base_order + count,
        post.assigned_spec() == pre.assigned_spec() + Seq::new(
            count as nat,
            |j: int| (base_order + j + 1) as u64,
        ),
    ensures
        post.wf(),
{
    let n = pre.repos_spec()[idx]@.len() as int;
    let a0 = pre.assigned_spec().len() as int;
    assert forall|i: int, j: int|
        #![trigger post.assigned_spec()[i], post.assigned_spec()[j]]
        0 <= i < j < post.assigned_spec().len() implies post.assigned_spec()[i]
        < post.assigned_spec()[j] by {
        if j < a0 {
            assert(pre.assigned_spec()[i] < pre.assigned_spec()[j]);
        } else if i < a0 {
            assert(post.assigned_spec()[i] == pre.assigned_spec()[i]);
            assert(pre.assigned_spec()[i] <= pre.order_spec());
            assert(post.assigned_spec()[j] == base_order + (j - a0) + 1);
        } else {
            assert(post.assigned_spec()[i] == base_order + (i - a0) + 1);
            assert(post.assigned_spec()[j] == base_order + (j - a0) + 1);
        }
    }
    assert forall|i: int|
        0 <= i < post.assigned_spec().len() implies (#[trigger] post.assigned_spec()[i])
        <= post.order_spec() by {
        if i < a0 {
            assert(post.assigned_spec()[i] == pre.assigned_spec()[i]);
            assert(pre.assigned_spec()[i] <= pre.order_spec());
        } else {
            assert(post.assigned_spec()[i] == base_order + (i - a0) + 1);
        }
    }
    assert forall|i: int, k: int|
        #![trigger post.repos_spec()[i]@[k]]
        0 <= i < post.repos_spec().len() && 0 <= k < post.repos_spec()[i]@.len() implies
        post.repos_spec()[i]@[k].order <= post.order_spec() by {
        if i != idx {
            assert(post.repos_spec()[i] == pre.repos_spec()[i]);
            assert(pre.repos_spec()[i]@[k].order <= pre.order_spec());
        } else if k < n {
            assert(post.repos_spec()[idx]@[k] == pre.repos_spec()[idx]@[k]);
            assert(pre.repos_spec()[idx]@[k].order <= pre.order_spec());
        } else {
            assert(post.repos_spec()[idx]@[n + (k - n)].order == base_order + (k - n) + 1);
        }
    }
    assert forall|i1: int, k1: int, i2: int, k2: int|
        #![trigger post.repos_spec()[i1]@[k1], post.repos_spec()[i2]@[k2]]
        0 <= i1 < post.repos_spec().len() && 0 <= k1 < post.repos_spec()[i1]@.len() && 0 <= i2
        < post.repos_spec().len() && 0 <= k2 < post.repos_spec()[i2]@.len() && (i1 != i2 || k1
        != k2) implies post.repos_spec()[i1]@[k1].order != post.repos_spec()[i2]@[k2].order by {
        lemma_entry_order_cases(pre, post, idx, base_order, count, i1, k1);
        lemma_entry_order_cases(pre, post, idx, base_order, count, i2, k2);
    }
}

/// Each entry of the post state is either an entry of the pre state with
/// order at most the old order counter, or one of the fresh entries with its
/// assigned order above it.
proof fn lemma_entry_order_cases(
    pre: RepositoryManager,
    post: RepositoryManager,
    idx: int,
    base_order: u64,
    count: int,
    i: int,
    k: int,
)
    requires
        pre.wf(),
        0 <= idx < pre.repos_spec().len(),
        0 <= count,
        base_order >= pre.order_spec(),
        base_order + count <= u64::MAX,
        post.repos_spec().len() == pre.repos_spec().len(),
        forall|ii: int|
            0 <= ii < pre.repos_spec().len() && ii != idx ==> post.repos_spec()[ii]
                == pre.repos_spec()[ii],
        post.repos_spec()[idx]@.len() == pre.repos_spec()[idx]@.len() + count,
        forall|kk: int|
            0 <= kk < pre.repos_spec()[idx]@.len() ==> (#[trigger] post.repos_spec()[idx]@[kk])
                == pre.repos_spec()[idx]@[kk],
        forall|j: int|
            0 <= j < count ==> (#[trigger] post.repos_spec()[idx]@[pre.repos_spec()[idx]@.len()
                + j]).order == base_order + j + 1,
        0 <= i < post.repos_spec().len(),
        0 <= k < post.repos_spec()[i]@.len(),
    ensures
        (i == idx && k >= pre.repos_spec()[idx]@.len()) ==> post.repos_spec()[i]@[k].order
            == base_order + (k - pre.repos_spec()[idx]@.len()) + 1,
        !(i == idx && k >= pre.repos_spec()[idx]@.len()) ==> post.repos_spec()[i]@[k]
            == pre.repos_spec()[i]@[k] && post.repos_spec()[i]@[k].order <= pre.order_spec(),
{
    let n = pre.repos_spec()[idx]@.len() as int;
    if i == idx && k >= n {
        assert(post.repos_spec()[idx]@[n + (k - n)].order == base_order + (k - n) + 1);
    } else if i == idx {
        assert(post.repos_spec()[idx]@[k] == pre.repos_spec()[idx]@[k]);
        assert(pre.repos_spec()[idx]@[k].order <= pre.order_spec());
    } else {
        assert(post.repos_spec()[i] == pre.repos_spec()[i]);
        assert(pre.repos_spec()[i]@[k].order <= pre.order_spec());
    }
}

/// After a fresh, empty repository for `new_id` is appended, every peer's
/// stored log reads the same as before.
proof fn lemma_log_of_after_push(
    pre: RepositoryManager,
    post: RepositoryManager,
    new_id: Seq<char>,
    id: Seq<char>,
)
    requires
        pre.wf(),
        !pre.has_repo(new_id),
        post.repos_spec().len() == pre.repos_spec().len() + 1,
        forall|i: int|
            0 <= i < pre.repos_spec().len() ==> post.repos_spec()[i] == pre.repos_spec()[i],
        (post.repos_spec().last()).id_spec() == new_id,
        (post.repos_spec().last())@ == Seq::<DbMessageView>::empty(),
        forall|i: int, j: int|
            0 <= i < j < post.repos_spec().len() ==> (#[trigger] post.repos_spec()[i]).id_spec()
                != (#[trigger] post.repos_spec()[j]).id_spec(),
    ensures
        post.log_of(id) == pre.log_of(id),
{
    let n = pre.repos_spec().len() as int;
    if pre.has_repo(id) {
        let w = pre.index_of(id);
        assert(pre.repos_spec()[w].id_spec() == id);
        assert(post.repos_spec()[w].id_spec() == id);
        assert(post.has_repo(id));
        let w2 = post.index_of(id);
        assert(post.repos_spec()[w2].id_spec() == id);
        if w != w2 {
            assert(post.repos_spec()[w].id_spec() != post.repos_spec()[w2].id_spec());
        }
        assert(post.log_of(id) == pre.log_of(id));
    } else if id == new_id {
        assert(post.has_repo(id));
        let w2 = post.index_of(id);
        assert(post.repos_spec()[w2].id_spec() == id);
        if w2 != n {
            assert(post.repos_spec()[w2] == pre.repos_spec()[w2]);
            assert(pre.has_repo(id));
        }
        assert(w2 == n);
        assert(post.log_of(id) =~= Seq::<DbMessageView>::empty());
    } else {
        if post.has_repo(id) {
            let w2 = post.index_of(id);
            assert(post.repos_spec()[w2].id_spec() == id);
            if w2 == n {
                assert(id == new_id);
            } else {
                assert(pre.repos_spec()[w2].id_spec() == id);
                assert(pre.has_repo(id));
            }
        }
        assert(!post.has_repo(id));
    }
}

} // verus!
