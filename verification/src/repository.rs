//! The log store of one authoring peer: an append-only sequence of entries
//! whose counters are exactly 1..N, with no gaps and no duplicates.

use vstd::prelude::*;

use crate::models::{views_of, DbMessage, DbMessageView};

verus! {

/// Why an append was rejected.
#[derive(Debug, Clone, Copy, PartialEq, Eq, Structural)]
pub enum LogError {
    /// An entry named an authoring peer other than this log's.
    PeerIdMismatch,
    /// The entries to append do not continue the log contiguously.
    InvalidCounter,
}

/// The entry `m` with its global order replaced by `o`.
pub open spec fn with_order(m: DbMessageView, o: u64) -> DbMessageView {
    DbMessageView { order: o, ..m }
}

/// The entry `m` with its counter replaced by `c`.
pub open spec fn with_counter(m: DbMessageView, c: u64) -> DbMessageView {
    DbMessageView { counter: c, ..m }
}

/// A log is well formed for peer `id` when entry `i` carries counter `i + 1`
/// and names `id` as its authoring peer.
pub open spec fn wf_log(log: Seq<DbMessageView>, id: Seq<char>) -> bool {
    forall|i: int|
        0 <= i < log.len() ==> (#[trigger] log[i]).counter == i + 1 && log[i].peer_id == id
}

/// The per-peer log store.  Its view is the sequence of stored entries.
pub struct Repository {
    pub id: String,
    entries: Vec<DbMessage>,
}

impl View for Repository {
    type V = Seq<DbMessageView>;

    closed spec fn view(&self) -> Seq<DbMessageView> {
        views_of(self.entries@)
    }
}

impl Repository {
    /// The authoring peer this log belongs to.
    pub closed spec fn id_spec(&self) -> Seq<char> {
        self.id@
    }

    /// The authoring peer this log belongs to.
    pub fn id_ref(&self) -> (r: &String)
        ensures
            r@ == self.id_spec(),
    {
        &self.id
    }

    /// The log is well formed: entry `i` carries counter `i + 1` and names
    /// this log's authoring peer.
    pub open spec fn wf(&self) -> bool {
        wf_log(self@, self.id_spec())
    }

    /// The highest committed counter, as a mathematical value.
    pub open spec fn counter_spec(&self) -> nat {
        self@.len()
    }

    /// An empty log for the authoring peer `id`.
    pub fn new(id: String) -> (r: Repository)
        ensures
            r.wf(),
            r@ == Seq::<DbMessageView>::empty(),
            r.id_spec() == id@,
    {
        let r = Repository { id, entries: Vec::new() };
        proof {
            assert(r@ =~= Seq::<DbMessageView>::empty());
        }
        r
    }

    /// The highest committed counter.
    pub fn get_counter(&self) -> (r: u64)
        requires
            self.counter_spec() < u64::MAX,
        ensures
            r == self.counter_spec(),
    {
        self.entries.len() as u64
    }

    /// The highest committed counter (the log's replication state).
    pub fn get_state(&self) -> (r: u64)
        requires
            self.counter_spec() < u64::MAX,
        ensures
            r == self.counter_spec(),
    {
        self.get_counter()
    }

    /// Appends one entry, for the local peer's own log.  An entry carrying
    /// counter 0 is assigned the next counter; any other counter must be
    /// exactly the next one.  Returns the entry as stored.
    pub fn save_message(&mut self, message: &DbMessage) -> (r: Result<DbMessage, LogError>)
        requires
            old(self).wf(),
            old(self).counter_spec() + 1 < u64::MAX,
        ensures
            final(self).wf(),
            final(self).id_spec() == old(self).id_spec(),
            (message@.peer_id != old(self).id_spec() ==> r == Err::<DbMessage, LogError>(
                LogError::PeerIdMismatch,
            ) && final(self)@ == old(self)@),
            (message@.peer_id == old(self).id_spec() && message@.counter != 0 && message@.counter != old(
                self,
            ).counter_spec() + 1 ==> r == Err::<DbMessage, LogError>(LogError::InvalidCounter)
                && final(self)@ == old(self)@),
            (message@.peer_id == old(self).id_spec() && (message@.counter == 0 || message@.counter == old(
                self,
            ).counter_spec() + 1) ==> (r matches Ok(stored) && stored@ == with_counter(
                message@,
                (old(self).counter_spec() + 1) as u64,
            ) && final(self)@ == old(self)@.push(stored@))),
    {
        if !equal_strings(&message.peer_id, &self.id) {
            return Err(LogError::PeerIdMismatch);
        }
        let next = self.entries.len() as u64 + 1;
        if message.counter != 0 && message.counter != next {
            return Err(LogError::InvalidCounter);
        }
        let mut stored = message.duplicate();
        stored.counter = next;
        let copy = stored.duplicate();
        let ghost pre = self@;
        self.entries.push(stored);
        proof {
            assert(self@ =~= pre.push(copy@));
        }
        Ok(copy)
    }

    /// All entries with counter greater than `start_counter`, in counter
    /// order.  Because counters are dense, that is the suffix of the log
    /// starting at index `start_counter`.
    pub fn get_messages(&self, start_counter: u64) -> (r: Vec<DbMessage>)
        requires
            self.wf(),
        ensures
            views_of(r@) == if start_counter < self@.len() {
                self@.skip(start_counter as int)
            } else {
                Seq::<DbMessageView>::empty()
            },
    {
        let mut r: Vec<DbMessage> = Vec::new();
        if start_counter >= self.entries.len() as u64 {
            proof {
                assert(views_of(r@) =~= Seq::<DbMessageView>::empty());
            }
            return r;
        }
        let mut i: usize = start_counter as usize;
        while i < self.entries.len()
            invariant
                start_counter <= i <= self.entries@.len(),
                self@.len() == self.entries@.len(),
                views_of(r@) == self@.subrange(start_counter as int, i as int),
            decreases self.entries@.len() - i,
        {
            let ghost pre = views_of(r@);
            r.push(self.entries[i].duplicate());
            proof {
                assert(views_of(r@) =~= pre.push(self.entries@[i as int]@));
                assert(views_of(r@) =~= self@.subrange(start_counter as int, i as int + 1));
            }
            i = i + 1;
        }
        proof {
            assert(self@.subrange(start_counter as int, self@.len() as int) =~= self@.skip(
                start_counter as int,
            ));
        }
        r
    }

    /// Appends a batch received from a remote peer.  Entries at or below the
    /// committed counter are dropped silently; what remains must continue the
    /// log contiguously, or the whole batch is rejected.  Appended entries
    /// are assigned the global orders `base_order + 1 ..`; the number
    /// appended is returned.
    pub fn insert_message_batch(
        &mut self,
        messages: &Vec<DbMessage>,
        base_order: u64,
    ) -> (r: Result<u64, LogError>)
        requires
            old(self).wf(),
            old(self).counter_spec() + messages@.len() < u64::MAX,
            base_order + messages@.len() <= u64::MAX,
        ensures
            final(self).wf(),
            final(self).id_spec() == old(self).id_spec(),
            ({
                let c = old(self).counter_spec();
                let kept = views_of(messages@).filter(|m: DbMessageView| m.counter > c);
                if forall|j: int|
                    0 <= j < kept.len() ==> (#[trigger] kept[j]).counter == c + j + 1
                        && kept[j].peer_id == old(self).id_spec() {
                    r == Ok::<u64, LogError>(kept.len() as u64) && final(self)@ == old(self)@
                        + Seq::new(
                        kept.len(),
                        |j: int| with_order(kept[j], (base_order + j + 1) as u64),
                    )
                } else {
                    r is Err && final(self)@ == old(self)@
                }
            }),
            (r matches Err(e) ==> Some(e) == spec_batch_verdict(
                views_of(messages@).filter(
                    (|m: DbMessageView| m.counter > old(self).counter_spec()),
                ),
                old(self).counter_spec() as int,
                old(self).id_spec(),
            )),
    {
        let ghost c = old(self).counter_spec();
        let ghost pred = |m: DbMessageView| m.counter > c;
        let base = self.entries.len() as u64;
        let mut kept: Vec<DbMessage> = Vec::new();
        let mut i: usize = 0;
        proof {
            assert(views_of(messages@.take(0)).filter(pred) =~= Seq::<DbMessageView>::empty());
            assert(views_of(kept@) =~= Seq::<DbMessageView>::empty());
        }
        while i < messages.len()
            invariant
                i <= messages@.len(),
                c == old(self).counter_spec(),
                old(self).wf(),
                base == c,
                pred == (|m: DbMessageView| m.counter > c),
                *self == *old(self),
                self.counter_spec() + messages@.len() < u64::MAX,
                base_order + messages@.len() <= u64::MAX,
                views_of(kept@) == views_of(messages@.take(i as int)).filter(pred),
                forall|j: int|
                    0 <= j < kept@.len() ==> (#[trigger] views_of(kept@)[j]).counter == c + j + 1
                        && views_of(kept@)[j].peer_id == self.id@,
                kept@.len() <= i,
            decreases messages@.len() - i,
        {
            let ghost taken = views_of(messages@.take(i as int));
            let m = &messages[i];
            proof {
                assert(messages@.take(i as int + 1) =~= messages@.take(i as int).push(
                    messages@[i as int],
                ));
                lemma_views_push(messages@.take(i as int), messages@[i as int]);
                lemma_filter_push(taken, m@, pred);
            }
            if m.counter > base {
                proof {
                    lemma_filter_index(messages@, i as int, pred);
                }
                let ghost full = views_of(messages@).filter(pred);
                let ghost ki = views_of(kept@).len() as int;
                if !equal_strings(&m.peer_id, &self.id) {
                    proof {
                        assert(full[ki] == m@);
                        assert forall|j: int|
                            0 <= j < ki implies (#[trigger] full[j]).peer_id == self.id_spec()
                            && full[j].counter == c + j + 1 by {
                            assert(full.take(ki)[j] == full[j]);
                            assert(views_of(kept@)[j] == full[j]);
                        }
                        lemma_verdict_first(full, c as int, self.id_spec(), ki);
                    }
                    return Err(LogError::PeerIdMismatch);
                }
                let expected = base + kept.len() as u64 + 1;
                if m.counter != expected {
                    proof {
                        assert(full[ki] == m@);
                        assert forall|j: int|
                            0 <= j < ki implies (#[trigger] full[j]).peer_id == self.id_spec()
                            && full[j].counter == c + j + 1 by {
                            assert(full.take(ki)[j] == full[j]);
                            assert(views_of(kept@)[j] == full[j]);
                        }
                        lemma_verdict_first(full, c as int, self.id_spec(), ki);
                    }
                    return Err(LogError::InvalidCounter);
                }
                let ghost pre = views_of(kept@);
                kept.push(m.duplicate());
                proof {
                    lemma_views_push(kept@.drop_last(), kept@.last());
                    assert(kept@.drop_last().push(kept@.last()) =~= kept@);
                    assert(views_of(kept@) =~= pre.push(m@));
                }
            }
            i = i + 1;
        }
        proof {
            assert(messages@.take(messages@.len() as int) =~= messages@);
        }
        let ghost keptv = views_of(messages@).filter(pred);
        let count = kept.len() as u64;
        let mut j: usize = 0;
        let ghost pre = self@;
        while j < kept.len()
            invariant
                j <= kept@.len(),
                views_of(kept@) == keptv,
                c == old(self).counter_spec(),
                self.id_spec() == old(self).id_spec(),
                c + kept@.len() < u64::MAX,
                base_order + kept@.len() <= u64::MAX,
                forall|jj: int|
                    0 <= jj < kept@.len() ==> (#[trigger] views_of(kept@)[jj]).counter == c + jj + 1
                        && views_of(kept@)[jj].peer_id == self.id@,
                self@ == pre + Seq::new(
                    j as nat,
                    |jj: int| with_order(keptv[jj], (base_order + jj + 1) as u64),
                ),
                pre == old(self)@,
                pre.len() == c,
                forall|ii: int|
                    0 <= ii < pre.len() ==> (#[trigger] pre[ii]).counter == ii + 1
                        && pre[ii].peer_id == self.id@,
            decreases kept@.len() - j,
        {
            let mut stored = kept[j].duplicate();
            stored.order = base_order + j as u64 + 1;
            let ghost mid = self@;
            self.entries.push(stored);
            proof {
                assert(views_of(kept@)[j as int] == kept@[j as int]@);
                assert(self@ =~= mid.push(with_order(keptv[j as int], (base_order + j + 1) as u64)));
                assert(self@ =~= pre + Seq::new(
                    j as nat + 1,
                    |jj: int| with_order(keptv[jj], (base_order + jj + 1) as u64),
                ));
            }
            j = j + 1;
        }
        proof {
            assert(forall|jj: int|
                0 <= jj < keptv.len() ==> self@[c + jj] == with_order(
                    #[trigger] keptv[jj],
                    (base_order + jj + 1) as u64,
                ));
        }
        Ok(count)
    }
}

/// Pushing an element commutes with taking views of a sequence of entries.
pub proof fn lemma_views_push(s: Seq<DbMessage>, x: DbMessage)
    ensures
        views_of(s.push(x)) =~= views_of(s).push(x@),
{
}

/// `filter` over a push keeps the element exactly when the predicate holds.
pub proof fn lemma_filter_push<A>(s: Seq<A>, x: A, pred: spec_fn(A) -> bool)
    ensures
        s.push(x).filter(pred) == if pred(x) {
            s.filter(pred).push(x)
        } else {
            s.filter(pred)
        },
{
    reveal(Seq::filter);
    assert(s.push(x).drop_last() =~= s);
    assert(s.push(x).last() == x);
}

/// Which rejection a batch's contiguity check reports: walking the kept
/// entries in order, the first offending entry decides, and a wrong
/// authoring peer is reported before a wrong counter.
pub open spec fn spec_batch_verdict(
    kept: Seq<DbMessageView>,
    next: int,
    id: Seq<char>,
) -> Option<LogError>
    decreases kept.len(),
{
    if kept.len() == 0 {
        None
    } else if kept[0].peer_id != id {
        Some(LogError::PeerIdMismatch)
    } else if kept[0].counter != next + 1 {
        Some(LogError::InvalidCounter)
    } else {
        spec_batch_verdict(kept.drop_first(), next + 1, id)
    }
}

/// When every entry before `k` continues the log and entry `k` does not, the
/// verdict is decided at `k`.
proof fn lemma_verdict_first(kept: Seq<DbMessageView>, next: int, id: Seq<char>, k: int)
    requires
        0 <= k < kept.len(),
        forall|j: int|
            0 <= j < k ==> (#[trigger] kept[j]).peer_id == id && kept[j].counter == next + j + 1,
        !(kept[k].peer_id == id && kept[k].counter == next + k + 1),
    ensures
        spec_batch_verdict(kept, next, id) == (if kept[k].peer_id != id {
            Some(LogError::PeerIdMismatch)
        } else {
            Some(LogError::InvalidCounter)
        }),
    decreases k,
{
    if k > 0 {
        assert(kept[0].peer_id == id && kept[0].counter == next + 1);
        assert forall|j: int|
            0 <= j < k - 1 implies (#[trigger] kept.drop_first()[j]).peer_id == id
            && kept.drop_first()[j].counter == (next + 1) + j + 1 by {
            assert(kept.drop_first()[j] == kept[j + 1]);
        }
        assert(kept.drop_first()[k - 1] == kept[k]);
        lemma_verdict_first(kept.drop_first(), next + 1, id, k - 1);
    }
}

/// A `filter` that keeps nothing returns the empty sequence.
pub proof fn lemma_filter_none<A>(s: Seq<A>, pred: spec_fn(A) -> bool)
    requires
        forall|i: int| 0 <= i < s.len() ==> !pred(#[trigger] s[i]),
    ensures
        s.filter(pred) == Seq::<A>::empty(),
    decreases s.len(),
{
    reveal(Seq::filter);
    if s.len() > 0 {
        lemma_filter_none(s.drop_last(), pred);
    } else {
        assert(s.filter(pred) =~= Seq::<A>::empty());
    }
}

/// A `filter` that keeps everything returns the sequence unchanged.
pub proof fn lemma_filter_all<A>(s: Seq<A>, pred: spec_fn(A) -> bool)
    requires
        forall|i: int| 0 <= i < s.len() ==> pred(#[trigger] s[i]),
    ensures
        s.filter(pred) == s,
    decreases s.len(),
{
    reveal(Seq::filter);
    if s.len() > 0 {
        lemma_filter_all(s.drop_last(), pred);
        assert(s.drop_last().push(s.last()) =~= s);
    } else {
        assert(s.filter(pred) =~= s);
    }
}

/// Some entry of `log` carries the counter `c`.
pub open spec fn has_counter(log: Seq<DbMessageView>, c: int) -> bool {
    exists|i: int| 0 <= i < log.len() && (#[trigger] log[i]).counter == c
}

/// Counters of a well-formed log are exactly 1..N: each lies in that range,
/// no two entries share one, and every value in the range occurs.
pub proof fn lemma_counters_dense(log: Seq<DbMessageView>, id: Seq<char>)
    requires
        wf_log(log, id),
    ensures
        forall|i: int| 0 <= i < log.len() ==> 1 <= (#[trigger] log[i]).counter <= log.len(),
        forall|i: int, j: int|
            0 <= i < log.len() && 0 <= j < log.len() && i != j ==> log[i].counter != log[j].counter,
        forall|c: int| 1 <= c <= log.len() ==> #[trigger] has_counter(log, c),
{
    assert forall|c: int| 1 <= c <= log.len() implies #[trigger] has_counter(log, c) by {
        assert(log[c - 1].counter == c);
    }
}

/// A batch whose entries all lie at or below the committed counter is
/// filtered away entirely, so by the contract of `insert_message_batch`
/// re-applying an already applied batch appends nothing, returns `Ok(0)`,
/// and leaves the log identical.
pub proof fn lemma_append_batch_idempotent(
    log: Seq<DbMessageView>,
    id: Seq<char>,
    messages: Seq<DbMessageView>,
)
    requires
        wf_log(log, id),
        forall|i: int| 0 <= i < messages.len() ==> (#[trigger] messages[i]).counter <= log.len(),
    ensures
        messages.filter(|m: DbMessageView| m.counter > log.len()) == Seq::<DbMessageView>::empty(),
        log + Seq::new(0, |j: int| with_order(messages[j], 0)) == log,
{
    lemma_filter_none(messages, |m: DbMessageView| m.counter > log.len());
    assert(log + Seq::new(0, |j: int| with_order(messages[j], 0)) =~= log);
}

/// Whether two strings hold the same characters.
pub fn equal_strings(a: &String, b: &String) -> (r: bool)
    ensures
        r == (a@ == b@),
{
    a.eq(b)
}

/// Taking views commutes with concatenation.
pub proof fn lemma_views_add(a: Seq<DbMessage>, b: Seq<DbMessage>)
    ensures
        views_of(a + b) =~= views_of(a) + views_of(b),
{
}

/// `filter` of a one-element sequence.
pub proof fn lemma_filter_single(m: DbMessageView, pred: spec_fn(DbMessageView) -> bool)
    ensures
        seq![m].filter(pred) == if pred(m) {
            seq![m]
        } else {
            Seq::<DbMessageView>::empty()
        },
{
    reveal_with_fuel(Seq::filter, 2);
    assert(seq![m].drop_last() =~= Seq::<DbMessageView>::empty());
    assert(seq![m].last() == m);
    if pred(m) {
        assert(seq![m].filter(pred) =~= seq![m]);
    } else {
        assert(seq![m].filter(pred) =~= Seq::<DbMessageView>::empty());
    }
}

/// Where entry `i` of `messages` lands inside the filtered views: right after
/// the filtered views of the prefix before it.
pub proof fn lemma_filter_index(
    messages: Seq<DbMessage>,
    i: int,
    pred: spec_fn(DbMessageView) -> bool,
)
    requires
        0 <= i < messages.len(),
        pred(messages[i]@),
    ensures
        ({
            let full = views_of(messages).filter(pred);
            let ki = views_of(messages.take(i)).filter(pred).len() as int;
            &&& 0 <= ki < full.len()
            &&& full[ki] == messages[i]@
            &&& full.take(ki) == views_of(messages.take(i)).filter(pred)
        }),
{
    let pre = messages.take(i);
    let post = messages.skip(i);
    assert(messages =~= pre + post);
    lemma_views_add(pre, post);
    assert(views_of(messages) == views_of(pre) + views_of(post));
    Seq::filter_distributes_over_add(views_of(pre), views_of(post), pred);
    assert(post =~= seq![messages[i]] + messages.skip(i + 1));
    lemma_views_add(seq![messages[i]], messages.skip(i + 1));
    assert(views_of(post) == views_of(seq![messages[i]]) + views_of(messages.skip(i + 1)));
    Seq::filter_distributes_over_add(
        views_of(seq![messages[i]]),
        views_of(messages.skip(i + 1)),
        pred,
    );
    assert(views_of(seq![messages[i]]) =~= seq![messages[i]@]);
    lemma_filter_single(messages[i]@, pred);
    assert(views_of(post).filter(pred)[0] == messages[i]@);
    let full = views_of(messages).filter(pred);
    let kept = views_of(pre).filter(pred);
    assert(full == kept + views_of(post).filter(pred));
    assert(full.take(kept.len() as int) =~= kept);
}

} // verus!
