//! The sync engine's decisions: serving inbound RPCs, planning outbound
//! pulls after a compare, choosing broadcast targets, and chunking file
//! uploads.  Transport runs outside; every rule lives here.

use vstd::prelude::*;

use crate::codec::{
    cp_views, str_views, BatchMessageResponse, ChatMessage, ChatMessageView, ComparePayload,
    ComparePayloadView, CompareResponse, FileWantResponse, FileDownloadResponse,
    FileDownloadResponseView, MessageAccept, PeerRecord, PeerRecordView, WireMessages,
};
use crate::file_catalog::{FileCatalog, FileDescription};
use crate::models::{views_of, DbMessage, DbMessageView};
use crate::peers::{Peer, PeerStore, PeerView};
use crate::repository::{
    equal_strings, lemma_filter_all, lemma_filter_push, wf_log, with_order, LogError,
};
use crate::repository_manager::{rs_views, RepoState, RepoStateView, RepositoryManager};

verus! {

/// A batch of freshly stored entries handed to the broadcaster.
#[derive(Debug, Clone)]
pub struct SyncMessage {
    pub stored_messages: Vec<DbMessage>,
}

/// Whether the caller of a compare is behind on, or ignorant of, the log
/// described by `s`: no entry of theirs names the peer, or some entry names
/// it with a smaller counter.
pub open spec fn spec_behind_or_unknown(s: RepoStateView, theirs: Seq<ComparePayloadView>) -> bool {
    (forall|j: int| 0 <= j < theirs.len() ==> (#[trigger] theirs[j]).peer_id != s.peer_id) || (
    exists|j: int|
        0 <= j < theirs.len() && (#[trigger] theirs[j]).peer_id == s.peer_id && theirs[j].counter
            < s.counter)
}

/// The compare answer: the peers of `mine`, in order, whose logs the caller
/// is behind on or does not know.
pub open spec fn spec_compare_response(
    mine: Seq<RepoStateView>,
    theirs: Seq<ComparePayloadView>,
) -> Seq<Seq<char>>
    decreases mine.len(),
{
    if mine.len() == 0 {
        Seq::<Seq<char>>::empty()
    } else {
        let rest = spec_compare_response(mine.drop_first(), theirs);
        if spec_behind_or_unknown(mine[0], theirs) {
            seq![mine[0].peer_id] + rest
        } else {
            rest
        }
    }
}

/// Serves a compare request: names every local log the caller is behind on
/// or does not know about.
pub fn compare_state_response(mine: &Vec<RepoState>, theirs: &Vec<ComparePayload>) -> (r: Vec<
    String,
>)
    ensures
        str_views(r@) == spec_compare_response(rs_views(mine@), cp_views(theirs@)),
{
    let ghost mv = rs_views(mine@);
    let ghost tv = cp_views(theirs@);
    let mut r: Vec<String> = Vec::new();
    let mut i: usize = 0;
    proof {
        assert(str_views(r@) =~= Seq::<Seq<char>>::empty());
        assert(mv.skip(0) =~= mv);
        assert(str_views(r@) + spec_compare_response(mv.skip(0), tv) =~= spec_compare_response(
            mv,
            tv,
        ));
    }
    while i < mine.len()
        invariant
            i <= mine@.len(),
            mv == rs_views(mine@),
            tv == cp_views(theirs@),
            str_views(r@) + spec_compare_response(mv.skip(i as int), tv) == spec_compare_response(
                mv,
                tv,
            ),
        decreases mine@.len() - i,
    {
        let ghost sv = mv[i as int];
        let mut hit = false;
        let mut spotted = false;
        let mut j: usize = 0;
        while j < theirs.len() && !hit
            invariant
                j <= theirs@.len(),
                tv == cp_views(theirs@),
                sv == mv[i as int],
                i < mine@.len(),
                mv == rs_views(mine@),
                sv.counter == mine@[i as int].counter,
                sv.peer_id == mine@[i as int].peer_id@,
                spotted == (exists|jj: int|
                    0 <= jj < j && (#[trigger] tv[jj]).peer_id == sv.peer_id),
                (!hit ==> forall|jj: int|
                    0 <= jj < j ==> !((#[trigger] tv[jj]).peer_id == sv.peer_id && tv[jj].counter
                        < sv.counter)),
                (hit ==> exists|jj: int|
                    0 <= jj < j && (#[trigger] tv[jj]).peer_id == sv.peer_id && tv[jj].counter
                        < sv.counter),
            decreases theirs@.len() - j,
        {
            if equal_strings(&theirs[j].peer_id, &mine[i].peer_id) {
                spotted = true;
                proof {
                    assert(tv[j as int].peer_id == sv.peer_id);
                }
                if theirs[j].counter < mine[i].counter {
                    hit = true;
                    proof {
                        assert(tv[j as int].counter < sv.counter);
                    }
                }
            } else {
                proof {
                    assert(tv[j as int].peer_id != sv.peer_id);
                }
            }
            j = j + 1;
        }
        let keep = hit || !spotted;
        proof {
            assert(keep == spec_behind_or_unknown(sv, tv));
            assert(mv.skip(i as int)[0] == sv);
            assert(mv.skip(i as int).drop_first() =~= mv.skip(i as int + 1));
        }
        if keep {
            let ghost pre = str_views(r@);
            r.push(mine[i].peer_id.clone());
            proof {
                assert(str_views(r@) =~= pre.push(sv.peer_id));
                assert(pre.push(sv.peer_id) + spec_compare_response(mv.skip(i as int + 1), tv)
                    =~= pre + (seq![sv.peer_id] + spec_compare_response(mv.skip(i as int + 1), tv)));
            }
        }
        i = i + 1;
    }
    proof {
        assert(mv.skip(mine@.len() as int) =~= Seq::<RepoStateView>::empty());
        assert(str_views(r@) + Seq::<Seq<char>>::empty() =~= str_views(r@));
    }
    r
}

/// Serves a batch pull: all entries of `peer_id` above the caller's counter,
/// with the author's identity record attached exactly when the caller starts
/// from zero.
pub fn serve_batch_request(
    manager: &RepositoryManager,
    peer_id: &String,
    my_counter: u64,
    identity: Option<PeerRecord>,
) -> (r: BatchMessageResponse)
    requires
        manager.wf(),
    ensures
        ({
            let log = manager.log_of(peer_id@);
            if my_counter >= log.len() {
                r@.messages == Seq::<DbMessageView>::empty() && r@.peer is None
            } else {
                r@.messages == log.skip(my_counter as int) && r@.peer == (if my_counter == 0 {
                    crate::codec::opt_peer_view(identity)
                } else {
                    Option::<PeerRecordView>::None
                })
            }
        }),
{
    let c = manager.counter_of(peer_id);
    if my_counter >= c {
        let r = BatchMessageResponse { messages: Vec::new(), peer: None };
        proof {
            assert(views_of(Seq::<DbMessage>::empty()) =~= Seq::<DbMessageView>::empty());
            assert(r@.messages =~= Seq::<DbMessageView>::empty());
        }
        r
    } else {
        let messages = manager.messages_after(peer_id, my_counter);
        let peer = if my_counter == 0 {
            identity
        } else {
            None
        };
        BatchMessageResponse { messages, peer }
    }
}

/// Applies a pushed batch to the log of `peer_id` and acknowledges with the
/// counter now committed — also when the batch was rejected, so the sender
/// learns what to retry from.
pub fn apply_messages(
    manager: &mut RepositoryManager,
    peer_id: &String,
    messages: &Vec<DbMessage>,
) -> (r: MessageAccept)
    requires
        old(manager).wf(),
        old(manager).log_of(peer_id@).len() + messages@.len() < u64::MAX,
        old(manager).order_spec() + messages@.len() <= u64::MAX,
    ensures
        final(manager).wf(),
        r@.counter == final(manager).log_of(peer_id@).len(),
        ({
            let c = old(manager).log_of(peer_id@).len();
            let o = old(manager).order_spec();
            let kept = views_of(messages@).filter(|m: DbMessageView| m.counter > c);
            if forall|j: int|
                0 <= j < kept.len() ==> (#[trigger] kept[j]).counter == c + j + 1
                    && kept[j].peer_id == peer_id@ {
                final(manager).log_of(peer_id@) == old(manager).log_of(peer_id@) + Seq::new(
                    kept.len(),
                    |j: int| with_order(kept[j], (o + j + 1) as u64),
                )
            } else {
                final(manager).log_of(peer_id@) == old(manager).log_of(peer_id@)
            }
        }),
        (forall|id: Seq<char>|
            id != peer_id@ ==> final(manager).log_of(id) == old(manager).log_of(id)),
{
    let _outcome = manager.append_remote_batch(peer_id, messages);
    let counter = manager.counter_of(peer_id);
    MessageAccept { counter }
}

/// Whether `v` holds a string with the characters of `s`.
pub fn contains_string(v: &Vec<String>, s: &String) -> (r: bool)
    ensures
        r == str_views(v@).contains(s@),
{
    let mut i: usize = 0;
    while i < v.len()
        invariant
            i <= v@.len(),
            forall|j: int| 0 <= j < i ==> (#[trigger] str_views(v@)[j]) != s@,
        decreases v@.len() - i,
    {
        if equal_strings(&v[i], s) {
            proof {
                assert(str_views(v@)[i as int] == s@);
            }
            return true;
        }
        proof {
            assert(str_views(v@)[i as int] != s@);
        }
        i = i + 1;
    }
    proof {
        if str_views(v@).contains(s@) {
            let w = choose|j: int| 0 <= j < str_views(v@).len() && str_views(v@)[j] == s@;
            assert(str_views(v@)[w] == s@);
        }
    }
    false
}

/// Serves a file availability query: the requested ids the local catalog
/// holds, in request order.
pub fn intersect_requested(requested: &Vec<String>, local: &Vec<String>) -> (r: Vec<String>)
    ensures
        str_views(r@) == str_views(requested@).filter(
            |s: Seq<char>| str_views(local@).contains(s),
        ),
{
    let ghost pred = |s: Seq<char>| str_views(local@).contains(s);
    let mut r: Vec<String> = Vec::new();
    let mut i: usize = 0;
    proof {
        assert(str_views(requested@).take(0) =~= Seq::<Seq<char>>::empty());
        assert(Seq::<Seq<char>>::empty().filter(pred) =~= Seq::<Seq<char>>::empty()) by {
            reveal(Seq::filter);
        }
        assert(str_views(r@) =~= Seq::<Seq<char>>::empty());
    }
    while i < requested.len()
        invariant
            i <= requested@.len(),
            pred == (|s: Seq<char>| str_views(local@).contains(s)),
            str_views(r@) == str_views(requested@).take(i as int).filter(pred),
        decreases requested@.len() - i,
    {
        let ghost taken = str_views(requested@).take(i as int);
        proof {
            assert(str_views(requested@).take(i as int + 1) =~= taken.push(
                str_views(requested@)[i as int],
            ));
            lemma_filter_push(taken, str_views(requested@)[i as int], pred);
        }
        if contains_string(local, &requested[i]) {
            let ghost pre = str_views(r@);
            r.push(requested[i].clone());
            proof {
                assert(str_views(r@) =~= pre.push(str_views(requested@)[i as int]));
            }
        }
        i = i + 1;
    }
    proof {
        assert(str_views(requested@).take(requested@.len() as int) =~= str_views(requested@));
    }
    r
}

/// The peers a batch of freshly stored entries is broadcast to: every
/// currently live peer when the entries are this node's own, nobody
/// otherwise (the origin fans out, avoiding a broadcast storm).
pub fn broadcast_targets(
    local_id: &String,
    stored: &Vec<DbMessage>,
    current_peers: &Vec<String>,
) -> (r: Vec<String>)
    requires
        stored@.len() > 0,
    ensures
        str_views(r@) == if stored@[0]@.peer_id == local_id@ {
            str_views(current_peers@)
        } else {
            Seq::<Seq<char>>::empty()
        },
{
    if equal_strings(&stored[0].peer_id, local_id) {
        let mut r: Vec<String> = Vec::new();
        let mut i: usize = 0;
        while i < current_peers.len()
            invariant
                i <= current_peers@.len(),
                r@.len() == i,
                forall|k: int| 0 <= k < i ==> (#[trigger] r@[k]@) == current_peers@[k]@,
            decreases current_peers@.len() - i,
        {
            r.push(current_peers[i].clone());
            i = i + 1;
        }
        proof {
            assert(str_views(r@) =~= str_views(current_peers@));
        }
        r
    } else {
        let r: Vec<String> = Vec::new();
        proof {
            assert(str_views(r@) =~= Seq::<Seq<char>>::empty());
        }
        r
    }
}

/// Whether a push of these entries must carry the author's identity record:
/// exactly when the batch includes counter 1, the first entry a stranger
/// could not authenticate otherwise.
pub fn should_attach_identity(messages: &Vec<DbMessage>) -> (r: bool)
    ensures
        r == exists|i: int|
            0 <= i < messages@.len() && (#[trigger] messages@[i]@).counter == 1,
{
    let mut i: usize = 0;
    while i < messages.len()
        invariant
            i <= messages@.len(),
            forall|j: int| 0 <= j < i ==> (#[trigger] messages@[j]@).counter != 1,
        decreases messages@.len() - i,
    {
        if messages[i].counter == 1 {
            proof {
                assert(messages@[i as int]@.counter == 1);
            }
            return true;
        }
        i = i + 1;
    }
    false
}

/// One planned batch pull: ask `peer_id` for entries of `repo_id` above
/// `counter`.
#[derive(Debug, Clone)]
pub struct BatchRequestPlan {
    pub peer_id: String,
    pub repo_id: String,
    pub counter: u64,
}

/// The (repo, counter) pairs of a plan list.
pub open spec fn plan_views(s: Seq<BatchRequestPlan>) -> Seq<(Seq<char>, u64)> {
    Seq::new(s.len(), |i: int| (s[i].repo_id@, s[i].counter))
}

/// Pulls for logs we already track: every state whose peer the compare
/// answer names, with our counter.
pub open spec fn spec_known_plans(states: Seq<RepoStateView>, resp: Seq<Seq<char>>) -> Seq<
    (Seq<char>, u64),
>
    decreases states.len(),
{
    if states.len() == 0 {
        Seq::<(Seq<char>, u64)>::empty()
    } else {
        let rest = spec_known_plans(states.drop_first(), resp);
        if resp.contains(states[0].peer_id) {
            seq![(states[0].peer_id, states[0].counter)] + rest
        } else {
            rest
        }
    }
}

/// Pulls for logs we do not track yet: every answered peer missing from our
/// states, from counter 0.
pub open spec fn spec_unknown_plans(resp: Seq<Seq<char>>, states: Seq<RepoStateView>) -> Seq<
    (Seq<char>, u64),
>
    decreases resp.len(),
{
    if resp.len() == 0 {
        Seq::<(Seq<char>, u64)>::empty()
    } else {
        let rest = spec_unknown_plans(resp.drop_first(), states);
        if exists|k: int| 0 <= k < states.len() && (#[trigger] states[k]).peer_id == resp[0] {
            rest
        } else {
            seq![(resp[0], 0u64)] + rest
        }
    }
}

/// Whether some state names `id`.
fn states_contain(states: &Vec<RepoState>, id: &String) -> (r: bool)
    ensures
        r == exists|k: int|
            0 <= k < rs_views(states@).len() && (#[trigger] rs_views(states@)[k]).peer_id == id@,
{
    let mut i: usize = 0;
    while i < states.len()
        invariant
            i <= states@.len(),
            forall|j: int| 0 <= j < i ==> (#[trigger] rs_views(states@)[j]).peer_id != id@,
        decreases states@.len() - i,
    {
        if equal_strings(&states[i].peer_id, id) {
            proof {
                assert(rs_views(states@)[i as int].peer_id == id@);
            }
            return true;
        }
        proof {
            assert(rs_views(states@)[i as int].peer_id != id@);
        }
        i = i + 1;
    }
    false
}

/// Plans the batch pulls that follow a compare answer from `peer_id`: our
/// counter for every named log we track, counter 0 for every named log we
/// do not.
pub fn plan_batch_requests(
    states: &Vec<RepoState>,
    resp_peer_ids: &Vec<String>,
    peer_id: &String,
) -> (r: Vec<BatchRequestPlan>)
    ensures
        plan_views(r@) == spec_known_plans(rs_views(states@), str_views(resp_peer_ids@))
            + spec_unknown_plans(str_views(resp_peer_ids@), rs_views(states@)),
        forall|i: int| 0 <= i < r@.len() ==> (#[trigger] r@[i].peer_id@) == peer_id@,
{
    let ghost sv = rs_views(states@);
    let ghost rv = str_views(resp_peer_ids@);
    let mut r: Vec<BatchRequestPlan> = Vec::new();
    let mut i: usize = 0;
    proof {
        assert(sv.skip(0) =~= sv);
        assert(plan_views(r@) =~= Seq::<(Seq<char>, u64)>::empty());
    }
    while i < states.len()
        invariant
            i <= states@.len(),
            sv == rs_views(states@),
            rv == str_views(resp_peer_ids@),
            plan_views(r@) + spec_known_plans(sv.skip(i as int), rv) == spec_known_plans(sv, rv),
            forall|k: int| 0 <= k < r@.len() ==> (#[trigger] r@[k].peer_id@) == peer_id@,
        decreases states@.len() - i,
    {
        proof {
            assert(sv.skip(i as int)[0] == sv[i as int]);
            assert(sv.skip(i as int).drop_first() =~= sv.skip(i as int + 1));
        }
        if contains_string(resp_peer_ids, &states[i].peer_id) {
            let ghost pre = plan_views(r@);
            r.push(
                BatchRequestPlan {
                    peer_id: peer_id.clone(),
                    repo_id: states[i].peer_id.clone(),
                    counter: states[i].counter,
                },
            );
            proof {
                assert(plan_views(r@) =~= pre.push((sv[i as int].peer_id, sv[i as int].counter)));
                assert(pre.push((sv[i as int].peer_id, sv[i as int].counter)) + spec_known_plans(
                    sv.skip(i as int + 1),
                    rv,
                ) =~= pre + (seq![(sv[i as int].peer_id, sv[i as int].counter)]
                    + spec_known_plans(sv.skip(i as int + 1), rv)));
            }
        }
        i = i + 1;
    }
    proof {
        assert(sv.skip(states@.len() as int) =~= Seq::<RepoStateView>::empty());
        assert(plan_views(r@) =~= spec_known_plans(sv, rv));
        assert(rv.skip(0) =~= rv);
    }
    let ghost known = plan_views(r@);
    let mut j: usize = 0;
    while j < resp_peer_ids.len()
        invariant
            j <= resp_peer_ids@.len(),
            sv == rs_views(states@),
            rv == str_views(resp_peer_ids@),
            known == spec_known_plans(sv, rv),
            plan_views(r@) + spec_unknown_plans(rv.skip(j as int), sv) == known
                + spec_unknown_plans(rv, sv),
            forall|k: int| 0 <= k < r@.len() ==> (#[trigger] r@[k].peer_id@) == peer_id@,
        decreases resp_peer_ids@.len() - j,
    {
        proof {
            assert(rv.skip(j as int)[0] == rv[j as int]);
            assert(rv.skip(j as int).drop_first() =~= rv.skip(j as int + 1));
        }
        if !states_contain(states, &resp_peer_ids[j]) {
            let ghost pre = plan_views(r@);
            r.push(
                BatchRequestPlan {
                    peer_id: peer_id.clone(),
                    repo_id: resp_peer_ids[j].clone(),
                    counter: 0,
                },
            );
            proof {
                assert(plan_views(r@) =~= pre.push((rv[j as int], 0u64)));
                assert(pre.push((rv[j as int], 0u64)) + spec_unknown_plans(
                    rv.skip(j as int + 1),
                    sv,
                ) =~= pre + (seq![(rv[j as int], 0u64)] + spec_unknown_plans(
                    rv.skip(j as int + 1),
                    sv,
                )));
            }
        }
        j = j + 1;
    }
    proof {
        assert(rv.skip(resp_peer_ids@.len() as int) =~= Seq::<Seq<char>>::empty());
        assert(plan_views(r@) + Seq::<(Seq<char>, u64)>::empty() =~= plan_views(r@));
    }
    r
}

/// The views of a chunk list.
pub open spec fn dl_views(s: Seq<FileDownloadResponse>) -> Seq<FileDownloadResponseView> {
    Seq::new(s.len(), |i: int| s[i]@)
}

/// The bytes a chunk list carries, in order.
pub open spec fn spec_chunks_concat(rs: Seq<FileDownloadResponseView>) -> Seq<u8>
    decreases rs.len(),
{
    if rs.len() == 0 {
        Seq::<u8>::empty()
    } else {
        rs[0].chunk + spec_chunks_concat(rs.drop_first())
    }
}

/// Appending a chunk appends its bytes.
proof fn lemma_chunks_snoc(rs: Seq<FileDownloadResponseView>, x: FileDownloadResponseView)
    ensures
        spec_chunks_concat(rs.push(x)) == spec_chunks_concat(rs) + x.chunk,
    decreases rs.len(),
{
    if rs.len() == 0 {
        assert(rs.push(x)[0] == x);
        assert(rs.push(x).drop_first() =~= Seq::<FileDownloadResponseView>::empty());
        assert(rs =~= Seq::<FileDownloadResponseView>::empty());
        assert(spec_chunks_concat(Seq::<FileDownloadResponseView>::empty())
            == Seq::<u8>::empty());
        assert(spec_chunks_concat(rs.push(x)) == x.chunk + spec_chunks_concat(
            rs.push(x).drop_first(),
        ));
        assert(x.chunk + Seq::<u8>::empty() =~= x.chunk);
        assert(Seq::<u8>::empty() + x.chunk =~= x.chunk);
    } else {
        assert(rs.push(x).drop_first() =~= rs.drop_first().push(x));
        lemma_chunks_snoc(rs.drop_first(), x);
        assert(rs.push(x)[0] == rs[0]);
        assert(rs[0].chunk + (spec_chunks_concat(rs.drop_first()) + x.chunk) =~= (rs[0].chunk
            + spec_chunks_concat(rs.drop_first())) + x.chunk);
    }
}

/// Splits a file into download responses: chunks of at most 8 KiB carrying
/// the extension, closed by one empty final chunk.  The chunks carry exactly
/// the file's bytes, in order.
pub fn chunk_file(ext: &String, data: &Vec<u8>) -> (r: Vec<FileDownloadResponse>)
    ensures
        r@.len() >= 1,
        forall|i: int| 0 <= i < r@.len() ==> (#[trigger] dl_views(r@)[i]).ext == ext@,
        forall|i: int|
            0 <= i < r@.len() - 1 ==> !(#[trigger] dl_views(r@)[i]).last_chunk && dl_views(
                r@,
            )[i].chunk.len() <= 8192,
        dl_views(r@)[r@.len() - 1].last_chunk && dl_views(r@)[r@.len() - 1].chunk.len() == 0,
        spec_chunks_concat(dl_views(r@)) == data@,
{
    let mut r: Vec<FileDownloadResponse> = Vec::new();
    let mut pos: usize = 0;
    proof {
        assert(spec_chunks_concat(dl_views(r@)) =~= Seq::<u8>::empty());
        assert(data@.take(0) =~= Seq::<u8>::empty());
    }
    while pos < data.len()
        invariant
            pos <= data@.len(),
            spec_chunks_concat(dl_views(r@)) == data@.take(pos as int),
            forall|i: int| 0 <= i < r@.len() ==> (#[trigger] dl_views(r@)[i]).ext == ext@,
            forall|i: int|
                0 <= i < r@.len() ==> !(#[trigger] dl_views(r@)[i]).last_chunk && dl_views(
                    r@,
                )[i].chunk.len() <= 8192,
        decreases data@.len() - pos,
    {
        let take = if data.len() - pos > 8192 {
            8192
        } else {
            data.len() - pos
        };
        let chunk = crate::wire::copy_range(data, pos, pos + take);
        let resp = FileDownloadResponse { ext: ext.clone(), chunk, last_chunk: false };
        let ghost rv = resp@;
        let ghost pre = dl_views(r@);
        r.push(resp);
        proof {
            assert(dl_views(r@) =~= pre.push(rv));
            lemma_chunks_snoc(pre, rv);
            assert(data@.take(pos as int) + data@.subrange(pos as int, (pos + take) as int)
                =~= data@.take((pos + take) as int));
        }
        pos = pos + take;
    }
    let fin = FileDownloadResponse { ext: ext.clone(), chunk: Vec::new(), last_chunk: true };
    let ghost fv = fin@;
    let ghost pre = dl_views(r@);
    r.push(fin);
    proof {
        assert(dl_views(r@) =~= pre.push(fv));
        lemma_chunks_snoc(pre, fv);
        assert(data@.take(data@.len() as int) =~= data@);
        assert(data@ + fv.chunk =~= data@);
    }
    r
}

/// Gathers a download: the bytes of all chunks in arrival order, and the
/// extension the final chunk carried.
pub fn collect_download(chunks: &Vec<FileDownloadResponse>) -> (r: (String, Vec<u8>))
    ensures
        r.1@ == spec_chunks_concat(dl_views(chunks@)),
        chunks@.len() > 0 ==> r.0@ == dl_views(chunks@)[chunks@.len() - 1].ext,
        chunks@.len() == 0 ==> r.0@ == Seq::<char>::empty(),
{
    let mut bytes: Vec<u8> = Vec::new();
    let mut ext = String::new();
    let mut i: usize = 0;
    proof {
        assert(dl_views(chunks@).take(0) =~= Seq::<FileDownloadResponseView>::empty());
        assert(bytes@ =~= spec_chunks_concat(dl_views(chunks@).take(0)));
    }
    while i < chunks.len()
        invariant
            i <= chunks@.len(),
            bytes@ == spec_chunks_concat(dl_views(chunks@).take(i as int)),
            i > 0 ==> ext@ == dl_views(chunks@)[i - 1].ext,
            i == 0 ==> ext@ == Seq::<char>::empty(),
        decreases chunks@.len() - i,
    {
        crate::wire::append_bytes(&mut bytes, &chunks[i].chunk);
        ext = chunks[i].ext.clone();
        proof {
            assert(dl_views(chunks@).take(i as int + 1) =~= dl_views(chunks@).take(i as int).push(
                dl_views(chunks@)[i as int],
            ));
            lemma_chunks_snoc(dl_views(chunks@).take(i as int), dl_views(chunks@)[i as int]);
        }
        i = i + 1;
    }
    proof {
        assert(dl_views(chunks@).take(chunks@.len() as int) =~= dl_views(chunks@));
    }
    (ext, bytes)
}

/// An entry's content, with the node-local order left out.
pub open spec fn same_content(a: DbMessageView, b: DbMessageView) -> bool {
    a.counter == b.counter && a.id == b.id && a.timestamp == b.timestamp && a.payload == b.payload
        && a.peer_id == b.peer_id
}

/// One pull levels a lagging replica: when B's log for a peer matches A's
/// entry for entry up to B's counter, the suffix A serves for B's counter
/// passes B's contiguity check whole, and afterwards B's log matches A's
/// entry for entry.  Orders are node-local and excluded from the comparison.
pub proof fn lemma_pull_converges(
    a_log: Seq<DbMessageView>,
    b_log: Seq<DbMessageView>,
    id: Seq<char>,
    base_order: u64,
)
    requires
        wf_log(a_log, id),
        wf_log(b_log, id),
        b_log.len() <= a_log.len(),
        forall|i: int| 0 <= i < b_log.len() ==> same_content(#[trigger] b_log[i], a_log[i]),
    ensures
        ({
            let c = b_log.len();
            let fetched = a_log.skip(c as int);
            let kept = fetched.filter(|m: DbMessageView| m.counter > c);
            &&& kept == fetched
            &&& (forall|j: int|
                0 <= j < kept.len() ==> (#[trigger] kept[j]).counter == c + j + 1
                    && kept[j].peer_id == id)
            &&& ({
                let b2 = b_log + Seq::new(
                    kept.len(),
                    |j: int| with_order(kept[j], (base_order + j + 1) as u64),
                );
                b2.len() == a_log.len() && (forall|i: int|
                    0 <= i < b2.len() ==> same_content(#[trigger] b2[i], a_log[i]))
            })
        }),
{
    let c = b_log.len();
    let fetched = a_log.skip(c as int);
    let pred = |m: DbMessageView| m.counter > c;
    assert forall|j: int| 0 <= j < fetched.len() implies pred(#[trigger] fetched[j]) by {
        assert(fetched[j] == a_log[c + j]);
        assert(a_log[c + j].counter == c + j + 1);
    }
    lemma_filter_all(fetched, pred);
    let kept = fetched.filter(pred);
    assert forall|j: int|
        0 <= j < kept.len() implies (#[trigger] kept[j]).counter == c + j + 1 && kept[j].peer_id
        == id by {
        assert(kept[j] == a_log[c + j]);
    }
    let b2 = b_log + Seq::new(kept.len(), |j: int| with_order(kept[j], (base_order + j + 1) as u64));
    assert forall|i: int| 0 <= i < b2.len() implies same_content(#[trigger] b2[i], a_log[i]) by {
        if i < c {
            assert(b2[i] == b_log[i]);
        } else {
            assert(b2[i] == with_order(kept[i - c], (base_order + (i - c) + 1) as u64));
            assert(kept[i - c] == a_log[i]);
        }
    }
}


/// What serving one inbound request decides: a single-frame reply, a file
/// upload, or closing the stream on a request that makes no sense.
pub enum InboundAction {
    Reply(ChatMessage),
    SendFile(FileDescription),
    Reject,
}

/// The replication states the manager would report, as mathematical values.
pub open spec fn spec_states(m: &RepositoryManager) -> Seq<RepoStateView> {
    Seq::new(
        m.repos_spec().len(),
        |i: int|
            RepoStateView {
                counter: m.repos_spec()[i]@.len() as u64,
                peer_id: m.repos_spec()[i].id_spec(),
            },
    )
}

/// What storing an attached identity record must do: a peer already known
/// keeps its pinned key untouched; an unknown peer whose key field is the
/// hex of a well-formed verifying key is stored exactly once with that key,
/// everything else in the store untouched; a malformed key changes nothing.
pub open spec fn spec_identity_stored(
    pre: PeerStore,
    post: PeerStore,
    rec: PeerRecordView,
    now: i64,
) -> bool {
    &&& (pre.has_peer(rec.id) ==> post == pre)
    &&& (!pre.has_peer(rec.id) ==> (forall|b: Seq<u8>|
        rec.pub_key == #[trigger] crate::crypto::spec_hex(b) ==> ({
            &&& (crate::crypto::spec_ed25519_key_ok(b) ==> post.has_peer(rec.id)
                && post.record_of(rec.id) == (PeerView {
                id: rec.id,
                name: Some(rec.name),
                created_at: now,
                public_key: b,
                signing_key: None,
            }) && (forall|id: Seq<char>|
                id != rec.id ==> (post.has_peer(id) == pre.has_peer(id) && (pre.has_peer(id)
                    ==> post.record_of(id) == pre.record_of(id)))))
            &&& (!crate::crypto::spec_ed25519_key_ok(b) ==> post == pre)
        })))
}

/// Stores an attached identity record, only when its peer is not yet known
/// and its key field is the hex of a well-formed verifying key.
fn store_attached_identity(store: &mut PeerStore, record: &PeerRecord, now: i64)
    requires
        old(store).wf(),
    ensures
        final(store).wf(),
        spec_identity_stored(*old(store), *final(store), record@, now),
{
    match store.get_peer_by_id(&record.id) {
        Some(_) => {
        },
        None => {
            let made = Peer::new(
                record.id.clone(),
                record.name.clone(),
                record.pub_key.clone(),
                now,
            );
            match made {
                Ok(p) => {
                    store.save_peer(p);
                },
                Err(_) => {
                },
            }
        },
    }
}

/// The wire identity record of a stored peer.
pub open spec fn spec_record_of(p: PeerView) -> PeerRecordView {
    PeerRecordView {
        id: p.id,
        name: match p.name {
            Some(n) => n,
            None => "Default"@,
        },
        pub_key: crate::crypto::spec_hex(p.public_key),
    }
}

/// Serves one inbound request, as the stream's owner: answers compares,
/// batch pulls, pushes and availability queries with a single reply frame,
/// starts an upload for a download request it can satisfy, and rejects
/// everything else.
pub fn handle_request(
    manager: &mut RepositoryManager,
    catalog: &FileCatalog,
    store: &mut PeerStore,
    req: &ChatMessage,
    now: i64,
) -> (r: InboundAction)
    requires
        old(manager).wf(),
        catalog.wf(),
        old(store).wf(),
        (req@ matches ChatMessageView::Messages(m) ==> old(manager).log_of(m.peer_id).len()
            + m.messages.len() < u64::MAX && old(manager).order_spec() + m.messages.len()
            <= u64::MAX),
    ensures
        final(manager).wf(),
        final(store).wf(),
        (req@ matches ChatMessageView::CompareRequest(cr) ==> (r matches InboundAction::Reply(
            reply,
        ) && (reply@ matches ChatMessageView::CompareResponse(cresp) && cresp.peer_ids
            == spec_compare_response(spec_states(old(manager)), cr.compare_payload))
            && *final(manager) == *old(manager) && *final(store) == *old(store))),
        (req@ matches ChatMessageView::BatchMessageRequest(br) ==> (r matches InboundAction::Reply(
            reply,
        ) && (reply@ matches ChatMessageView::BatchMessageResponse(bresp) && ({
            let log = old(manager).log_of(br.peer_id);
            if br.my_counter >= log.len() {
                bresp.messages == Seq::<DbMessageView>::empty() && bresp.peer is None
            } else {
                bresp.messages == log.skip(br.my_counter as int) && (br.my_counter == 0 ==> (
                old(store).has_peer(br.peer_id) ==> bresp.peer == Some(
                    spec_record_of(old(store).record_of(br.peer_id)),
                )) && (!old(store).has_peer(br.peer_id) ==> bresp.peer is None)) && (br.my_counter
                    != 0 ==> bresp.peer is None)
            }
        })) && *final(manager) == *old(manager) && *final(store) == *old(store))),
        (req@ matches ChatMessageView::Messages(ms) ==> (r matches InboundAction::Reply(reply)
            && (reply@ matches ChatMessageView::MessageAccept(acc) && ({
            let fin_len = final(manager).log_of(ms.peer_id).len();
            acc.counter == fin_len
        })) && ({
            let c = old(manager).log_of(ms.peer_id).len();
            let o = old(manager).order_spec();
            let kept = ms.messages.filter(|m: DbMessageView| m.counter > c);
            if forall|j: int|
                0 <= j < kept.len() ==> (#[trigger] kept[j]).counter == c + j + 1
                    && kept[j].peer_id == ms.peer_id {
                final(manager).log_of(ms.peer_id) == old(manager).log_of(ms.peer_id) + Seq::new(
                    kept.len(),
                    |j: int| with_order(kept[j], (o + j + 1) as u64),
                )
            } else {
                final(manager).log_of(ms.peer_id) == old(manager).log_of(ms.peer_id)
            }
        }) && (ms.peer is None ==> *final(store) == *old(store)) && (ms.peer matches Some(rec)
            ==> spec_identity_stored(*old(store), *final(store), rec, now)))),
        (req@ matches ChatMessageView::FileWantRequest(fw) ==> (r matches InboundAction::Reply(
            reply,
        ) && (reply@ matches ChatMessageView::FileWantResponse(fresp) && fresp.file_id
            == fw.file_id.filter(
            |s: Seq<char>|
                exists|i: int|
                    0 <= i < catalog.files_spec().len() && (#[trigger] catalog.files_spec()[i]).id
                        == s,
        )) && *final(manager) == *old(manager) && *final(store) == *old(store))),
        (req@ matches ChatMessageView::FileDownloadRequest(fd) ==> (catalog.has_file(fd.file_id)
            ==> (r matches InboundAction::SendFile(d) && d@ == catalog.descriptor_of(fd.file_id)))
            && (!catalog.has_file(fd.file_id) ==> r is Reject) && *final(manager)
            == *old(manager) && *final(store) == *old(store)),
        ((req@ is CompareResponse || req@ is BatchMessageResponse || req@ is MessageAccept
            || req@ is FileWantResponse || req@ is FileDownloadResponse) ==> r is Reject
            && *final(manager) == *old(manager) && *final(store) == *old(store)),
{
    match req {
        ChatMessage::CompareRequest(cr) => {
            let states = manager.get_repo_states();
            proof {
                assert(rs_views(states@) =~= spec_states(manager));
            }
            let peer_ids = compare_state_response(&states, &cr.compare_payload);
            let reply = ChatMessage::CompareResponse(CompareResponse { peer_ids });
            InboundAction::Reply(reply)
        },
        ChatMessage::BatchMessageRequest(br) => {
            let identity = if br.my_counter == 0 {
                match store.get_peer_by_id(&br.peer_id) {
                    Some(p) => Some(p.to_record()),
                    None => None,
                }
            } else {
                None
            };
            let resp = serve_batch_request(manager, &br.peer_id, br.my_counter, identity);
            InboundAction::Reply(ChatMessage::BatchMessageResponse(resp))
        },
        ChatMessage::Messages(ms) => {
            match &ms.peer {
                Some(record) => {
                    store_attached_identity(store, record, now);
                },
                None => {},
            }
            let acc = apply_messages(manager, &ms.peer_id, &ms.messages);
            proof {
                assert(views_of(ms.messages@) == req@->Messages_0.messages);
            }
            InboundAction::Reply(ChatMessage::MessageAccept(acc))
        },
        ChatMessage::FileWantRequest(fw) => {
            let local = catalog.all_file_ids();
            let ghost cpred = |s: Seq<char>|
                exists|i: int|
                    0 <= i < catalog.files_spec().len() && (#[trigger] catalog.files_spec()[i]).id
                        == s;
            proof {
                assert forall|s: Seq<char>|
                    #[trigger] str_views(local@).contains(s) == cpred(s) by {
                    if str_views(local@).contains(s) {
                        let w = choose|k: int|
                            0 <= k < str_views(local@).len() && str_views(local@)[k] == s;
                        assert(catalog.files_spec()[w].id == s);
                    }
                    if cpred(s) {
                        let w = choose|i: int|
                            0 <= i < catalog.files_spec().len() && (
                            #[trigger] catalog.files_spec()[i]).id == s;
                        assert(str_views(local@)[w] == s);
                    }
                }
            }
            let found = intersect_requested(&fw.file_id, &local);
            proof {
                lemma_filter_congruence(
                    str_views(fw.file_id@),
                    |s: Seq<char>| str_views(local@).contains(s),
                    cpred,
                );
            }
            InboundAction::Reply(
                ChatMessage::FileWantResponse(FileWantResponse { file_id: found }),
            )
        },
        ChatMessage::FileDownloadRequest(fd) => {
            match catalog.get_by_id(&fd.file_id) {
                Some(d) => InboundAction::SendFile(d),
                None => InboundAction::Reject,
            }
        },
        _ => InboundAction::Reject,
    }
}

/// Two predicates that agree everywhere filter alike.
proof fn lemma_filter_congruence<A>(s: Seq<A>, p: spec_fn(A) -> bool, q: spec_fn(A) -> bool)
    requires
        forall|x: A| #[trigger] p(x) == q(x),
    ensures
        s.filter(p) == s.filter(q),
    decreases s.len(),
{
    reveal(Seq::filter);
    if s.len() > 0 {
        lemma_filter_congruence(s.drop_last(), p, q);
    } else {
        assert(s.filter(p) =~= s.filter(q));
    }
}

/// Applies the answer to a batch pull: stores the attached identity record,
/// if any and well formed, then appends the entries to the named peer's log.
pub fn apply_batch_response(
    manager: &mut RepositoryManager,
    store: &mut PeerStore,
    repo_id: &String,
    resp: &BatchMessageResponse,
    now: i64,
) -> (r: Result<u64, LogError>)
    requires
        old(manager).wf(),
        old(store).wf(),
        old(manager).log_of(repo_id@).len() + resp.messages@.len() < u64::MAX,
        old(manager).order_spec() + resp.messages@.len() <= u64::MAX,
    ensures
        final(manager).wf(),
        final(store).wf(),
        ({
            let c = old(manager).log_of(repo_id@).len();
            let o = old(manager).order_spec();
            let kept = views_of(resp.messages@).filter(|m: DbMessageView| m.counter > c);
            if forall|j: int|
                0 <= j < kept.len() ==> (#[trigger] kept[j]).counter == c + j + 1
                    && kept[j].peer_id == repo_id@ {
                r == Ok::<u64, LogError>(kept.len() as u64) && final(manager).log_of(repo_id@)
                    == old(manager).log_of(repo_id@) + Seq::new(
                    kept.len(),
                    |j: int| with_order(kept[j], (o + j + 1) as u64),
                )
            } else {
                r is Err && final(manager).log_of(repo_id@) == old(manager).log_of(repo_id@)
            }
        }),
        (resp.peer is None ==> *final(store) == *old(store)),
        (resp.peer matches Some(rec) ==> spec_identity_stored(
            *old(store),
            *final(store),
            rec@,
            now,
        )),
{
    match &resp.peer {
        Some(record) => {
            store_attached_identity(store, record, now);
        },
        None => {},
    }
    manager.append_remote_batch(repo_id, &resp.messages)
}

/// Builds the push of freshly stored entries to one peer, attaching the
/// author's identity record exactly when the batch includes counter 1.
pub fn build_messages_push(
    peer_id: &String,
    messages: Vec<DbMessage>,
    identity: Option<PeerRecord>,
) -> (r: ChatMessage)
    ensures
        (r matches ChatMessage::Messages(ms) && ms.peer_id@ == peer_id@ && views_of(ms.messages@)
            == views_of(messages@) && ({
            let attach = exists|i: int|
                0 <= i < messages@.len() && (#[trigger] messages@[i]@).counter == 1;
            (attach ==> crate::codec::opt_peer_view(ms.peer) == crate::codec::opt_peer_view(
                identity,
            )) && (!attach ==> ms.peer is None)
        })),
{
    let attach = should_attach_identity(&messages);
    let peer = if attach {
        identity
    } else {
        None
    };
    ChatMessage::Messages(WireMessages { peer_id: peer_id.clone(), peer, messages })
}

} // verus!
