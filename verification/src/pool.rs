//! The peer pool's lookup policy over its two session tables.  The sessions
//! themselves, the per-peer dial lock and the dial timeout live outside;
//! which session a call uses, and when a dial happens, is decided here.

use vstd::prelude::*;

use crate::codec::str_views;
use crate::repository::equal_strings;
use crate::sync_engine::contains_string;

verus! {

/// What the pool knows of one session: whom it reaches and whether its
/// inbound loop is still running.
#[derive(Debug, Clone)]
pub struct SessionInfo {
    pub peer_id: String,
    pub alive: bool,
}

/// The views of a session table.
pub open spec fn session_views(s: Seq<SessionInfo>) -> Seq<(Seq<char>, bool)> {
    Seq::new(s.len(), |i: int| (s[i].peer_id@, s[i].alive))
}

/// Whether some live session for `id` sits in the table.
pub open spec fn has_live(s: Seq<(Seq<char>, bool)>, id: Seq<char>) -> bool {
    exists|i: int| 0 <= i < s.len() && (#[trigger] s[i]).0 == id && s[i].1
}

/// Which session a `get` uses: the first live outgoing one, else the first
/// live incoming one, else none — then, and only then, a dial is due.
pub enum PoolDecision {
    UseOutgoing(usize),
    UseIncoming(usize),
    Dial,
}

/// The first index of a live session for `id`, if any.
fn find_live(table: &Vec<SessionInfo>, id: &String) -> (r: Option<usize>)
    ensures
        (r matches Some(i) ==> i < table@.len() && session_views(table@)[i as int] == (id@, true)),
        (r is None ==> !has_live(session_views(table@), id@)),
{
    let mut i: usize = 0;
    while i < table.len()
        invariant
            i <= table@.len(),
            forall|j: int| 0 <= j < i ==> !((#[trigger] session_views(table@)[j]).0 == id@
                && session_views(table@)[j].1),
        decreases table@.len() - i,
    {
        if table[i].alive && equal_strings(&table[i].peer_id, id) {
            proof {
                assert(session_views(table@)[i as int] == (id@, true));
            }
            return Some(i);
        }
        proof {
            assert(!((session_views(table@)[i as int]).0 == id@ && session_views(
                table@,
            )[i as int].1));
        }
        i = i + 1;
    }
    None
}

/// The pool's lookup rule: a live outgoing session wins, then a live
/// incoming one; a dial happens exactly when neither table holds a live
/// session for the peer.
pub fn lookup_decision(
    outgoing: &Vec<SessionInfo>,
    incoming: &Vec<SessionInfo>,
    peer_id: &String,
) -> (r: PoolDecision)
    ensures
        (r matches PoolDecision::UseOutgoing(i) ==> i < outgoing@.len() && session_views(
            outgoing@,
        )[i as int] == (peer_id@, true)),
        (r matches PoolDecision::UseIncoming(i) ==> i < incoming@.len() && session_views(
            incoming@,
        )[i as int] == (peer_id@, true) && !has_live(session_views(outgoing@), peer_id@)),
        (r is Dial <==> !has_live(session_views(outgoing@), peer_id@) && !has_live(
            session_views(incoming@),
            peer_id@,
        )),
{
    match find_live(outgoing, peer_id) {
        Some(i) => {
            proof {
                assert(has_live(session_views(outgoing@), peer_id@));
            }
            PoolDecision::UseOutgoing(i)
        },
        None => {
            match find_live(incoming, peer_id) {
                Some(i) => {
                    proof {
                        assert(has_live(session_views(incoming@), peer_id@));
                    }
                    PoolDecision::UseIncoming(i)
                },
                None => PoolDecision::Dial,
            }
        },
    }
}

/// The ids with a live session, outgoing tables first, without duplicates.
pub fn current_peers(outgoing: &Vec<SessionInfo>, incoming: &Vec<SessionInfo>) -> (r: Vec<String>)
    ensures
        forall|k: int|
            0 <= k < r@.len() ==> has_live(session_views(outgoing@), #[trigger] str_views(r@)[k])
                || has_live(session_views(incoming@), str_views(r@)[k]),
        forall|id: Seq<char>|
            #![trigger has_live(session_views(outgoing@), id)]
            #![trigger has_live(session_views(incoming@), id)]
            (has_live(session_views(outgoing@), id) || has_live(session_views(incoming@), id))
                ==> str_views(r@).contains(id),
        forall|k1: int, k2: int|
            #![trigger str_views(r@)[k1], str_views(r@)[k2]]
            0 <= k1 < k2 < r@.len() ==> str_views(r@)[k1] != str_views(r@)[k2],
{
    let mut r: Vec<String> = Vec::new();
    let mut i: usize = 0;
    while i < outgoing.len()
        invariant
            i <= outgoing@.len(),
            forall|k: int|
                0 <= k < r@.len() ==> has_live(
                    session_views(outgoing@),
                    #[trigger] str_views(r@)[k],
                ),
            forall|j: int|
                0 <= j < i && (#[trigger] session_views(outgoing@)[j]).1 ==> str_views(
                    r@,
                ).contains(session_views(outgoing@)[j].0),
            forall|k1: int, k2: int|
                #![trigger str_views(r@)[k1], str_views(r@)[k2]]
                0 <= k1 < k2 < r@.len() ==> str_views(r@)[k1] != str_views(r@)[k2],
        decreases outgoing@.len() - i,
    {
        if outgoing[i].alive && !contains_string(&r, &outgoing[i].peer_id) {
            let ghost pre = str_views(r@);
            r.push(outgoing[i].peer_id.clone());
            proof {
                assert(str_views(r@) =~= pre.push(outgoing@[i as int].peer_id@));
                assert(session_views(outgoing@)[i as int] == (
                    outgoing@[i as int].peer_id@,
                    true,
                ));
                assert forall|j: int|
                    0 <= j < i + 1 && (#[trigger] session_views(outgoing@)[j]).1 implies str_views(
                    r@,
                ).contains(session_views(outgoing@)[j].0) by {
                    if j < i {
                        if pre.contains(session_views(outgoing@)[j].0) {
                            let w = choose|k: int|
                                0 <= k < pre.len() && pre[k] == session_views(outgoing@)[j].0;
                            assert(str_views(r@)[w] == session_views(outgoing@)[j].0);
                        }
                    } else {
                        assert(str_views(r@)[pre.len() as int] == session_views(outgoing@)[j].0);
                    }
                }
            }
        }
        i = i + 1;
    }
    let mut i: usize = 0;
    while i < incoming.len()
        invariant
            i <= incoming@.len(),
            forall|k: int|
                0 <= k < r@.len() ==> has_live(session_views(outgoing@), #[trigger] str_views(
                    r@,
                )[k]) || has_live(session_views(incoming@), str_views(r@)[k]),
            forall|j: int|
                0 <= j < incoming@.len() && j < i && (#[trigger] session_views(incoming@)[j]).1
                    ==> str_views(r@).contains(session_views(incoming@)[j].0),
            forall|j: int|
                0 <= j < outgoing@.len() && (#[trigger] session_views(outgoing@)[j]).1
                    ==> str_views(r@).contains(session_views(outgoing@)[j].0),
            forall|k1: int, k2: int|
                #![trigger str_views(r@)[k1], str_views(r@)[k2]]
                0 <= k1 < k2 < r@.len() ==> str_views(r@)[k1] != str_views(r@)[k2],
        decreases incoming@.len() - i,
    {
        if incoming[i].alive && !contains_string(&r, &incoming[i].peer_id) {
            let ghost pre = str_views(r@);
            r.push(incoming[i].peer_id.clone());
            proof {
                assert(str_views(r@) =~= pre.push(incoming@[i as int].peer_id@));
                assert(session_views(incoming@)[i as int] == (
                    incoming@[i as int].peer_id@,
                    true,
                ));
                assert forall|j: int|
                    0 <= j < incoming@.len() && j < i + 1 && (
                #[trigger] session_views(incoming@)[j]).1 implies str_views(r@).contains(
                    session_views(incoming@)[j].0,
                ) by {
                    if j < i {
                        if pre.contains(session_views(incoming@)[j].0) {
                            let w = choose|k: int|
                                0 <= k < pre.len() && pre[k] == session_views(incoming@)[j].0;
                            assert(str_views(r@)[w] == session_views(incoming@)[j].0);
                        }
                    } else {
                        assert(str_views(r@)[pre.len() as int] == session_views(incoming@)[j].0);
                    }
                }
                assert forall|j: int|
                    0 <= j < outgoing@.len() && (#[trigger] session_views(outgoing@)[j]).1 implies
                    str_views(r@).contains(session_views(outgoing@)[j].0) by {
                    if pre.contains(session_views(outgoing@)[j].0) {
                        let w = choose|k: int|
                            0 <= k < pre.len() && pre[k] == session_views(outgoing@)[j].0;
                        assert(str_views(r@)[w] == session_views(outgoing@)[j].0);
                    }
                }
            }
        }
        i = i + 1;
    }
    proof {
        assert forall|id: Seq<char>|
            #![trigger has_live(session_views(outgoing@), id)]
            #![trigger has_live(session_views(incoming@), id)]
            (has_live(session_views(outgoing@), id) || has_live(
                session_views(incoming@),
                id,
            )) implies str_views(r@).contains(id) by {
            if has_live(session_views(outgoing@), id) {
                let w = choose|j: int|
                    0 <= j < session_views(outgoing@).len() && (
                    #[trigger] session_views(outgoing@)[j]).0 == id && session_views(
                        outgoing@,
                    )[j].1;
                assert(session_views(outgoing@)[w].1);
            } else {
                let w = choose|j: int|
                    0 <= j < session_views(incoming@).len() && (
                    #[trigger] session_views(incoming@)[j]).0 == id && session_views(
                        incoming@,
                    )[j].1;
                assert(session_views(incoming@)[w].1);
            }
        }
    }
    r
}

} // verus!
