//! The sync engine's decisions, end to end across two in-process nodes:
//! delivery, catch-up, identity bootstrap, invalid-counter rejection, file
//! resolution and dead-peer retry.

use p2p_chat::codec::{
    decode_payload, BatchMessageRequest, ChatMessage, ComparePayload, CompareRequest,
    FileDownloadRequest, FileWantRequest, WireMessages,
};
use p2p_chat::file_catalog::{FileCatalog, FileDescription};
use p2p_chat::indexer::{process_message, IndexStore};
use p2p_chat::models::{DbMessage, MessageBuilder};
use p2p_chat::peers::PeerStore;
use p2p_chat::pool::{current_peers, lookup_decision, PoolDecision, SessionInfo};
use p2p_chat::repository_manager::{RepoState, RepositoryManager};
use p2p_chat::resolver::{FileResolverStorage, ResolveAction, ResolveWant};
use p2p_chat::sync_engine::{
    apply_batch_response, broadcast_targets, chunk_file, collect_download, compare_state_response,
    handle_request, intersect_requested, plan_batch_requests, should_attach_identity,
    InboundAction,
};

struct Node {
    id: String,
    manager: RepositoryManager,
    catalog: FileCatalog,
    peers: PeerStore,
    index: IndexStore,
}

impl Node {
    fn new(id: &str) -> Node {
        Node {
            id: id.to_string(),
            manager: RepositoryManager::new(0),
            catalog: FileCatalog::new(),
            peers: PeerStore::new(),
            index: IndexStore::new(),
        }
    }

    fn send_text(&mut self, text: &str, id: &str) -> DbMessage {
        let msg = MessageBuilder::new(id.to_string(), 1000, self.id.clone())
            .text(text.to_string())
            .build();
        let stored = self.manager.add_own_message(msg).unwrap();
        let row = process_message(&stored, &self.catalog).unwrap();
        self.index.save(row);
        stored
    }

    fn states(&self) -> Vec<RepoState> {
        self.manager.get_repo_states()
    }
}

/// One replication sweep of `from` against `to`, over the real wire codec.
fn sweep(from: &mut Node, to: &mut Node) {
    let states = from.states();
    let payload: Vec<ComparePayload> = states
        .iter()
        .map(|s| ComparePayload { peer_id: s.peer_id.clone(), counter: s.counter })
        .collect();
    let req = ChatMessage::CompareRequest(CompareRequest { compare_payload: payload });
    let req = ChatMessage::decode(&req.encode()).unwrap();
    let reply = match handle_request(&mut to.manager, &to.catalog, &mut to.peers, &req, 1000) {
        InboundAction::Reply(r) => ChatMessage::decode(&r.encode()).unwrap(),
        _ => panic!("compare must be answered"),
    };
    let behind = match reply {
        ChatMessage::CompareResponse(cr) => cr.peer_ids,
        _ => panic!("wrong reply variant"),
    };
    let plans = plan_batch_requests(&states, &behind, &to.id);
    for plan in plans {
        let req = ChatMessage::BatchMessageRequest(BatchMessageRequest {
            peer_id: plan.repo_id.clone(),
            my_counter: plan.counter,
        });
        let req = ChatMessage::decode(&req.encode()).unwrap();
        let reply = match handle_request(&mut to.manager, &to.catalog, &mut to.peers, &req, 1000)
        {
            InboundAction::Reply(r) => ChatMessage::decode(&r.encode()).unwrap(),
            _ => panic!("batch request must be answered"),
        };
        let resp = match reply {
            ChatMessage::BatchMessageResponse(b) => b,
            _ => panic!("wrong reply variant"),
        };
        apply_batch_response(&mut from.manager, &mut from.peers, &plan.repo_id, &resp, 1000)
            .unwrap();
        let fetched = from.manager.messages_after(&plan.repo_id, plan.counter);
        for m in fetched {
            let row = process_message(&m, &from.catalog).unwrap();
            from.index.save(row);
        }
    }
}

#[test]
fn single_message_delivery() {
    let mut a = Node::new("aa11");
    let mut b = Node::new("bb22");
    let stored = a.send_text("hello", "m1");
    assert_eq!(stored.counter, 1);
    assert_eq!(stored.order, 1);
    // B sweeps against A and pulls the new log.
    sweep(&mut b, &mut a);
    let rows = b.index.get_all();
    assert_eq!(rows.len(), 1);
    assert_eq!(rows[0].peer_id, "aa11");
    assert_eq!(rows[0].text, "hello");
    assert_eq!(b.manager.counter_of(&"aa11".to_string()), 1);
}

#[test]
fn catch_up_on_reconnect() {
    let mut a = Node::new("aa11");
    let mut b = Node::new("bb22");
    for i in 1..=5u64 {
        a.send_text(&format!("t{}", i), &format!("m{}", i));
    }
    sweep(&mut b, &mut a);
    let entries = b.manager.messages_after(&"aa11".to_string(), 0);
    assert_eq!(entries.len(), 5);
    for (i, m) in entries.iter().enumerate() {
        assert_eq!(m.counter, i as u64 + 1);
        let body = decode_payload(&m.payload).unwrap();
        assert_eq!(body.text, format!("t{}", i + 1));
    }
}

#[test]
fn identity_bootstrap_on_first_pull() {
    let mut a = Node::new("aa11");
    let mut b = Node::new("bb22");
    // A knows its own identity record.
    let local = a.peers.create_local_peer(Some("Alice".to_string()), 5);
    assert_eq!(a.peers.get_local_peer().unwrap().id, local.id);
    // Rebuild A under the generated id so the log matches the identity.
    let mut a = Node::new(&local.id.clone());
    a.peers.save_peer(local.duplicate());
    a.send_text("hi", "m1");
    assert!(b.peers.get_peer_by_id(&local.id).is_none());
    sweep(&mut b, &mut a);
    // B pulled from counter 0, so the identity record came along.
    let known = b.peers.get_peer_by_id(&local.id).expect("identity stored");
    assert_eq!(known.public_key, local.public_key);
    assert!(b
        .peers
        .get_all_peers()
        .iter()
        .any(|p| p.id == local.id));
}

#[test]
fn invalid_counter_batch_is_rejected_with_ground_truth() {
    let mut b = Node::new("bb22");
    // B already holds counter 1 of A.
    let m1 = DbMessage {
        counter: 1,
        id: "m1".to_string(),
        order: 0,
        timestamp: 0,
        payload: MessageBuilder::new("x".to_string(), 0, "aa11".to_string()).build().payload,
        peer_id: "aa11".to_string(),
    };
    b.manager
        .append_remote_batch(&"aa11".to_string(), &vec![m1])
        .unwrap();
    // An adversary pushes counters {3, 4}.
    let bad = ChatMessage::Messages(WireMessages {
        peer_id: "aa11".to_string(),
        peer: None,
        messages: vec![
            DbMessage {
                counter: 3,
                id: "m3".to_string(),
                order: 0,
                timestamp: 0,
                payload: vec![],
                peer_id: "aa11".to_string(),
            },
            DbMessage {
                counter: 4,
                id: "m4".to_string(),
                order: 0,
                timestamp: 0,
                payload: vec![],
                peer_id: "aa11".to_string(),
            },
        ],
    });
    let reply = match handle_request(&mut b.manager, &b.catalog, &mut b.peers, &bad, 0) {
        InboundAction::Reply(r) => r,
        _ => panic!("a push is always acknowledged"),
    };
    match reply {
        ChatMessage::MessageAccept(acc) => assert_eq!(acc.counter, 1),
        _ => panic!("wrong reply variant"),
    }
    assert_eq!(b.manager.counter_of(&"aa11".to_string()), 1);
}

#[test]
fn two_nodes_converge_after_mutual_sweeps() {
    let mut a = Node::new("aa11");
    let mut b = Node::new("bb22");
    for i in 1..=3u64 {
        a.send_text(&format!("a{}", i), &format!("am{}", i));
    }
    for i in 1..=2u64 {
        b.send_text(&format!("b{}", i), &format!("bm{}", i));
    }
    sweep(&mut a, &mut b);
    sweep(&mut b, &mut a);
    // Both hold both logs, entry for entry (orders are node-local).
    for peer in ["aa11", "bb22"] {
        let from_a = a.manager.messages_after(&peer.to_string(), 0);
        let from_b = b.manager.messages_after(&peer.to_string(), 0);
        assert_eq!(from_a.len(), from_b.len());
        for (x, y) in from_a.iter().zip(from_b.iter()) {
            assert_eq!(x.counter, y.counter);
            assert_eq!(x.id, y.id);
            assert_eq!(x.payload, y.payload);
            assert_eq!(x.peer_id, y.peer_id);
        }
    }
    // A second pass in either direction changes nothing.
    let before = b.manager.counter_of(&"aa11".to_string());
    sweep(&mut b, &mut a);
    assert_eq!(b.manager.counter_of(&"aa11".to_string()), before);
}

#[test]
fn compare_response_names_missing_and_stale_logs() {
    let mine = vec![
        RepoState { peer_id: "p1".to_string(), counter: 5 },
        RepoState { peer_id: "p2".to_string(), counter: 2 },
        RepoState { peer_id: "p3".to_string(), counter: 1 },
    ];
    let theirs = vec![
        ComparePayload { peer_id: "p1".to_string(), counter: 3 },
        ComparePayload { peer_id: "p2".to_string(), counter: 2 },
    ];
    // Caller is behind on p1, level on p2, and has never heard of p3.
    let r = compare_state_response(&mine, &theirs);
    assert_eq!(r, vec!["p1", "p3"]);
}

#[test]
fn batch_plans_cover_known_and_unknown_logs() {
    let states = vec![
        RepoState { peer_id: "p1".to_string(), counter: 5 },
        RepoState { peer_id: "p2".to_string(), counter: 2 },
    ];
    let resp = vec!["p1".to_string(), "p9".to_string()];
    let plans = plan_batch_requests(&states, &resp, &"remote".to_string());
    assert_eq!(plans.len(), 2);
    assert_eq!(plans[0].repo_id, "p1");
    assert_eq!(plans[0].counter, 5);
    assert_eq!(plans[1].repo_id, "p9");
    assert_eq!(plans[1].counter, 0);
    assert!(plans.iter().all(|p| p.peer_id == "remote"));
}

#[test]
fn file_want_intersection() {
    let requested = vec!["f1".to_string(), "f2".to_string(), "f3".to_string()];
    let local = vec!["f3".to_string(), "f1".to_string()];
    assert_eq!(intersect_requested(&requested, &local), vec!["f1", "f3"]);
    let nothing: Vec<String> = vec![];
    assert_eq!(intersect_requested(&requested, &nothing), Vec::<String>::new());
}

#[test]
fn broadcast_only_own_appends() {
    let peers = vec!["p1".to_string(), "p2".to_string()];
    let own = vec![DbMessage {
        counter: 1,
        id: "m".to_string(),
        order: 1,
        timestamp: 0,
        payload: vec![],
        peer_id: "me".to_string(),
    }];
    assert_eq!(broadcast_targets(&"me".to_string(), &own, &peers), vec!["p1", "p2"]);
    assert_eq!(
        broadcast_targets(&"someone".to_string(), &own, &peers),
        Vec::<String>::new()
    );
    assert!(should_attach_identity(&own));
    let later = vec![DbMessage { counter: 2, ..own[0].clone() }];
    assert!(!should_attach_identity(&later));
}

#[test]
fn file_resolution_end_to_end() {
    // A owns file F; B learns of it from a message, wants it, asks, downloads.
    let mut a = Node::new("aa11");
    let mut b = Node::new("bb22");
    assert!(a.catalog.save(FileDescription {
        id: "F".to_string(),
        format: "txt".to_string(),
        local_path: "files/F.txt".to_string(),
        timestamp: 0,
    }));
    let msg = MessageBuilder::new("m7".to_string(), 0, "aa11".to_string())
        .file_id("F".to_string())
        .build();
    a.manager.add_own_message(msg).unwrap();
    sweep(&mut b, &mut a);
    // B indexed the message without a local path.
    let rows = b.index.get_all();
    assert_eq!(rows.len(), 1);
    assert_eq!(rows[0].file_id.as_deref(), Some("F"));
    assert!(rows[0].file_path.is_none());
    // B wants F; the availability query names A.
    let mut resolver = FileResolverStorage::new();
    resolver.add_need_resolve(&"F".to_string(), None);
    let want_ids = resolver.get_need_resolve();
    let req = ChatMessage::FileWantRequest(FileWantRequest { file_id: want_ids });
    let reply = match handle_request(&mut a.manager, &a.catalog, &mut a.peers, &req, 0) {
        InboundAction::Reply(r) => r,
        _ => panic!("want must be answered"),
    };
    let offered = match reply {
        ChatMessage::FileWantResponse(f) => f.file_id,
        _ => panic!("wrong reply variant"),
    };
    assert_eq!(offered, vec!["F"]);
    resolver.add_peer_have_many(&offered, &"aa11".to_string());
    // The next resolve attempt downloads from A.
    let action = resolver.resolve_step(
        &b.catalog,
        &ResolveWant { file_id: "F".to_string(), failed_peers: vec![] },
    );
    let peers_to_try = match action {
        ResolveAction::Download(p) => p,
        _ => panic!("a download was due"),
    };
    assert_eq!(peers_to_try, vec!["aa11"]);
    // A serves the download in chunks; B gathers and catalogs it.
    let dreq = ChatMessage::FileDownloadRequest(FileDownloadRequest {
        file_id: "F".to_string(),
        peer_id: "aa11".to_string(),
    });
    let descr = match handle_request(&mut a.manager, &a.catalog, &mut a.peers, &dreq, 0) {
        InboundAction::SendFile(d) => d,
        _ => panic!("the file is catalogued"),
    };
    assert_eq!(descr.local_path, "files/F.txt");
    let content: Vec<u8> = (0..20000u32).map(|x| (x % 251) as u8).collect();
    let chunks = chunk_file(&descr.format, &content);
    assert!(chunks.len() >= 3);
    assert!(chunks[chunks.len() - 1].last_chunk);
    let (ext, bytes) = collect_download(&chunks);
    assert_eq!(ext, "txt");
    assert_eq!(bytes, content);
    assert!(b.catalog.save(FileDescription {
        id: "F".to_string(),
        format: ext,
        local_path: "store/F.txt".to_string(),
        timestamp: 1,
    }));
    // The index rows referencing F gain the local path and are re-emitted.
    let updated = b.index.update_file_id(&"F".to_string(), &"store/F.txt".to_string());
    assert_eq!(updated.len(), 1);
    assert_eq!(updated[0].file_path.as_deref(), Some("store/F.txt"));
    let rows = b.index.get_all();
    assert_eq!(rows[0].file_path.as_deref(), Some("store/F.txt"));
}

#[test]
fn dead_peer_download_retry() {
    let catalog = FileCatalog::new();
    let mut resolver = FileResolverStorage::new();
    resolver.add_need_resolve(&"F".to_string(), Some("P1".to_string()));
    resolver.add_peer_have(&"F".to_string(), &"P2".to_string());
    // First attempt: both peers are candidates.
    let action = resolver.resolve_step(
        &catalog,
        &ResolveWant { file_id: "F".to_string(), failed_peers: vec![] },
    );
    match action {
        ResolveAction::Download(p) => assert_eq!(p, vec!["P1", "P2"]),
        _ => panic!("a download was due"),
    }
    // The download against P1 failed; the retry skips it and uses P2.
    resolver.add_need_resolve(&"F".to_string(), None);
    let action = resolver.resolve_step(
        &catalog,
        &ResolveWant { file_id: "F".to_string(), failed_peers: vec!["P1".to_string()] },
    );
    match action {
        ResolveAction::Download(p) => assert_eq!(p, vec!["P2"]),
        _ => panic!("the retry was due"),
    }
    // With every advertiser failed, the resolver backs off.
    resolver.add_need_resolve(&"F".to_string(), None);
    let action = resolver.resolve_step(
        &catalog,
        &ResolveWant {
            file_id: "F".to_string(),
            failed_peers: vec!["P1".to_string(), "P2".to_string()],
        },
    );
    assert!(matches!(action, ResolveAction::Backoff));
}

#[test]
fn advertisements_are_recorded_per_mention() {
    let mut resolver = FileResolverStorage::new();
    resolver.add_peer_have_many(
        &vec!["f1".to_string(), "f2".to_string(), "f1".to_string()],
        &"p9".to_string(),
    );
    assert_eq!(resolver.get_peers_have(&"f1".to_string()), vec!["p9", "p9"]);
    assert_eq!(resolver.get_peers_have(&"f2".to_string()), vec!["p9"]);
    assert!(resolver.get_peers_have(&"f3".to_string()).is_empty());
    // A want with a peer hint records the advertisement, too.
    resolver.add_need_resolve(&"f3".to_string(), Some("p1".to_string()));
    assert_eq!(resolver.get_peers_have(&"f3".to_string()), vec!["p1"]);
}

#[test]
fn resolver_drops_failed_peers_from_state_and_skips_unwanted() {
    let catalog = FileCatalog::new();
    let mut resolver = FileResolverStorage::new();
    resolver.add_need_resolve(&"F".to_string(), Some("P1".to_string()));
    resolver.add_peer_have(&"F".to_string(), &"P2".to_string());
    // The failed peer leaves the stored advertisement list for good.
    resolver.add_need_resolve(&"F".to_string(), None);
    let action = resolver.resolve_step(
        &catalog,
        &ResolveWant { file_id: "F".to_string(), failed_peers: vec!["P1".to_string()] },
    );
    assert!(matches!(action, ResolveAction::Download(_)));
    assert_eq!(resolver.get_peers_have(&"F".to_string()), vec!["P2"]);
    // A file nobody wants any more is skipped even though peers advertise it.
    let action = resolver.resolve_step(
        &catalog,
        &ResolveWant { file_id: "F".to_string(), failed_peers: vec![] },
    );
    assert!(matches!(action, ResolveAction::Skip));
    assert_eq!(resolver.get_peers_have(&"F".to_string()), vec!["P2"]);
}

#[test]
fn attached_identity_never_overwrites_a_pinned_key() {
    let mut b = Node::new("bb22");
    let real = {
        let mut tmp = PeerStore::new();
        tmp.create_local_peer(Some("Alice".to_string()), 1)
    };
    let record = real.to_record();
    // B pins the genuine key first.
    let push = ChatMessage::Messages(WireMessages {
        peer_id: real.id.clone(),
        peer: Some(record.clone()),
        messages: vec![],
    });
    handle_request(&mut b.manager, &b.catalog, &mut b.peers, &push, 0);
    let pinned = b.peers.get_peer_by_id(&real.id).unwrap();
    assert_eq!(pinned.public_key, real.public_key);
    // A later push under the same id with a different key changes nothing.
    let other = {
        let mut tmp = PeerStore::new();
        tmp.create_local_peer(Some("Mallory".to_string()), 2)
    };
    let forged = p2p_chat::codec::PeerRecord {
        id: real.id.clone(),
        name: "Mallory".to_string(),
        pub_key: p2p_chat::crypto::hex_encode(&other.public_key),
    };
    let push = ChatMessage::Messages(WireMessages {
        peer_id: real.id.clone(),
        peer: Some(forged),
        messages: vec![],
    });
    handle_request(&mut b.manager, &b.catalog, &mut b.peers, &push, 3);
    let kept = b.peers.get_peer_by_id(&real.id).unwrap();
    assert_eq!(kept.public_key, real.public_key);
    assert_eq!(kept.get_name(), "Alice");
}

#[test]
fn resolver_skips_files_already_catalogued() {
    let mut catalog = FileCatalog::new();
    assert!(catalog.save(FileDescription {
        id: "F".to_string(),
        format: "txt".to_string(),
        local_path: "have/F.txt".to_string(),
        timestamp: 0,
    }));
    let mut resolver = FileResolverStorage::new();
    resolver.add_need_resolve(&"F".to_string(), None);
    let action = resolver.resolve_step(
        &catalog,
        &ResolveWant { file_id: "F".to_string(), failed_peers: vec![] },
    );
    match action {
        ResolveAction::AlreadyHave(path) => assert_eq!(path, "have/F.txt"),
        _ => panic!("the catalog already holds the file"),
    }
}

#[test]
fn pool_prefers_live_outgoing_then_incoming_then_dials() {
    let dead = SessionInfo { peer_id: "p".to_string(), alive: false };
    let live = SessionInfo { peer_id: "p".to_string(), alive: true };
    let other = SessionInfo { peer_id: "q".to_string(), alive: true };
    // Live outgoing wins.
    match lookup_decision(&vec![dead.clone(), live.clone()], &vec![live.clone()], &"p".to_string())
    {
        PoolDecision::UseOutgoing(i) => assert_eq!(i, 1),
        _ => panic!("outgoing session was live"),
    }
    // Only a live incoming session: use it.
    match lookup_decision(&vec![dead.clone()], &vec![live.clone()], &"p".to_string()) {
        PoolDecision::UseIncoming(i) => assert_eq!(i, 0),
        _ => panic!("incoming session was live"),
    }
    // No live session anywhere: dial, exactly once per settled lookup.
    assert!(matches!(
        lookup_decision(&vec![dead], &vec![other.clone()], &"p".to_string()),
        PoolDecision::Dial
    ));
    // current_peers lists each live peer once, outgoing first.
    let listed = current_peers(
        &vec![live.clone(), other.clone()],
        &vec![live, SessionInfo { peer_id: "r".to_string(), alive: true }],
    );
    assert_eq!(listed, vec!["p", "q", "r"]);
}

#[test]
fn handle_request_rejects_response_variants() {
    let mut n = Node::new("n");
    let req = ChatMessage::MessageAccept(p2p_chat::codec::MessageAccept { counter: 1 });
    assert!(matches!(
        handle_request(&mut n.manager, &n.catalog, &mut n.peers, &req, 0),
        InboundAction::Reject
    ));
    let dreq = ChatMessage::FileDownloadRequest(FileDownloadRequest {
        file_id: "missing".to_string(),
        peer_id: "p".to_string(),
    });
    assert!(matches!(
        handle_request(&mut n.manager, &n.catalog, &mut n.peers, &dreq, 0),
        InboundAction::Reject
    ));
}
