//! The log store and the repository manager: dense counters, strict order
//! assignment, idempotent batch application, and rejection of gapped
//! batches.

use p2p_chat::models::DbMessage;
use p2p_chat::repository::{LogError, Repository};
use p2p_chat::repository_manager::RepositoryManager;

fn entry(peer: &str, counter: u64, text_id: &str) -> DbMessage {
    DbMessage {
        counter,
        id: text_id.to_string(),
        order: 0,
        timestamp: 1000,
        payload: vec![1, 2, 3],
        peer_id: peer.to_string(),
    }
}

#[test]
fn append_own_assigns_dense_counters() {
    let mut repo = Repository::new("alice".to_string());
    for i in 0..5u64 {
        let stored = repo
            .save_message(&entry("alice", 0, &format!("m{}", i)))
            .unwrap();
        assert_eq!(stored.counter, i + 1);
    }
    assert_eq!(repo.get_counter(), 5);
    let all = repo.get_messages(0);
    assert_eq!(all.len(), 5);
    for (i, m) in all.iter().enumerate() {
        assert_eq!(m.counter, i as u64 + 1);
    }
}

#[test]
fn append_own_rejects_wrong_counter() {
    let mut repo = Repository::new("alice".to_string());
    repo.save_message(&entry("alice", 0, "m1")).unwrap();
    let r = repo.save_message(&entry("alice", 5, "m2"));
    assert_eq!(r.unwrap_err(), LogError::InvalidCounter);
    assert_eq!(repo.get_counter(), 1);
}

#[test]
fn append_own_rejects_wrong_peer() {
    let mut repo = Repository::new("alice".to_string());
    let r = repo.save_message(&entry("bob", 0, "m1"));
    assert_eq!(r.unwrap_err(), LogError::PeerIdMismatch);
}

#[test]
fn batch_append_is_idempotent() {
    let mut repo = Repository::new("alice".to_string());
    let batch = vec![entry("alice", 1, "m1"), entry("alice", 2, "m2")];
    assert_eq!(repo.insert_message_batch(&batch, 0).unwrap(), 2);
    assert_eq!(repo.get_counter(), 2);
    let before: Vec<(u64, String)> = repo
        .get_messages(0)
        .iter()
        .map(|m| (m.counter, m.id.clone()))
        .collect();
    // Re-applying the very same batch appends nothing and changes nothing.
    assert_eq!(repo.insert_message_batch(&batch, 7).unwrap(), 0);
    assert_eq!(repo.get_counter(), 2);
    let after: Vec<(u64, String)> = repo
        .get_messages(0)
        .iter()
        .map(|m| (m.counter, m.id.clone()))
        .collect();
    assert_eq!(before, after);
}

#[test]
fn batch_append_rejects_gap() {
    let mut repo = Repository::new("alice".to_string());
    repo.insert_message_batch(&vec![entry("alice", 1, "m1")], 0)
        .unwrap();
    // Counters {3, 4} on top of committed counter 1 leave a gap.
    let bad = vec![entry("alice", 3, "m3"), entry("alice", 4, "m4")];
    assert_eq!(
        repo.insert_message_batch(&bad, 10).unwrap_err(),
        LogError::InvalidCounter
    );
    assert_eq!(repo.get_counter(), 1);
}

#[test]
fn batch_append_skips_already_committed_prefix() {
    let mut repo = Repository::new("alice".to_string());
    repo.insert_message_batch(&vec![entry("alice", 1, "m1"), entry("alice", 2, "m2")], 0)
        .unwrap();
    let overlap = vec![
        entry("alice", 1, "m1"),
        entry("alice", 2, "m2"),
        entry("alice", 3, "m3"),
    ];
    assert_eq!(repo.insert_message_batch(&overlap, 2).unwrap(), 1);
    assert_eq!(repo.get_counter(), 3);
}

#[test]
fn manager_assigns_strictly_increasing_orders() {
    let mut mgr = RepositoryManager::new(0);
    let a = mgr.add_own_message(entry("alice", 0, "a1")).unwrap();
    let b = mgr.add_own_message(entry("alice", 0, "a2")).unwrap();
    let c = mgr.add_own_message(entry("bob", 0, "b1")).unwrap();
    assert_eq!(a.order, 1);
    assert_eq!(b.order, 2);
    assert_eq!(c.order, 3);
    assert_eq!(a.counter, 1);
    assert_eq!(b.counter, 2);
    assert_eq!(c.counter, 1);
}

#[test]
fn manager_orders_distinct_across_batches() {
    let mut mgr = RepositoryManager::new(100);
    mgr.add_own_message(entry("alice", 0, "a1")).unwrap();
    let batch = vec![entry("bob", 1, "b1"), entry("bob", 2, "b2")];
    let appended = mgr
        .append_remote_batch(&"bob".to_string(), &batch)
        .unwrap();
    assert_eq!(appended, 2);
    let own = mgr.messages_after(&"alice".to_string(), 0);
    let remote = mgr.messages_after(&"bob".to_string(), 0);
    let mut orders: Vec<u64> = own.iter().chain(remote.iter()).map(|m| m.order).collect();
    let count = orders.len();
    orders.sort();
    orders.dedup();
    assert_eq!(orders.len(), count);
    // Orders grow in assignment order, starting past the restored counter.
    assert_eq!(own[0].order, 101);
    assert_eq!(remote[0].order, 102);
    assert_eq!(remote[1].order, 103);
}

#[test]
fn manager_update_counter_raises_floor() {
    let mut mgr = RepositoryManager::new(0);
    let mut m = entry("alice", 0, "seen");
    m.order = 41;
    mgr.update_counter(&m);
    let stored = mgr.add_own_message(entry("alice", 0, "a1")).unwrap();
    assert_eq!(stored.order, 42);
}

#[test]
fn manager_counter_of_unknown_peer_is_zero() {
    let mgr = RepositoryManager::new(0);
    assert_eq!(mgr.counter_of(&"nobody".to_string()), 0);
    assert!(mgr.messages_after(&"nobody".to_string(), 0).is_empty());
}
