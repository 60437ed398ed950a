//! The index rows, the order key, the peer store and the error constructors.

use p2p_chat::file_catalog::{FileCatalog, FileDescription};
use p2p_chat::indexer::{format_order_id, process_message, IndexStore};
use p2p_chat::models::MessageBuilder;
use p2p_chat::peers::{Peer, PeerStore};
use p2p_chat::ChatError;

#[test]
fn order_key_pads_and_sorts() {
    assert_eq!(format_order_id(1, &"peer".to_string()), "00000001-peer");
    assert_eq!(format_order_id(12345678, &"p".to_string()), "12345678-p");
    assert_eq!(format_order_id(1234567890, &"p".to_string()), "1234567890-p");
    assert_eq!(format_order_id(0, &"".to_string()), "00000000-");
    let a = format_order_id(9, &"x".to_string());
    let b = format_order_id(10, &"x".to_string());
    assert!(a < b);
}

#[test]
fn process_message_decodes_fields() {
    let mut catalog = FileCatalog::new();
    assert!(catalog.save(FileDescription {
        id: "F".to_string(),
        format: "png".to_string(),
        local_path: "img/F.png".to_string(),
        timestamp: 0,
    }));
    let mut msg = MessageBuilder::new("m1".to_string(), 9, "peer".to_string())
        .text("caption".to_string())
        .file_id("F".to_string())
        .build();
    msg.order = 3;
    let row = process_message(&msg, &catalog).expect("payload decodes");
    assert_eq!(row.id, "m1");
    assert_eq!(row.order_id, "00000003-peer");
    assert_eq!(row.text, "caption");
    assert_eq!(row.file_id.as_deref(), Some("F"));
    assert_eq!(row.file_path.as_deref(), Some("img/F.png"));
    assert!(row.reply.is_none());
    // A malformed payload is refused.
    msg.payload = vec![0xff, 0xff];
    assert!(process_message(&msg, &catalog).is_none());
}

#[test]
fn index_store_updates_file_paths() {
    let catalog = FileCatalog::new();
    let mut store = IndexStore::new();
    let with_file = MessageBuilder::new("m1".to_string(), 0, "p".to_string())
        .file_id("F".to_string())
        .build();
    let plain = MessageBuilder::new("m2".to_string(), 0, "p".to_string())
        .text("t".to_string())
        .build();
    store.save(process_message(&with_file, &catalog).unwrap());
    store.save(process_message(&plain, &catalog).unwrap());
    let updated = store.update_file_id(&"F".to_string(), &"here/F".to_string());
    assert_eq!(updated.len(), 1);
    assert_eq!(updated[0].id, "m1");
    assert_eq!(updated[0].file_path.as_deref(), Some("here/F"));
    let rows = store.get_all();
    assert_eq!(rows.len(), 2);
    assert_eq!(rows[0].file_path.as_deref(), Some("here/F"));
    assert!(rows[1].file_path.is_none());
}

#[test]
fn update_file_id_returns_every_updated_row() {
    let catalog = FileCatalog::new();
    let mut store = IndexStore::new();
    for i in 0..3 {
        let msg = MessageBuilder::new(format!("m{}", i), 0, "p".to_string())
            .file_id("F".to_string())
            .build();
        store.save(process_message(&msg, &catalog).unwrap());
    }
    let plain = MessageBuilder::new("mx".to_string(), 0, "p".to_string())
        .text("t".to_string())
        .build();
    store.save(process_message(&plain, &catalog).unwrap());
    let updated = store.update_file_id(&"F".to_string(), &"here/F".to_string());
    let ids: Vec<String> = updated.iter().map(|r| r.id.clone()).collect();
    assert_eq!(ids, vec!["m0", "m1", "m2"]);
    assert!(updated.iter().all(|r| r.file_path.as_deref() == Some("here/F")));
}

#[test]
fn file_catalog_rejects_duplicate_ids() {
    let mut catalog = FileCatalog::new();
    let d = FileDescription {
        id: "F".to_string(),
        format: "txt".to_string(),
        local_path: "a".to_string(),
        timestamp: 0,
    };
    assert!(catalog.save(d.duplicate()));
    assert!(!catalog.save(d));
    assert!(catalog.contains(&"F".to_string()));
    assert!(!catalog.contains(&"G".to_string()));
    assert_eq!(catalog.all_file_ids(), vec!["F"]);
    assert_eq!(catalog.get_by_id(&"F".to_string()).unwrap().local_path, "a");
}

#[test]
fn peer_store_replaces_on_save() {
    let mut store = PeerStore::new();
    let local = store.create_local_peer(Some("Me".to_string()), 7);
    assert_eq!(local.id, store.get_local_peer().unwrap().id);
    assert_eq!(local.get_name(), "Me");
    // A received identity record with a bad key is refused.
    assert!(Peer::new("x".to_string(), "X".to_string(), "zz".to_string(), 0).is_err());
    assert!(Peer::new("x".to_string(), "X".to_string(), "0011".to_string(), 0).is_err());
    // A valid identity is stored and replaced under its id.
    let other = store.create_local_peer(None, 8);
    let renamed = Peer::new(
        other.id.clone(),
        "NewName".to_string(),
        p2p_chat::crypto::hex_encode(&other.public_key),
        9,
    )
    .unwrap();
    store.save_peer(renamed);
    let read = store.get_peer_by_id(&other.id).unwrap();
    assert_eq!(read.get_name(), "NewName");
    assert_eq!(read.public_key, other.public_key);
    assert_eq!(store.get_all_peers().len(), 2);
}

#[test]
fn chat_error_constructors_carry_reasons() {
    let e = ChatError::create_new_error("bind failed".to_string());
    assert!(matches!(e, ChatError::FailedToCreateNew(ref m) if m == "bind failed"));
    let e = ChatError::failed_to_download("gone".to_string());
    assert!(matches!(e, ChatError::FailedToDownload(ref m) if m == "gone"));
}
