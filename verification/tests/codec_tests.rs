//! The wire codec: round trips for every envelope variant, exact bytes for
//! a known value, and rejection of malformed input.

use p2p_chat::codec::{
    BatchMessageRequest, BatchMessageResponse, ChatMessage, ComparePayload, CompareRequest,
    CompareResponse, FileDownloadRequest, FileDownloadResponse, FileWantRequest, FileWantResponse,
    MessageAccept, MessagePayload, PeerRecord, WireMessages, decode_payload, encode_payload,
};
use p2p_chat::models::{DbMessage, MessageBuilder};

fn sample_message() -> DbMessage {
    DbMessage {
        counter: 3,
        id: "msg-0001".to_string(),
        order: 7,
        timestamp: -12345,
        payload: vec![0, 1, 2, 254, 255],
        peer_id: "abcd".to_string(),
    }
}

fn sample_peer() -> PeerRecord {
    PeerRecord {
        id: "abcd".to_string(),
        name: "Alice".to_string(),
        pub_key: "00ff".to_string(),
    }
}

fn assert_round_trip(m: ChatMessage) -> ChatMessage {
    let encoded = m.encode();
    ChatMessage::decode(&encoded).expect("an encoded envelope must decode")
}

#[test]
fn round_trip_compare_request() {
    let m = ChatMessage::CompareRequest(CompareRequest {
        compare_payload: vec![
            ComparePayload { peer_id: "p1".to_string(), counter: 4 },
            ComparePayload { peer_id: "p2".to_string(), counter: 0 },
        ],
    });
    match assert_round_trip(m) {
        ChatMessage::CompareRequest(cr) => {
            assert_eq!(cr.compare_payload.len(), 2);
            assert_eq!(cr.compare_payload[0].peer_id, "p1");
            assert_eq!(cr.compare_payload[0].counter, 4);
            assert_eq!(cr.compare_payload[1].peer_id, "p2");
            assert_eq!(cr.compare_payload[1].counter, 0);
        },
        _ => panic!("wrong variant"),
    }
}

#[test]
fn round_trip_compare_response() {
    let m = ChatMessage::CompareResponse(CompareResponse {
        peer_ids: vec!["a".to_string(), "".to_string(), "c".to_string()],
    });
    match assert_round_trip(m) {
        ChatMessage::CompareResponse(cr) => {
            assert_eq!(cr.peer_ids, vec!["a", "", "c"]);
        },
        _ => panic!("wrong variant"),
    }
}

#[test]
fn round_trip_batch_request() {
    let m = ChatMessage::BatchMessageRequest(BatchMessageRequest {
        peer_id: "peer".to_string(),
        my_counter: 9,
    });
    match assert_round_trip(m) {
        ChatMessage::BatchMessageRequest(br) => {
            assert_eq!(br.peer_id, "peer");
            assert_eq!(br.my_counter, 9);
        },
        _ => panic!("wrong variant"),
    }
}

#[test]
fn round_trip_batch_response_with_identity() {
    let m = ChatMessage::BatchMessageResponse(BatchMessageResponse {
        messages: vec![sample_message()],
        peer: Some(sample_peer()),
    });
    match assert_round_trip(m) {
        ChatMessage::BatchMessageResponse(br) => {
            assert_eq!(br.messages.len(), 1);
            assert_eq!(br.messages[0].id, "msg-0001");
            assert_eq!(br.messages[0].timestamp, -12345);
            assert_eq!(br.messages[0].payload, vec![0, 1, 2, 254, 255]);
            let peer = br.peer.expect("identity must survive the round trip");
            assert_eq!(peer.name, "Alice");
            assert_eq!(peer.pub_key, "00ff");
        },
        _ => panic!("wrong variant"),
    }
}

#[test]
fn round_trip_batch_response_without_identity() {
    let m = ChatMessage::BatchMessageResponse(BatchMessageResponse {
        messages: vec![],
        peer: None,
    });
    match assert_round_trip(m) {
        ChatMessage::BatchMessageResponse(br) => {
            assert!(br.messages.is_empty());
            assert!(br.peer.is_none());
        },
        _ => panic!("wrong variant"),
    }
}

#[test]
fn round_trip_messages_push() {
    let m = ChatMessage::Messages(WireMessages {
        peer_id: "abcd".to_string(),
        peer: Some(sample_peer()),
        messages: vec![sample_message(), sample_message()],
    });
    match assert_round_trip(m) {
        ChatMessage::Messages(ms) => {
            assert_eq!(ms.peer_id, "abcd");
            assert!(ms.peer.is_some());
            assert_eq!(ms.messages.len(), 2);
        },
        _ => panic!("wrong variant"),
    }
}

#[test]
fn round_trip_remaining_variants() {
    let cases = vec![
        ChatMessage::MessageAccept(MessageAccept { counter: 0 }),
        ChatMessage::MessageAccept(MessageAccept { counter: u64::MAX }),
        ChatMessage::FileWantRequest(FileWantRequest { file_id: vec!["f1".to_string()] }),
        ChatMessage::FileWantResponse(FileWantResponse { file_id: vec![] }),
        ChatMessage::FileDownloadRequest(FileDownloadRequest {
            file_id: "f".to_string(),
            peer_id: "p".to_string(),
        }),
        ChatMessage::FileDownloadResponse(FileDownloadResponse {
            ext: "txt".to_string(),
            chunk: vec![9, 8, 7],
            last_chunk: false,
        }),
        ChatMessage::FileDownloadResponse(FileDownloadResponse {
            ext: "".to_string(),
            chunk: vec![],
            last_chunk: true,
        }),
    ];
    for m in cases {
        let encoded = m.encode();
        let back = ChatMessage::decode(&encoded).expect("round trip");
        assert_eq!(encoded, back.encode());
    }
}

#[test]
fn exact_bytes_of_message_accept() {
    // Envelope field 6 (key byte 50), then the accept body: field 1 varint.
    let m = ChatMessage::MessageAccept(MessageAccept { counter: 300 });
    let encoded = m.encode();
    assert_eq!(encoded, vec![50, 3, 8, 0xAC, 0x02]);
}

#[test]
fn decode_rejects_garbage() {
    assert!(ChatMessage::decode(&vec![]).is_none());
    assert!(ChatMessage::decode(&vec![0x99, 1, 0]).is_none());
    assert!(ChatMessage::decode(&vec![50, 4, 8, 0xAC]).is_none());
    // A valid envelope with a trailing byte is refused: one request per frame.
    let mut ok = ChatMessage::MessageAccept(MessageAccept { counter: 1 }).encode();
    ok.push(0);
    assert!(ChatMessage::decode(&ok).is_none());
}

#[test]
fn payload_round_trip_and_builder() {
    let payload = MessagePayload {
        text: "hello there".to_string(),
        file_id: "file-9".to_string(),
        reply_id: "".to_string(),
        mentions: vec!["alice".to_string(), "bob".to_string()],
    };
    let bytes = encode_payload(&payload);
    let back = decode_payload(&bytes).expect("payload round trip");
    assert_eq!(back.text, "hello there");
    assert_eq!(back.file_id, "file-9");
    assert_eq!(back.reply_id, "");
    assert_eq!(back.mentions, vec!["alice", "bob"]);

    let built = MessageBuilder::new("id-1".to_string(), 77, "peer-a".to_string())
        .text("hi".to_string())
        .build();
    assert_eq!(built.counter, 0);
    assert_eq!(built.order, 0);
    assert_eq!(built.timestamp, 77);
    assert_eq!(built.peer_id, "peer-a");
    let body = decode_payload(&built.payload).expect("built payload decodes");
    assert_eq!(body.text, "hi");
    assert_eq!(body.file_id, "");
    assert!(body.mentions.is_empty());
}

#[test]
fn round_trip_witness_function() {
    let m = ChatMessage::Messages(WireMessages {
        peer_id: "p".to_string(),
        peer: None,
        messages: vec![sample_message()],
    });
    let back = m.encode_decode_round_trip();
    assert_eq!(m.encode(), back.encode());
}

#[test]
fn non_ascii_text_survives() {
    let payload = MessagePayload {
        text: "héllo → ✓".to_string(),
        file_id: "".to_string(),
        reply_id: "réponse".to_string(),
        mentions: vec!["ö".to_string()],
    };
    let bytes = encode_payload(&payload);
    let back = decode_payload(&bytes).expect("payload round trip");
    assert_eq!(back.text, "héllo → ✓");
    assert_eq!(back.reply_id, "réponse");
    assert_eq!(back.mentions, vec!["ö"]);
}
