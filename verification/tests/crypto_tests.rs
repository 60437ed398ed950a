//! The connection layer against the real crates: handshake agreement, framed
//! encryption, tampering detection, and the discovery record.

use p2p_chat::crypto::{
    ed25519_public_key, ed25519_sign, ed25519_verify, gcm_open, gcm_seal, hex_decode, hex_encode,
    random_bytes_32,
};
use p2p_chat::discovery::{
    decode_txt_record, encode_txt_record, parse_port, verify_record, verify_record_pairs,
};
use p2p_chat::frames::{frames_round_trip, open_frames, seal_frame};
use p2p_chat::handshake::{
    acceptor_finish, acceptor_respond, dialer_finish, dialer_hello, fresh_ephemeral_secret,
    handshake_round_trip,
};
use p2p_chat::stream_protocol::{eof_frame, frame_request, parse_header, FrameHeader};

#[test]
fn hex_wrapper_encodes_exactly() {
    assert_eq!(hex_encode(&vec![0xab, 0x00, 0x7f]), "ab007f");
    assert_eq!(hex_encode(&vec![]), "");
    assert_eq!(hex_decode(&"ab007f".to_string()), Some(vec![0xab, 0x00, 0x7f]));
    assert_eq!(hex_decode(&"zz".to_string()), None);
    assert_eq!(hex_decode(&"abc".to_string()), None);
}

#[test]
fn signature_verifies_and_tampering_fails() {
    let sk = random_bytes_32();
    let pk = ed25519_public_key(&sk);
    let msg = b"the quick brown fox".to_vec();
    let sig = ed25519_sign(&sk, &msg);
    assert_eq!(sig.len(), 64);
    assert!(ed25519_verify(&pk, &msg, &sig));
    let mut other = msg.clone();
    other[0] ^= 1;
    assert!(!ed25519_verify(&pk, &other, &sig));
    let mut bad_sig = sig.clone();
    bad_sig[10] ^= 1;
    assert!(!ed25519_verify(&pk, &msg, &bad_sig));
}

#[test]
fn handshake_both_sides_agree() {
    let d_long = random_bytes_32();
    let a_long = random_bytes_32();
    let (d_side, a_side) = handshake_round_trip(&d_long, &a_long).unwrap();
    assert_eq!(d_side.symmetric_key, a_side.symmetric_key);
    assert_eq!(d_side.symmetric_key.len(), 32);
    assert_eq!(d_side.their_pub_key, ed25519_public_key(&a_long));
    assert_eq!(a_side.their_pub_key, ed25519_public_key(&d_long));
    assert_eq!(d_side.hex_key(), hex_encode(&ed25519_public_key(&a_long)));
}

#[test]
fn handshake_steps_reject_forged_reply() {
    let d_long = random_bytes_32();
    let a_long = random_bytes_32();
    let d_eph = fresh_ephemeral_secret();
    let a_eph = fresh_ephemeral_secret();
    let hello = dialer_hello(&d_eph);
    let mut reply = acceptor_respond(&hello, &a_eph, &a_long);
    reply[100] ^= 1;
    assert!(dialer_finish(&d_eph, &d_long, &reply).is_err());
    let short = vec![0u8; 100];
    assert!(dialer_finish(&d_eph, &d_long, &short).is_err());
    assert!(acceptor_finish(&a_eph, &hello, &vec![0u8; 95]).is_err());
}

#[test]
fn framed_cipher_round_trips_in_order() {
    let key = random_bytes_32();
    let writes = vec![
        b"first".to_vec(),
        Vec::new(),
        vec![0u8; 9000],
        b"last write".to_vec(),
    ];
    let seen = frames_round_trip(&key, &writes);
    let mut expected = Vec::new();
    for w in &writes {
        expected.extend_from_slice(w);
    }
    assert_eq!(seen, expected);
}

#[test]
fn tampered_frame_fails_to_open() {
    let key = random_bytes_32();
    let frame = seal_frame(&key, &b"secret payload".to_vec());
    assert!(open_frames(&key, &frame).is_some());
    // Flip one ciphertext byte: the reader must fail on that frame.
    let mut bent = frame.clone();
    let last = bent.len() - 1;
    bent[last] ^= 1;
    assert!(open_frames(&key, &bent).is_none());
    // A frame length below the nonce size is a protocol error.
    assert!(open_frames(&key, &vec![0, 5, 1, 2, 3, 4, 5]).is_none());
    // A truncated frame is a protocol error.
    let mut cut = frame;
    cut.pop();
    assert!(open_frames(&key, &cut).is_none());
    // The wrong key fails, too.
    let other = random_bytes_32();
    assert!(open_frames(&other, &seal_frame(&key, &b"x".to_vec())).is_none() || other == key);
}

#[test]
fn gcm_seal_open_inverse() {
    let key = random_bytes_32();
    let nonce = vec![7u8; 12];
    let ct = gcm_seal(&key, &nonce, &b"plaintext".to_vec());
    assert_eq!(ct.len(), 9 + 16);
    assert_eq!(gcm_open(&key, &nonce, &ct), Some(b"plaintext".to_vec()));
    let wrong_nonce = vec![8u8; 12];
    assert_eq!(gcm_open(&key, &wrong_nonce, &ct), None);
}

#[test]
fn rpc_frame_headers() {
    let body = vec![1u8, 2, 3];
    let framed = frame_request(&body);
    assert_eq!(framed, vec![1, 0, 0, 0, 3, 1, 2, 3]);
    let header: Vec<u8> = framed[0..5].to_vec();
    match parse_header(&header).unwrap() {
        FrameHeader::Request(n) => assert_eq!(n, 3),
        _ => panic!("a request header"),
    }
    let eof = eof_frame();
    assert_eq!(eof, vec![2, 255, 255, 255, 255]);
    assert!(matches!(parse_header(&eof).unwrap(), FrameHeader::ResponseEof));
    // Unknown tag or oversized body: refused.
    assert!(parse_header(&vec![9, 0, 0, 0, 1]).is_none());
    assert!(parse_header(&vec![1, 255, 255, 255, 254]).is_none());
}

#[test]
fn txt_record_round_trip() {
    let pairs = vec![
        ("name".to_string(), "Alice".to_string()),
        ("port".to_string(), "6262".to_string()),
        ("note".to_string(), "a=b=c".to_string()),
    ];
    let bytes = encode_txt_record(&pairs).expect("entries fit");
    let back = decode_txt_record(&bytes).expect("own records decode");
    assert_eq!(back, pairs);
    // An entry past 255 bytes is refused.
    let long = vec![("k".to_string(), "v".repeat(300))];
    assert!(encode_txt_record(&long).is_none());
    // Truncated records are refused.
    let mut cut = bytes;
    cut.pop();
    assert!(decode_txt_record(&cut).is_none());
}

#[test]
fn parse_port_exact() {
    assert_eq!(parse_port(&"6262".to_string()), Some(6262));
    assert_eq!(parse_port(&"0".to_string()), Some(0));
    assert_eq!(parse_port(&"00080".to_string()), Some(80));
    assert_eq!(parse_port(&"65535".to_string()), Some(65535));
    assert_eq!(parse_port(&"65536".to_string()), None);
    assert_eq!(parse_port(&"".to_string()), None);
    assert_eq!(parse_port(&"12a".to_string()), None);
}

#[test]
fn discovery_record_verifies_signed_name() {
    let sk = random_bytes_32();
    let pk = ed25519_public_key(&sk);
    let name = "Alice".to_string();
    let sig = ed25519_sign(&sk, &name.clone().into_bytes());
    let pairs = vec![
        ("signature".to_string(), hex_encode(&sig)),
        ("port".to_string(), "6262".to_string()),
        ("name".to_string(), name.clone()),
        ("pub_key".to_string(), hex_encode(&pk)),
    ];
    let record = encode_txt_record(&pairs).unwrap();
    let d = verify_record(&record).expect("a well-signed record verifies");
    assert_eq!(d.name, "Alice");
    assert_eq!(d.port, 6262);
    assert_eq!(d.pub_key, hex_encode(&pk));
    // A forged name is rejected.
    let forged = vec![
        ("signature".to_string(), hex_encode(&sig)),
        ("port".to_string(), "6262".to_string()),
        ("name".to_string(), "Mallory".to_string()),
        ("pub_key".to_string(), hex_encode(&pk)),
    ];
    assert!(verify_record_pairs(&forged).is_err());
    // A missing key is rejected.
    let partial = vec![("name".to_string(), name)];
    assert!(verify_record_pairs(&partial).is_err());
}
