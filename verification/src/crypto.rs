//! Trusted boundary to the cryptographic crates.  Each wrapper makes exactly
//! one outside call; what the call returns is either stated outright (hex) or
//! given a name, with only the facts the crates' documentation states.

use aes_gcm::aead::Aead;
use aes_gcm::aead::KeyInit;
use ed25519_dalek::Signer;
use ed25519_dalek::Verifier;
use vstd::prelude::*;

verus! {

/// The lowercase hex digit of a nibble below 16.
pub open spec fn hex_char_of(nib: u8) -> char {
    if nib == 0 {
        '0'
    } else if nib == 1 {
        '1'
    } else if nib == 2 {
        '2'
    } else if nib == 3 {
        '3'
    } else if nib == 4 {
        '4'
    } else if nib == 5 {
        '5'
    } else if nib == 6 {
        '6'
    } else if nib == 7 {
        '7'
    } else if nib == 8 {
        '8'
    } else if nib == 9 {
        '9'
    } else if nib == 10 {
        'a'
    } else if nib == 11 {
        'b'
    } else if nib == 12 {
        'c'
    } else if nib == 13 {
        'd'
    } else if nib == 14 {
        'e'
    } else {
        'f'
    }
}

/// The lowercase hex encoding of a byte string: two digits per byte, high
/// nibble first.
pub open spec fn spec_hex(bytes: Seq<u8>) -> Seq<char> {
    Seq::new(
        bytes.len() * 2,
        |i: int|
            if i % 2 == 0 {
                hex_char_of(bytes[i / 2] / 16)
            } else {
                hex_char_of(bytes[i / 2] % 16)
            },
    )
}

/// Distinct nibbles have distinct hex digits, so the encoding is injective.
pub proof fn lemma_hex_injective(a: Seq<u8>, b: Seq<u8>)
    requires
        spec_hex(a) == spec_hex(b),
    ensures
        a == b,
{
    assert(spec_hex(a).len() == a.len() * 2);
    assert(spec_hex(b).len() == b.len() * 2);
    assert(a.len() == b.len());
    assert forall|i: int| 0 <= i < a.len() implies a[i] == b[i] by {
        assert(spec_hex(a)[2 * i] == hex_char_of(a[i] / 16));
        assert(spec_hex(b)[2 * i] == hex_char_of(b[i] / 16));
        assert(spec_hex(a)[2 * i + 1] == hex_char_of(a[i] % 16));
        assert(spec_hex(b)[2 * i + 1] == hex_char_of(b[i] % 16));
        assert(hex_char_of(a[i] / 16) == hex_char_of(b[i] / 16));
        assert(hex_char_of(a[i] % 16) == hex_char_of(b[i] % 16));
        assert(a[i] / 16 == b[i] / 16 && a[i] % 16 == b[i] % 16);
    }
    assert(a =~= b);
}

/// Relies on `hex::encode`: two lowercase digits per byte, high nibble
/// first.
#[verifier::external_body]
pub fn hex_encode(bytes: &Vec<u8>) -> (r: String)
    ensures
        r@ == spec_hex(bytes@),
{
    hex::encode(bytes.as_slice())
}

/// Relies on `hex::decode`: it accepts every string this library's own hex
/// encoding produces and returns exactly the encoded bytes, and any accepted
/// string holds two digits per returned byte.
#[verifier::external_body]
pub fn hex_decode(s: &String) -> (r: Option<Vec<u8>>)
    ensures
        (r matches Some(b) ==> s@.len() == b@.len() * 2),
        (r is None ==> forall|b: Seq<u8>| s@ != #[trigger] spec_hex(b)),
        (r matches Some(out) ==> forall|b: Seq<u8>|
            s@ == #[trigger] spec_hex(b) ==> out@ == b),
{
    hex::decode(s.as_str()).ok()
}

/// What signing a message with an Ed25519 key returns.  RFC 8032 signing is
/// deterministic: the bytes depend on the key and message alone.
pub uninterp spec fn spec_ed25519_sign(sk: Seq<u8>, msg: Seq<u8>) -> Seq<u8>;

/// The Ed25519 verifying key of a signing key.
pub uninterp spec fn spec_ed25519_pub(sk: Seq<u8>) -> Seq<u8>;

/// What Ed25519 signature verification returns.
pub uninterp spec fn spec_ed25519_valid(pk: Seq<u8>, msg: Seq<u8>, sig: Seq<u8>) -> bool;

/// Relies on `ed25519_dalek::SigningKey::sign` (RFC 8032, deterministic);
/// signatures are 64 bytes.
#[verifier::external_body]
pub fn ed25519_sign(sk: &Vec<u8>, msg: &Vec<u8>) -> (r: Vec<u8>)
    requires
        sk@.len() == 32,
    ensures
        r@ == spec_ed25519_sign(sk@, msg@),
        r@.len() == 64,
{
    let key: [u8; 32] = sk.as_slice().try_into().unwrap();
    let signing = ed25519_dalek::SigningKey::from_bytes(&key);
    signing.sign(msg.as_slice()).to_bytes().to_vec()
}

/// Relies on `ed25519_dalek::SigningKey::verifying_key`; verifying keys are
/// 32 bytes.
#[verifier::external_body]
pub fn ed25519_public_key(sk: &Vec<u8>) -> (r: Vec<u8>)
    requires
        sk@.len() == 32,
    ensures
        r@ == spec_ed25519_pub(sk@),
        r@.len() == 32,
{
    let key: [u8; 32] = sk.as_slice().try_into().unwrap();
    let signing = ed25519_dalek::SigningKey::from_bytes(&key);
    signing.verifying_key().to_bytes().to_vec()
}

/// Relies on `ed25519_dalek::VerifyingKey::verify`: a signature produced by
/// `sign` over the same message verifies under the signer's verifying key;
/// malformed keys or signatures verify as false.
#[verifier::external_body]
pub fn ed25519_verify(pk: &Vec<u8>, msg: &Vec<u8>, sig: &Vec<u8>) -> (r: bool)
    ensures
        r == spec_ed25519_valid(pk@, msg@, sig@),
        (forall|sk: Seq<u8>|
            pk@ == spec_ed25519_pub(sk) && sig@ == #[trigger] spec_ed25519_sign(sk, msg@)
                ==> r),
{
    let pk_arr: Result<[u8; 32], _> = pk.as_slice().try_into();
    let sig_arr: Result<[u8; 64], _> = sig.as_slice().try_into();
    match (pk_arr, sig_arr) {
        (Ok(p), Ok(s)) => match ed25519_dalek::VerifyingKey::from_bytes(&p) {
            Ok(key) => key.verify(
                msg.as_slice(),
                &ed25519_dalek::Signature::from_bytes(&s),
            ).is_ok(),
            Err(_) => false,
        },
        _ => false,
    }
}

/// Whether bytes form a well-formed Ed25519 verifying key: a property of
/// the bytes alone (point decompression either succeeds or does not).
pub uninterp spec fn spec_ed25519_key_ok(pk: Seq<u8>) -> bool;

/// Relies on `ed25519_dalek::VerifyingKey::from_bytes`: whether 32 bytes
/// form a well-formed verifying key.
#[verifier::external_body]
pub fn ed25519_key_is_valid(pk: &Vec<u8>) -> (r: bool)
    ensures
        r == spec_ed25519_key_ok(pk@),
        r ==> pk@.len() == 32,
{
    let pk_arr: Result<[u8; 32], _> = pk.as_slice().try_into();
    match pk_arr {
        Ok(p) => ed25519_dalek::VerifyingKey::from_bytes(&p).is_ok(),
        Err(_) => false,
    }
}

/// The X25519 public key of a secret scalar.
pub uninterp spec fn spec_x25519_pub(sk: Seq<u8>) -> Seq<u8>;

/// The X25519 shared secret of a secret scalar and a peer public key.
pub uninterp spec fn spec_x25519_shared(sk: Seq<u8>, pk: Seq<u8>) -> Seq<u8>;

/// Relies on `x25519_dalek::x25519` against the basepoint; public keys are
/// 32 bytes.
#[verifier::external_body]
pub fn x25519_public_key(sk: &Vec<u8>) -> (r: Vec<u8>)
    requires
        sk@.len() == 32,
    ensures
        r@ == spec_x25519_pub(sk@),
        r@.len() == 32,
{
    let key: [u8; 32] = sk.as_slice().try_into().unwrap();
    x25519_dalek::x25519(key, x25519_dalek::X25519_BASEPOINT_BYTES).to_vec()
}

/// Relies on `x25519_dalek::x25519`: Diffie-Hellman agreement, so when the
/// peer key is the public key of some scalar, both orders of the computation
/// give the same 32-byte secret.
#[verifier::external_body]
pub fn x25519_shared_secret(sk: &Vec<u8>, pk: &Vec<u8>) -> (r: Vec<u8>)
    requires
        sk@.len() == 32,
        pk@.len() == 32,
    ensures
        r@ == spec_x25519_shared(sk@, pk@),
        r@.len() == 32,
        (forall|other: Seq<u8>|
            pk@ == #[trigger] spec_x25519_pub(other) ==> r@ == spec_x25519_shared(
                other,
                spec_x25519_pub(sk@),
            )),
{
    let key: [u8; 32] = sk.as_slice().try_into().unwrap();
    let peer: [u8; 32] = pk.as_slice().try_into().unwrap();
    x25519_dalek::x25519(key, peer).to_vec()
}

/// What HKDF-SHA256 with empty salt expands to at 32 bytes.
pub uninterp spec fn spec_hkdf_sha256(ikm: Seq<u8>, info: Seq<u8>) -> Seq<u8>;

/// Relies on `hkdf::Hkdf::<Sha256>::expand`: deterministic in the input key
/// material and info; a 32-byte output is always within the HKDF bound of
/// 255 hash lengths, so expansion cannot fail.
#[verifier::external_body]
pub fn hkdf_derive_key(ikm: &Vec<u8>, info: &Vec<u8>) -> (r: Vec<u8>)
    ensures
        r@ == spec_hkdf_sha256(ikm@, info@),
        r@.len() == 32,
{
    let hk = hkdf::Hkdf::<sha2::Sha256>::new(None, ikm.as_slice());
    let mut key = [0u8; 32];
    match hk.expand(info.as_slice(), &mut key) {
        Ok(()) => {},
        Err(_) => {},
    }
    key.to_vec()
}

/// What AES-256-GCM encryption returns: ciphertext with the 16-byte tag
/// appended.
pub uninterp spec fn spec_gcm_seal(key: Seq<u8>, nonce: Seq<u8>, plain: Seq<u8>) -> Seq<u8>;

/// What AES-256-GCM decryption returns.
pub uninterp spec fn spec_gcm_open(key: Seq<u8>, nonce: Seq<u8>, cipher: Seq<u8>) -> Option<
    Seq<u8>,
>;

/// Relies on `aes_gcm::Aes256Gcm` encryption (the `aead::Aead` trait): the
/// result is the ciphertext with its tag appended, 16 bytes longer than the
/// plaintext, and decrypting it under the same key and nonce returns the
/// plaintext.  The plaintext bound sits far below the AES-GCM message limit,
/// so encryption cannot fail.
#[verifier::external_body]
pub fn gcm_seal(key: &Vec<u8>, nonce: &Vec<u8>, plain: &Vec<u8>) -> (r: Vec<u8>)
    requires
        key@.len() == 32,
        nonce@.len() == 12,
        plain@.len() <= 0xFFFF,
    ensures
        r@ == spec_gcm_seal(key@, nonce@, plain@),
        r@.len() == plain@.len() + 16,
        spec_gcm_open(key@, nonce@, r@) == Some(plain@),
{
    let key_arr: [u8; 32] = key.as_slice().try_into().unwrap();
    let cipher = aes_gcm::Aes256Gcm::new(&key_arr.into());
    let nonce_arr: [u8; 12] = nonce.as_slice().try_into().unwrap();
    match cipher.encrypt(&nonce_arr.into(), plain.as_slice()) {
        Ok(ct) => ct,
        Err(_) => Vec::new(),
    }
}

/// Relies on `aes_gcm::Aes256Gcm` decryption: the inverse of `gcm_seal` on
/// its outputs, and failure on inauthentic input.
#[verifier::external_body]
pub fn gcm_open(key: &Vec<u8>, nonce: &Vec<u8>, cipher_text: &Vec<u8>) -> (r: Option<Vec<u8>>)
    requires
        key@.len() == 32,
        nonce@.len() == 12,
    ensures
        (r matches Some(p) ==> spec_gcm_open(key@, nonce@, cipher_text@) == Some(p@)),
        (r is None ==> spec_gcm_open(key@, nonce@, cipher_text@) is None),
        (r is None ==> forall|p: Seq<u8>|
            cipher_text@ != #[trigger] spec_gcm_seal(key@, nonce@, p)),
        (r matches Some(out) ==> forall|p: Seq<u8>|
            cipher_text@ == #[trigger] spec_gcm_seal(key@, nonce@, p) ==> out@ == p),
{
    let key_arr: [u8; 32] = key.as_slice().try_into().unwrap();
    let cipher = aes_gcm::Aes256Gcm::new(&key_arr.into());
    let nonce_arr: [u8; 12] = nonce.as_slice().try_into().unwrap();
    cipher.decrypt(&nonce_arr.into(), cipher_text.as_slice()).ok()
}

/// Relies on `getrandom::fill` for fresh random bytes.  Nothing is promised
/// of the values; on a platform failure the buffer stays zeroed.
#[verifier::external_body]
pub fn random_bytes_32() -> (r: Vec<u8>)
    ensures
        r@.len() == 32,
{
    let mut b = [0u8; 32];
    let _ = getrandom::fill(&mut b);
    b.to_vec()
}

/// Relies on `getrandom::fill` for a fresh 12-byte nonce.  Nothing is
/// promised of the values; on a platform failure the buffer stays zeroed.
#[verifier::external_body]
pub fn random_nonce_12() -> (r: Vec<u8>)
    ensures
        r@.len() == 12,
{
    let mut b = [0u8; 12];
    let _ = getrandom::fill(&mut b);
    b.to_vec()
}

} // verus!
