//! Mutual-authenticated key agreement between a dialer and an acceptor, as
//! pure steps over the bytes exchanged.  Transport reads and writes live
//! outside; ephemeral secrets are drawn by the caller and passed in.

use vstd::prelude::*;

use crate::crypto::{
    ed25519_public_key, ed25519_sign, ed25519_verify, hex_encode, hkdf_derive_key, random_bytes_32,
    spec_ed25519_pub, spec_ed25519_sign, spec_ed25519_valid, spec_hex, spec_hkdf_sha256,
    spec_x25519_pub, spec_x25519_shared, x25519_public_key, x25519_shared_secret,
};
use crate::wire::{append_bytes, copy_range};

verus! {

/// The outcome of one side of the handshake: the derived 32-byte symmetric
/// key and the other side's long-term verifying key.
pub struct Handshake {
    pub symmetric_key: Vec<u8>,
    pub their_pub_key: Vec<u8>,
}

impl Handshake {
    /// The other side's peer id: the lowercase hex of its verifying key.
    pub fn hex_key(&self) -> (r: String)
        ensures
            r@ == spec_hex(self.their_pub_key@),
    {
        hex_encode(&self.their_pub_key)
    }
}

/// Why a handshake was aborted.
#[derive(Debug, Clone, Copy, PartialEq, Eq, Structural)]
pub enum HandshakeError {
    /// A handshake message had the wrong length.
    Malformed,
    /// The transcript signature did not verify.
    AuthenticationFailed,
}

/// The key-derivation info string both sides feed to HKDF.
pub open spec fn spec_derivation_info() -> Seq<u8> {
    seq![112u8, 50u8, 112u8, 45u8, 99u8, 104u8, 97u8, 116u8]
}

/// The info string, as bytes ("p2p-chat").
pub fn derivation_info() -> (r: Vec<u8>)
    ensures
        r@ == spec_derivation_info(),
{
    let mut r: Vec<u8> = Vec::new();
    r.push(112);
    r.push(50);
    r.push(112);
    r.push(45);
    r.push(99);
    r.push(104);
    r.push(97);
    r.push(116);
    proof {
        assert(r@ =~= spec_derivation_info());
    }
    r
}

/// The symmetric key one side derives from its ephemeral secret and the
/// other side's ephemeral public key.
pub open spec fn spec_session_key(eph_sk: Seq<u8>, their_eph_pk: Seq<u8>) -> Seq<u8> {
    spec_hkdf_sha256(spec_x25519_shared(eph_sk, their_eph_pk), spec_derivation_info())
}

/// A fresh 32-byte ephemeral secret for one handshake.  On the rare
/// platform failure the randomness wrapper reports, the bytes come back
/// zeroed; the handshake still completes, with a secret an observer could
/// guess, so a transport may prefer to drop such a connection.
pub fn fresh_ephemeral_secret() -> (r: Vec<u8>)
    ensures
        r@.len() == 32,
{
    random_bytes_32()
}

/// The dialer's opening message: its ephemeral public key.
pub fn dialer_hello(eph_sk: &Vec<u8>) -> (r: Vec<u8>)
    requires
        eph_sk@.len() == 32,
    ensures
        r@ == spec_x25519_pub(eph_sk@),
        r@.len() == 32,
{
    x25519_public_key(eph_sk)
}

/// What the acceptor sends back: its ephemeral public key, its long-term
/// verifying key, and its signature over the transcript.
pub open spec fn spec_accept_message(d_pk: Seq<u8>, a_eph_sk: Seq<u8>, a_long_sk: Seq<u8>) -> Seq<
    u8,
> {
    let a_pk = spec_x25519_pub(a_eph_sk);
    a_pk + spec_ed25519_pub(a_long_sk) + spec_ed25519_sign(a_long_sk, d_pk + a_pk)
}

/// The acceptor's reply to a hello: ephemeral public key, long-term
/// verifying key, and signature over the transcript `d_pk || a_pk`.
pub fn acceptor_respond(d_pk: &Vec<u8>, a_eph_sk: &Vec<u8>, a_long_sk: &Vec<u8>) -> (r: Vec<u8>)
    requires
        d_pk@.len() == 32,
        a_eph_sk@.len() == 32,
        a_long_sk@.len() == 32,
    ensures
        r@ == spec_accept_message(d_pk@, a_eph_sk@, a_long_sk@),
        r@.len() == 128,
        spec_x25519_pub(a_eph_sk@).len() == 32,
        spec_ed25519_pub(a_long_sk@).len() == 32,
        spec_ed25519_sign(a_long_sk@, d_pk@ + spec_x25519_pub(a_eph_sk@)).len() == 64,
{
    let a_pk = x25519_public_key(a_eph_sk);
    let mut transcript: Vec<u8> = Vec::new();
    append_bytes(&mut transcript, d_pk);
    append_bytes(&mut transcript, &a_pk);
    let sig = ed25519_sign(a_long_sk, &transcript);
    let long_pk = ed25519_public_key(a_long_sk);
    let mut r: Vec<u8> = Vec::new();
    append_bytes(&mut r, &a_pk);
    append_bytes(&mut r, &long_pk);
    append_bytes(&mut r, &sig);
    proof {
        assert(r@ =~= spec_accept_message(d_pk@, a_eph_sk@, a_long_sk@));
    }
    r
}

/// The dialer's closing message: its long-term verifying key and its
/// signature over the same transcript.
pub open spec fn spec_dialer_final(d_eph_sk: Seq<u8>, a_pk: Seq<u8>, d_long_sk: Seq<u8>) -> Seq<
    u8,
> {
    spec_ed25519_pub(d_long_sk) + spec_ed25519_sign(
        d_long_sk,
        spec_x25519_pub(d_eph_sk) + a_pk,
    )
}

/// Verifies the acceptor's reply and, on success, derives the session key
/// and builds the dialer's closing message.
pub fn dialer_finish(d_eph_sk: &Vec<u8>, d_long_sk: &Vec<u8>, reply: &Vec<u8>) -> (r: Result<
    (Handshake, Vec<u8>),
    HandshakeError,
>)
    requires
        d_eph_sk@.len() == 32,
        d_long_sk@.len() == 32,
    ensures
        (reply@.len() != 128 ==> r == Err::<(Handshake, Vec<u8>), HandshakeError>(
            HandshakeError::Malformed,
        )),
        (r matches Ok(out) ==> reply@.len() == 128 && ({
            let a_pk = reply@.subrange(0, 32);
            let a_long = reply@.subrange(32, 64);
            &&& out.0.symmetric_key@ == spec_session_key(d_eph_sk@, a_pk)
            &&& out.0.symmetric_key@.len() == 32
            &&& out.0.their_pub_key@ == a_long
            &&& out.1@ == spec_dialer_final(d_eph_sk@, a_pk, d_long_sk@)
            &&& spec_ed25519_pub(d_long_sk@).len() == 32
            &&& spec_ed25519_sign(d_long_sk@, spec_x25519_pub(d_eph_sk@) + a_pk).len() == 64
            &&& (forall|other: Seq<u8>|
                a_pk == #[trigger] spec_x25519_pub(other) ==> out.0.symmetric_key@
                    == spec_session_key(other, spec_x25519_pub(d_eph_sk@)))
        })),
        (reply@.len() == 128 ==> ({
            let a_pk = reply@.subrange(0, 32);
            let a_long = reply@.subrange(32, 64);
            let sig = reply@.subrange(64, 128);
            let transcript = spec_x25519_pub(d_eph_sk@) + a_pk;
            (r is Ok <==> spec_ed25519_valid(a_long, transcript, sig)) && (r is Err ==> r
                == Err::<(Handshake, Vec<u8>), HandshakeError>(
                HandshakeError::AuthenticationFailed,
            )) && (forall|sk: Seq<u8>|
                a_long == spec_ed25519_pub(sk) && sig == #[trigger] spec_ed25519_sign(
                    sk,
                    transcript,
                ) ==> r is Ok)
        })),
{
    if reply.len() != 128 {
        return Err(HandshakeError::Malformed);
    }
    let a_pk = copy_range(reply, 0, 32);
    let a_long = copy_range(reply, 32, 64);
    let sig = copy_range(reply, 64, 128);
    let d_pk = x25519_public_key(d_eph_sk);
    let mut transcript: Vec<u8> = Vec::new();
    append_bytes(&mut transcript, &d_pk);
    append_bytes(&mut transcript, &a_pk);
    if !ed25519_verify(&a_long, &transcript, &sig) {
        return Err(HandshakeError::AuthenticationFailed);
    }
    let shared = x25519_shared_secret(d_eph_sk, &a_pk);
    let info = derivation_info();
    let key = hkdf_derive_key(&shared, &info);
    let my_long_pk = ed25519_public_key(d_long_sk);
    let my_sig = ed25519_sign(d_long_sk, &transcript);
    let mut final_msg: Vec<u8> = Vec::new();
    append_bytes(&mut final_msg, &my_long_pk);
    append_bytes(&mut final_msg, &my_sig);
    proof {
        assert(final_msg@ =~= spec_dialer_final(d_eph_sk@, a_pk@, d_long_sk@));
    }
    Ok((Handshake { symmetric_key: key, their_pub_key: a_long }, final_msg))
}

/// Verifies the dialer's closing message and derives the session key on the
/// acceptor's side.
pub fn acceptor_finish(a_eph_sk: &Vec<u8>, d_pk: &Vec<u8>, final_msg: &Vec<u8>) -> (r: Result<
    Handshake,
    HandshakeError,
>)
    requires
        a_eph_sk@.len() == 32,
        d_pk@.len() == 32,
    ensures
        (final_msg@.len() != 96 ==> r == Err::<Handshake, HandshakeError>(
            HandshakeError::Malformed,
        )),
        (r matches Ok(h) ==> final_msg@.len() == 96 && h.symmetric_key@ == spec_session_key(
            a_eph_sk@,
            d_pk@,
        ) && h.symmetric_key@.len() == 32 && h.their_pub_key@ == final_msg@.subrange(0, 32)),
        (r matches Ok(h) ==> forall|other: Seq<u8>|
            d_pk@ == #[trigger] spec_x25519_pub(other) ==> h.symmetric_key@ == spec_session_key(
                other,
                spec_x25519_pub(a_eph_sk@),
            )),
        (final_msg@.len() == 96 ==> ({
            let d_long = final_msg@.subrange(0, 32);
            let sig = final_msg@.subrange(32, 96);
            let transcript = d_pk@ + spec_x25519_pub(a_eph_sk@);
            (r is Ok <==> spec_ed25519_valid(d_long, transcript, sig)) && (r is Err ==> r
                == Err::<Handshake, HandshakeError>(HandshakeError::AuthenticationFailed)) && (
            forall|sk: Seq<u8>|
                d_long == spec_ed25519_pub(sk) && sig == #[trigger] spec_ed25519_sign(
                    sk,
                    transcript,
                ) ==> r is Ok)
        })),
{
    if final_msg.len() != 96 {
        return Err(HandshakeError::Malformed);
    }
    let d_long = copy_range(final_msg, 0, 32);
    let sig = copy_range(final_msg, 32, 96);
    let a_pk = x25519_public_key(a_eph_sk);
    let mut transcript: Vec<u8> = Vec::new();
    append_bytes(&mut transcript, d_pk);
    append_bytes(&mut transcript, &a_pk);
    if !ed25519_verify(&d_long, &transcript, &sig) {
        return Err(HandshakeError::AuthenticationFailed);
    }
    let shared = x25519_shared_secret(a_eph_sk, d_pk);
    let info = derivation_info();
    let key = hkdf_derive_key(&shared, &info);
    Ok(Handshake { symmetric_key: key, their_pub_key: d_long })
}

/// Runs a complete honest handshake in one process.  Its contract is the
/// agreement law: the run succeeds, both sides derive the same 32-byte key,
/// and each ends up holding the other's long-term verifying key.
pub fn handshake_round_trip(d_long_sk: &Vec<u8>, a_long_sk: &Vec<u8>) -> (r: Option<
    (Handshake, Handshake),
>)
    requires
        d_long_sk@.len() == 32,
        a_long_sk@.len() == 32,
    ensures
        r is Some,
        (r matches Some(pair) ==> pair.0.symmetric_key@ == pair.1.symmetric_key@
            && pair.0.their_pub_key@ == spec_ed25519_pub(a_long_sk@) && pair.1.their_pub_key@
            == spec_ed25519_pub(d_long_sk@)),
{
    let d_eph = fresh_ephemeral_secret();
    let a_eph = fresh_ephemeral_secret();
    let hello = dialer_hello(&d_eph);
    let reply = acceptor_respond(&hello, &a_eph, a_long_sk);
    proof {
        assert(reply@.subrange(0, 32) =~= spec_x25519_pub(a_eph@));
        assert(reply@.subrange(32, 64) =~= spec_ed25519_pub(a_long_sk@));
        assert(reply@.subrange(64, 128) =~= spec_ed25519_sign(
            a_long_sk@,
            spec_x25519_pub(d_eph@) + spec_x25519_pub(a_eph@),
        ));
    }
    let step = dialer_finish(&d_eph, d_long_sk, &reply);
    let (d_side, final_msg) = match step {
        Ok(out) => out,
        Err(_) => {
            proof {
                assert(false);
            }
            return None;
        },
    };
    proof {
        assert(final_msg@.subrange(0, 32) =~= spec_ed25519_pub(d_long_sk@));
        assert(final_msg@.subrange(32, 96) =~= spec_ed25519_sign(
            d_long_sk@,
            spec_x25519_pub(d_eph@) + spec_x25519_pub(a_eph@),
        ));
    }
    let fin = acceptor_finish(&a_eph, &hello, &final_msg);
    let a_side = match fin {
        Ok(h) => h,
        Err(_) => {
            proof {
                assert(false);
            }
            return None;
        },
    };
    proof {
        assert(d_side.symmetric_key@ == spec_session_key(a_eph@, spec_x25519_pub(d_eph@)));
        assert(a_side.symmetric_key@ == spec_session_key(a_eph@, spec_x25519_pub(d_eph@)));
    }
    Some((d_side, a_side))
}

} // verus!
