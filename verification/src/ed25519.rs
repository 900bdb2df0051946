//! Ed25519 signing and verification over plain byte vectors.
//!
//! Signing is deterministic, so the signature and the derived public key
//! carry names; verification is a total function of key, message and
//! signature bytes, with malformed keys or signatures verifying as false.

use vstd::prelude::*;

use ed25519_dalek::Signer;

verus! {

/// The public key derived from 32 secret key bytes.
pub uninterp spec fn ed_pubkey_of(sk: Seq<u8>) -> Seq<u8>;

/// The Ed25519 signature of a message under a secret key.
pub uninterp spec fn ed_sign(sk: Seq<u8>, msg: Seq<u8>) -> Seq<u8>;

/// Whether signature bytes verify under public key bytes for a message;
/// false whenever the key or signature bytes are malformed.
pub uninterp spec fn ed_valid(pk: Seq<u8>, msg: Seq<u8>, sig: Seq<u8>) -> bool;

/// Relies on `ed25519_dalek::SigningKey::verifying_key`: the public key is
/// determined by the secret key and holds 32 bytes.
#[verifier::external_body]
pub fn ed25519_public_key(sk: &Vec<u8>) -> (r: Vec<u8>)
    requires
        sk@.len() == 32,
    ensures
        r@ == ed_pubkey_of(sk@),
        r@.len() == 32,
{
    let arr: [u8; 32] = sk.as_slice().try_into().unwrap();
    let key = ed25519_dalek::SigningKey::from_bytes(&arr);
    key.verifying_key().as_bytes().to_vec()
}

/// Relies on `ed25519_dalek::SigningKey::sign`: deterministic, 64 bytes,
/// and verified by `verify_strict` under the derived public key.
#[verifier::external_body]
pub(crate) fn ed25519_sign(sk: &Vec<u8>, msg: &Vec<u8>) -> (r: Vec<u8>)
    requires
        sk@.len() == 32,
    ensures
        r@ == ed_sign(sk@, msg@),
        r@.len() == 64,
        ed_valid(ed_pubkey_of(sk@), msg@, r@),
{
    let arr: [u8; 32] = sk.as_slice().try_into().unwrap();
    let key = ed25519_dalek::SigningKey::from_bytes(&arr);
    key.sign(msg.as_slice()).to_bytes().to_vec()
}

/// Relies on `ed25519_dalek::VerifyingKey::verify_strict`: a function of
/// the key, message and signature bytes alone; parse failures verify as
/// false.
#[verifier::external_body]
pub(crate) fn ed25519_verify(pk: &Vec<u8>, msg: &Vec<u8>, sig: &Vec<u8>) -> (r: bool)
    ensures
        r == ed_valid(pk@, msg@, sig@),
{
    let Ok(key_arr) = <[u8; 32]>::try_from(pk.as_slice()) else { return false };
    let Ok(key) = ed25519_dalek::VerifyingKey::from_bytes(&key_arr) else { return false };
    let Ok(signature) = ed25519_dalek::Signature::from_slice(sig.as_slice()) else { return false };
    key.verify_strict(msg.as_slice(), &signature).is_ok()
}

} // verus!
