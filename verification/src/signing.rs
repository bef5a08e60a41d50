//! Ed25519 key handling, signing, and signature checking, through
//! `ed25519_dalek`.
//!
//! Keys and signatures cross this boundary as plain byte vectors. Ed25519
//! signing is deterministic (RFC 8032): the signature and the derived
//! verifying key are functions of the secret key bytes alone, which lets the
//! names below stand for them in contracts.

use ed25519_dalek::Signer as _;
use ed25519_dalek::Verifier as _;
use vstd::prelude::*;

verus! {

/// The verifying key derived from the 32 secret key bytes `sk`.
pub uninterp spec fn ed25519_vk(sk: Seq<u8>) -> Seq<u8>;

/// The deterministic Ed25519 signature of `msg` under the secret key `sk`.
pub uninterp spec fn ed25519_sig(sk: Seq<u8>, msg: Seq<u8>) -> Seq<u8>;

/// Whether the verifier accepts `sig` as a signature of `msg` under `vk`.
pub uninterp spec fn ed25519_accepts(vk: Seq<u8>, msg: Seq<u8>, sig: Seq<u8>) -> bool;

/// Relies on ed25519_dalek::SigningKey::generate: a fresh random secret key of
/// 32 bytes. Nothing more can be promised of a random value.
#[verifier::external_body]
pub fn generate_secret_key() -> (r: Vec<u8>)
    ensures
        r@.len() == 32,
{
    ed25519_dalek::SigningKey::generate(&mut rand::thread_rng()).to_bytes().to_vec()
}

/// Relies on ed25519_dalek::SigningKey::verifying_key: the public key is
/// derived deterministically from the secret key bytes, and is 32 bytes.
#[verifier::external_body]
pub fn derive_verifying_key(sk: &[u8]) -> (r: Vec<u8>)
    requires
        sk@.len() == 32,
    ensures
        r@ == ed25519_vk(sk@),
        r@.len() == 32,
{
    let key = ed25519_dalek::SigningKey::from_bytes(sk.try_into().unwrap());
    key.verifying_key().to_bytes().to_vec()
}

/// Relies on ed25519_dalek's Signer::sign for SigningKey: RFC 8032 signing is
/// deterministic in the key bytes and message, never fails, and produces a
/// 64-byte signature.
#[verifier::external_body]
pub fn sign_message(sk: &[u8], msg: &[u8]) -> (r: Vec<u8>)
    requires
        sk@.len() == 32,
    ensures
        r@ == ed25519_sig(sk@, msg@),
        r@.len() == 64,
{
    let key = ed25519_dalek::SigningKey::from_bytes(sk.try_into().unwrap());
    key.sign(msg).to_bytes().to_vec()
}

/// Relies on ed25519_dalek's Verifier::verify for VerifyingKey: acceptance is
/// a function of the key bytes, message, and signature alone, and a signature
/// produced by `sign` under the matching secret key is always accepted.
/// Key bytes that denote no valid public key accept nothing.
#[verifier::external_body]
pub fn signature_accepted(vk: &[u8], msg: &[u8], sig: &[u8]) -> (r: bool)
    requires
        vk@.len() == 32,
        sig@.len() == 64,
    ensures
        r == ed25519_accepts(vk@, msg@, sig@),
        (exists|sk: Seq<u8>|
            sk.len() == 32 && vk@ == ed25519_vk(sk) && sig@ == ed25519_sig(sk, msg@)) ==> r,
{
    match ed25519_dalek::VerifyingKey::from_bytes(vk.try_into().unwrap()) {
        Ok(key) => match ed25519_dalek::Signature::from_slice(sig) {
            Ok(signature) => key.verify(msg, &signature).is_ok(),
            Err(_) => false,
        },
        Err(_) => false,
    }
}

/// An Ed25519 keypair held as plain bytes. The verifying key is always the
/// one derived from the secret key.
pub struct Keypair {
    pub sk: Vec<u8>,
    pub vk: Vec<u8>,
}

impl Keypair {
    pub open spec fn wf(&self) -> bool {
        &&& self.sk@.len() == 32
        &&& self.vk@ == ed25519_vk(self.sk@)
        &&& self.vk@.len() == 32
    }
}

/// A fresh keypair: random secret key and its derived verifying key.
pub fn generate_keypair() -> (k: Keypair)
    ensures
        k.wf(),
{
    let sk = generate_secret_key();
    let vk = derive_verifying_key(sk.as_slice());
    Keypair { sk, vk }
}

} // verus!
