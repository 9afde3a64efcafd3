//! Ed25519 key generation, signing and verification.
//!
//! Key material is held in 32-byte seeds.  The Ed25519 arithmetic itself is
//! done by `ed25519-dalek`; what each call returns is named by a spec function
//! below, and the facts the library relies on are stated on the calls.
use vstd::prelude::*;

use ed25519_dalek::{Signature, Signer, SigningKey, Verifier, VerifyingKey};
use rand::rngs::OsRng;
use rand::RngCore;
use zeroize::Zeroize;

use crate::error::WsntpError;

verus! {

/// The public key `ed25519-dalek` derives from a 32-byte secret seed.
pub uninterp spec fn ed25519_public_key(seed: Seq<u8>) -> Seq<u8>;

/// The signature `ed25519-dalek` makes over `message` with a 32-byte seed.
pub uninterp spec fn ed25519_signature(seed: Seq<u8>, message: Seq<u8>) -> Seq<u8>;

/// Whether `ed25519-dalek` accepts 32 bytes as a compressed public key.
pub uninterp spec fn ed25519_key_accepted(public_key: Seq<u8>) -> bool;

/// Whether `ed25519-dalek` accepts `signature` over `message` under an accepted key.
pub uninterp spec fn ed25519_signature_accepted(
    public_key: Seq<u8>,
    message: Seq<u8>,
    signature: Seq<u8>,
) -> bool;

/// Derive the Ed25519 public key from a 32-byte secret seed.
///
/// Calls `SigningKey::from_bytes`, `SigningKey::verifying_key` and
/// `VerifyingKey::to_bytes`.  Trusted: the result is the key named by
/// `ed25519_public_key`, and it is a key that `VerifyingKey::from_bytes`
/// accepts (it is the compression of a point that the library computed).
#[verifier::external_body]
pub(crate) fn derive_public(secret_seed: &[u8; 32]) -> (public_key: [u8; 32])
    ensures
        public_key@ == ed25519_public_key(secret_seed@),
        ed25519_key_accepted(public_key@),
{
    SigningKey::from_bytes(secret_seed).verifying_key().to_bytes()
}

/// Signs with `SigningKey::sign` (the `Signer` trait) and returns the 64 bytes.
///
/// Trusted: the result is the signature named by `ed25519_signature`, and
/// `VerifyingKey::verify` accepts it under the key derived from the same seed
/// (Ed25519 signatures made by a key verify under its public key).
#[verifier::external_body]
fn ed25519_sign(message: &[u8], secret_seed: &[u8; 32]) -> (signature: [u8; 64])
    ensures
        signature@ == ed25519_signature(secret_seed@, message@),
        ed25519_signature_accepted(ed25519_public_key(secret_seed@), message@, signature@),
{
    SigningKey::from_bytes(secret_seed).sign(message).to_bytes()
}

/// Whether `VerifyingKey::from_bytes` accepts `public_key`.
///
/// Trusted: the answer is the one named by `ed25519_key_accepted`.
#[verifier::external_body]
fn ed25519_parse_key(public_key: &[u8; 32]) -> (accepted: bool)
    ensures
        accepted == ed25519_key_accepted(public_key@),
{
    VerifyingKey::from_bytes(public_key).is_ok()
}

/// Whether `VerifyingKey::verify` accepts `signature` over `message`.
///
/// The key bytes are turned into a `VerifyingKey` and the signature bytes into
/// a `Signature` (`Signature::from_bytes`) before the call.  Trusted: the
/// answer is the one named by `ed25519_signature_accepted`.
#[verifier::external_body]
fn ed25519_verify(message: &[u8], signature: &[u8; 64], public_key: &[u8; 32]) -> (accepted: bool)
    requires
        ed25519_key_accepted(public_key@),
    ensures
        accepted == ed25519_signature_accepted(public_key@, message@, signature@),
{
    match VerifyingKey::from_bytes(public_key) {
        Ok(vk) => vk.verify(message, &Signature::from_bytes(signature)).is_ok(),
        Err(_) => false,
    }
}

/// Thirty-two bytes from the operating system's CSPRNG
/// (`OsRng::try_fill_bytes`), or `None` when the operating system cannot
/// provide them.
///
/// Nothing is stated of the bytes: they are random.
#[verifier::external_body]
fn os_random_seed() -> Option<[u8; 32]> {
    let mut seed = [0u8; 32];
    match OsRng.try_fill_bytes(&mut seed) {
        Ok(()) => Some(seed),
        Err(_) => None,
    }
}

/// Overwrites a secret with zeros (`Zeroize::zeroize`, with writes the
/// compiler may not elide).
///
/// Trusted: afterwards every byte is zero.
#[verifier::external_body]
fn scrub(secret: &mut [u8; 32])
    ensures
        final(secret)@ == Seq::new(32, |i: int| 0u8),
{
    secret.zeroize();
}

/// An Ed25519 key pair stored as raw 32-byte seeds.  The secret seed is
/// overwritten with zeros when the key pair is dropped.
pub struct Keypair {
    pub public: [u8; 32],
    pub secret: [u8; 32],
}

impl Drop for Keypair {
    /// Scrubs the secret seed from memory.
    #[verifier::external_body]
    fn drop(&mut self)
        opens_invariants none
        no_unwind
    {
        self.secret.zeroize();
    }
}

/// Generate a fresh random key pair using the OS CSPRNG.
///
/// Fails, with a cryptographic error, when the operating system cannot
/// provide random bytes.
pub fn generate_keypair() -> (r: Result<Keypair, WsntpError>)
    ensures
        r matches Ok(kp) ==> kp.public@ == ed25519_public_key(kp.secret@) && ed25519_key_accepted(
            kp.public@,
        ),
        r matches Err(e) ==> e matches WsntpError::Crypto(m) && m@ == "the operating system could not provide random bytes"@,
{
    match os_random_seed() {
        Some(seed) => {
            let mut seed = seed;
            let public = derive_public(&seed);
            let kp = Keypair { public, secret: seed };
            scrub(&mut seed);
            Ok(kp)
        },
        None => Err(WsntpError::Crypto(String::from_str("the operating system could not provide random bytes"))),
    }
}

/// Sign `message` with the given 32-byte secret seed.
pub fn sign(message: &[u8], secret_seed: &[u8; 32]) -> (signature: [u8; 64])
    ensures
        signature@ == ed25519_signature(secret_seed@, message@),
        verification_of(message@, signature@, ed25519_public_key(secret_seed@))
            == (if ed25519_key_accepted(ed25519_public_key(secret_seed@)) {
                VerifyResult::Valid
            } else {
                VerifyResult::InvalidPublicKey
            }),
{
    ed25519_sign(message, secret_seed)
}

/// Result of an Ed25519 signature verification.
#[derive(Debug, Clone, Copy, PartialEq, Eq)]
pub enum VerifyResult {
    Valid,
    InvalidSignature,
    InvalidPublicKey,
}

/// What verifying `signature` over `message` under `public_key` yields.
pub open spec fn verification_of(
    message: Seq<u8>,
    signature: Seq<u8>,
    public_key: Seq<u8>,
) -> VerifyResult {
    if !ed25519_key_accepted(public_key) {
        VerifyResult::InvalidPublicKey
    } else if ed25519_signature_accepted(public_key, message, signature) {
        VerifyResult::Valid
    } else {
        VerifyResult::InvalidSignature
    }
}

/// Verify `signature` over `message` using the given 32-byte public key.
pub fn verify(message: &[u8], signature: &[u8; 64], public_key: &[u8; 32]) -> (r: VerifyResult)
    ensures
        r == verification_of(message@, signature@, public_key@),
{
    if !ed25519_parse_key(public_key) {
        return VerifyResult::InvalidPublicKey;
    }
    if ed25519_verify(message, signature, public_key) {
        VerifyResult::Valid
    } else {
        VerifyResult::InvalidSignature
    }
}

} // verus!
