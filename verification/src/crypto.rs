//! Keys and signatures, and the one call into `near_crypto` that checks them.

use vstd::prelude::*;

verus! {

/// Whether `signature` is a valid ed25519 signature of `message` under `key`,
/// as `near_crypto` decides it. The three arguments are raw bytes.
pub uninterp spec fn ed25519_valid(signature: Seq<u8>, message: Seq<u8>, key: Seq<u8>) -> bool;

/// Calls `near_crypto::Signature::from_parts` on the 64 signature bytes and, where
/// they parse, `near_crypto::Signature::verify` with the message and the key.
/// The contract only gives the answer its name: the same bytes always get the
/// same answer. Bytes that do not parse as a signature do not verify.
#[verifier::external_body]
fn ed25519_verify(signature: &[u8; 64], message: &Vec<u8>, key: &[u8; 32]) -> (ok: bool)
    ensures
        ok == ed25519_valid(signature@, message@, key@),
{
    match near_crypto::Signature::from_parts(near_crypto::KeyType::ED25519, signature) {
        Ok(parsed) => parsed.verify(
            message,
            &near_crypto::PublicKey::ED25519(near_crypto::ED25519PublicKey(*key)),
        ),
        Err(_) => false,
    }
}

/// A verifying key of one of the two supported curves.
#[derive(Clone, Copy, Debug, PartialEq, Eq)]
pub enum PublicKey {
    ED25519([u8; 32]),
    SECP256K1([u8; 64]),
}

/// A signature of one of the two supported curves.
#[derive(Clone, Copy, Debug, PartialEq, Eq)]
pub enum Signature {
    ED25519([u8; 64]),
    SECP256K1([u8; 65]),
}

impl Signature {
    /// What it means for this signature to sign `message` under `key`.
    ///
    /// Only an ed25519 signature under an ed25519 key can verify. A signature
    /// never verifies under a key of the other curve. A secp256k1 signature
    /// under a secp256k1 key does not verify either: `near_crypto` checks such
    /// a pair over a 32-byte digest only and aborts on any other message, and
    /// on a malformed key or signature, whereas account data is signed over
    /// its whole payload.
    pub open spec fn signs(self, message: Seq<u8>, key: PublicKey) -> bool {
        match (self, key) {
            (Signature::ED25519(s), PublicKey::ED25519(k)) => ed25519_valid(s@, message, k@),
            _ => false,
        }
    }

    /// Checks this signature of `message` against `key`. Never aborts,
    /// whatever the bytes are.
    pub fn verify(&self, message: &Vec<u8>, key: &PublicKey) -> (ok: bool)
        ensures
            ok == self.signs(message@, *key),
    {
        match (self, key) {
            (Signature::ED25519(s), PublicKey::ED25519(k)) => ed25519_verify(s, message, k),
            _ => false,
        }
    }
}

} // verus!
