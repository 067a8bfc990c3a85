//! Public keys and signatures as plain byte values.

use vstd::prelude::*;

verus! {

/// Length in bytes of an Ed25519 public key.
pub const PUBLIC_KEY_LEN: usize = 32;

/// Length in bytes of an Ed25519 signature.
pub const SIGNATURE_LEN: usize = 64;

/// An Ed25519 public key, held as its 32 raw bytes.
#[derive(Debug)]
pub struct PublicKey {
    pub bytes: Vec<u8>,
}

impl PublicKey {
    /// A key is well formed when it has exactly the Ed25519 key length.
    pub open spec fn wf(&self) -> bool {
        self.bytes@.len() == PUBLIC_KEY_LEN
    }
}

impl Clone for PublicKey {
    fn clone(&self) -> (r: Self)
        ensures
            r.bytes@ == self.bytes@,
    {
        PublicKey { bytes: self.bytes.clone() }
    }
}

/// An Ed25519 signature, held as its 64 raw bytes.
#[derive(Debug)]
pub struct Signature {
    pub bytes: Vec<u8>,
}

impl Signature {
    /// A signature is well formed when it has exactly the Ed25519 signature length.
    pub open spec fn wf(&self) -> bool {
        self.bytes@.len() == SIGNATURE_LEN
    }
}

impl Clone for Signature {
    fn clone(&self) -> (r: Self)
        ensures
            r.bytes@ == self.bytes@,
    {
        Signature { bytes: self.bytes.clone() }
    }
}

/// Whether `sig` is a valid Ed25519 signature over `msg` under the public key
/// `pk`; a pure function of the three byte strings.
pub uninterp spec fn ed25519_valid(pk: Seq<u8>, msg: Seq<u8>, sig: Seq<u8>) -> bool;

/// Relies on `ed25519_dalek::VerifyingKey::verify_strict`: whether a
/// signature verifies is a deterministic function of the key, message and
/// signature bytes alone; malformed key or signature bytes never verify.
#[verifier::external_body]
pub(crate) fn ed25519_verify(pk: &Vec<u8>, msg: &Vec<u8>, sig: &Vec<u8>) -> (r: bool)
    ensures
        r == ed25519_valid(pk@, msg@, sig@),
{
    let key_bytes: [u8; 32] = match pk.as_slice().try_into() {
        Ok(b) => b,
        Err(_) => return false,
    };
    let sig_bytes: [u8; 64] = match sig.as_slice().try_into() {
        Ok(b) => b,
        Err(_) => return false,
    };
    let key = match ed25519_dalek::VerifyingKey::from_bytes(&key_bytes) {
        Ok(k) => k,
        Err(_) => return false,
    };
    let signature = ed25519_dalek::Signature::from_bytes(&sig_bytes);
    key.verify_strict(msg.as_slice(), &signature).is_ok()
}

} // verus!
