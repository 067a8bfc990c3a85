use ed25519_dalek::Signer;
use ed25519_dalek::SigningKey;

use registry_core::keys::PublicKey;
use registry_core::keys::Signature;
use registry_core::policy::policy_sign_context_bytes;
use registry_core::policy::KeyManagerError;
use registry_core::policy::KeyManagerState;
use registry_core::policy::PolicySGX;
use registry_core::policy::SignatureBundle;
use registry_core::policy::SignedPolicySGX;

fn signing_key(seed: u8) -> SigningKey {
    SigningKey::from_bytes(&[seed; 32])
}

fn public_key_of(sk: &SigningKey) -> PublicKey {
    PublicKey {
        bytes: sk.verifying_key().to_bytes().to_vec(),
    }
}

fn signed_message(policy_raw: &[u8]) -> Vec<u8> {
    let mut msg = policy_sign_context_bytes();
    msg.extend_from_slice(policy_raw);
    msg
}

fn entry(sk: &SigningKey, policy_raw: &[u8]) -> SignatureBundle {
    let sig = sk.sign(&signed_message(policy_raw));
    SignatureBundle {
        public_key: Some(public_key_of(sk)),
        signature: Signature {
            bytes: sig.to_bytes().to_vec(),
        },
    }
}

fn doc(policy_raw: &[u8], entries: Vec<SignatureBundle>) -> SignedPolicySGX {
    SignedPolicySGX {
        policy: PolicySGX {
            raw: policy_raw.to_vec(),
        },
        signatures: entries,
    }
}

#[test]
fn empty_signature_set_is_insufficient() {
    let a = signing_key(1);
    let trusted = vec![public_key_of(&a)];
    let d = doc(b"policy-content", Vec::new());
    let r = d.verify(&trusted, 1, false);
    assert!(matches!(r, Err(KeyManagerError::PolicyInsufficientSignatures)));
}

#[test]
fn malformed_entry_rejects_whole_document() {
    let a = signing_key(1);
    let b = signing_key(2);
    let raw = b"policy-content";
    let mut entries = vec![entry(&a, raw)];
    entries.push(SignatureBundle {
        public_key: None,
        signature: Signature {
            bytes: vec![0u8; 64],
        },
    });
    entries.push(entry(&b, raw));
    let trusted = vec![public_key_of(&a), public_key_of(&b)];
    let r = doc(raw, entries).verify(&trusted, 1, false);
    assert!(matches!(r, Err(KeyManagerError::PolicyInvalid)));
}

#[test]
fn bad_signature_rejects_whole_document() {
    let a = signing_key(1);
    let raw = b"policy-content";
    let mut e = entry(&a, raw);
    e.signature.bytes[0] ^= 1;
    let trusted = vec![public_key_of(&a)];
    let r = doc(raw, vec![e]).verify(&trusted, 1, false);
    assert!(matches!(r, Err(KeyManagerError::PolicyInvalidSignature)));
}

#[test]
fn duplicate_signatures_do_not_reach_threshold() {
    let a = signing_key(1);
    let b = signing_key(2);
    let c = signing_key(3);
    let raw = b"policy-content";
    let entries = vec![entry(&a, raw), entry(&a, raw)];
    let trusted = vec![public_key_of(&a), public_key_of(&b), public_key_of(&c)];
    let r = doc(raw, entries).verify(&trusted, 2, false);
    assert!(matches!(r, Err(KeyManagerError::PolicyInsufficientSignatures)));
}

#[test]
fn wrong_domain_context_fails_verification() {
    let a = signing_key(1);
    let raw = b"policy-content";
    // Sign the same content under another 8-byte context.
    let mut other_msg = b"EkTxBody".to_vec();
    other_msg.extend_from_slice(raw);
    let sig = a.sign(&other_msg);
    let e = SignatureBundle {
        public_key: Some(public_key_of(&a)),
        signature: Signature {
            bytes: sig.to_bytes().to_vec(),
        },
    };
    let trusted = vec![public_key_of(&a)];
    let r = doc(raw, vec![e]).verify(&trusted, 1, false);
    assert!(matches!(r, Err(KeyManagerError::PolicyInvalidSignature)));
}

#[test]
fn two_of_three_trusted_signers_accept() {
    let a = signing_key(1);
    let b = signing_key(2);
    let c = signing_key(3);
    let raw = b"policy-content";
    let trusted = vec![public_key_of(&a), public_key_of(&b), public_key_of(&c)];

    let r = doc(raw, vec![entry(&a, raw), entry(&b, raw)]).verify(&trusted, 2, false);
    assert_eq!(r.unwrap().raw, raw.to_vec());

    let r = doc(raw, vec![entry(&a, raw)]).verify(&trusted, 2, false);
    assert!(matches!(r, Err(KeyManagerError::PolicyInsufficientSignatures)));

    // An extra untrusted signer changes nothing: A and B still suffice.
    let d = signing_key(9);
    let r = doc(raw, vec![entry(&a, raw), entry(&b, raw), entry(&d, raw)])
        .verify(&trusted, 2, false);
    assert_eq!(r.unwrap().raw, raw.to_vec());
}

#[test]
fn unsafe_test_mode_replaces_threshold() {
    let a = signing_key(1);
    let b = signing_key(2);
    let raw = b"policy-content";
    let trusted = vec![public_key_of(&a), public_key_of(&b)];
    let entries = vec![entry(&a, raw), entry(&b, raw)];
    // Production threshold of 5 cannot be met, but unsafe mode lowers it to 2.
    let r = doc(raw, entries).verify(&trusted, 5, true);
    assert_eq!(r.unwrap().raw, raw.to_vec());
}

#[test]
fn rejected_document_leaves_active_policy_unchanged() {
    let a = signing_key(1);
    let b = signing_key(2);
    let raw = b"policy-one";
    let trusted = vec![public_key_of(&a), public_key_of(&b)];
    let mut km = KeyManagerState::new();
    assert!(km.active.is_none());

    let ok = km.ingest(
        &doc(raw, vec![entry(&a, raw), entry(&b, raw)]),
        &trusted,
        2,
        false,
    );
    assert!(ok.is_ok());
    assert_eq!(km.active.as_ref().unwrap().raw, raw.to_vec());

    let raw2 = b"policy-two";
    let bad = km.ingest(&doc(raw2, vec![entry(&a, raw2)]), &trusted, 2, false);
    assert!(matches!(bad, Err(KeyManagerError::PolicyInsufficientSignatures)));
    assert_eq!(km.active.as_ref().unwrap().raw, raw.to_vec());
}
