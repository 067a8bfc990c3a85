//! Key-manager policy documents and their multisig verification.
//!
//! A `SignedPolicySGX` wraps an opaque, canonically-encoded policy blob with
//! a list of `(public key, signature)` entries. `verify` accepts the document
//! only when every entry is well formed and cryptographically valid and the
//! number of *distinct trusted* signers reaches the effective threshold.

use vstd::prelude::*;

use crate::codec::put_raw;
use crate::keys::ed25519_valid;
use crate::keys::ed25519_verify;
use crate::keys::PublicKey;
use crate::keys::Signature;

verus! {

/// The threshold that replaces the production one when the unsafe test mode
/// is active.
pub const UNSAFE_MULTISIG_THRESHOLD: usize = 2;

/// A key-manager access policy: an opaque blob, already in its canonical
/// encoding. Its internal schema is not this layer's concern.
#[derive(Debug)]
pub struct PolicySGX {
    pub raw: Vec<u8>,
}

impl Clone for PolicySGX {
    fn clone(&self) -> (r: Self)
        ensures
            r.raw@ == self.raw@,
    {
        PolicySGX { raw: self.raw.clone() }
    }
}

/// One signature entry of a signed policy: the declared signer (absent in a
/// malformed entry) and the signature bytes.
#[derive(Debug)]
pub struct SignatureBundle {
    pub public_key: Option<PublicKey>,
    pub signature: Signature,
}

/// The view of a `SignatureBundle`.
#[verifier::ext_equal]
pub struct SignatureBundleV {
    pub public_key: Option<Seq<u8>>,
    pub signature: Seq<u8>,
}

impl View for SignatureBundle {
    type V = SignatureBundleV;

    open spec fn view(&self) -> SignatureBundleV {
        SignatureBundleV {
            public_key: match self.public_key {
                Some(ref pk) => Some(pk.bytes@),
                None => None,
            },
            signature: self.signature.bytes@,
        }
    }
}

impl Clone for SignatureBundle {
    fn clone(&self) -> (r: Self)
        ensures
            r.public_key is Some <==> self.public_key is Some,
            r.public_key matches Some(pk) ==> pk.bytes@ == self.public_key->0.bytes@,
            r.signature.bytes@ == self.signature.bytes@,
    {
        SignatureBundle {
            public_key: match &self.public_key {
                Some(pk) => Some(pk.clone()),
                None => None,
            },
            signature: self.signature.clone(),
        }
    }
}

/// A policy blob together with the signatures collected over it.
#[derive(Debug)]
pub struct SignedPolicySGX {
    pub policy: PolicySGX,
    pub signatures: Vec<SignatureBundle>,
}

/// Why a policy document was rejected.
#[derive(Clone, Copy, Debug, PartialEq, Eq, Structural)]
pub enum KeyManagerError {
    /// A signature entry is malformed (its public key is missing).
    PolicyInvalid,
    /// A signature failed cryptographic verification.
    PolicyInvalidSignature,
    /// Fewer distinct trusted signers than the effective threshold.
    PolicyInsufficientSignatures,
}

/// The fixed 8-byte domain-separation context under which policies are
/// signed; the ASCII bytes of "EkKmPolS". Signatures made for any other
/// purpose use a different context and never verify here.
pub open spec fn policy_sign_context() -> Seq<u8> {
    seq![0x45u8, 0x6bu8, 0x4bu8, 0x6du8, 0x50u8, 0x6fu8, 0x6cu8, 0x53u8]
}

/// The exact byte string a policy signer signs: the domain-separation
/// context followed by the canonical policy encoding.
pub open spec fn signed_message(policy_raw: Seq<u8>) -> Seq<u8> {
    policy_sign_context() + policy_raw
}

/// An entry is acceptable when it declares a signer and that signer's
/// signature verifies over `msg`.
pub open spec fn entry_ok(e: SignatureBundle, msg: Seq<u8>) -> bool {
    match e.public_key {
        Some(pk) => ed25519_valid(pk.bytes@, msg, e.signature.bytes@),
        None => false,
    }
}

/// Whether entry `e` declares the signer whose key bytes are `k`.
pub open spec fn entry_signer_is(e: SignatureBundle, k: Seq<u8>) -> bool {
    e.public_key matches Some(pk) && pk.bytes@ == k
}

/// Scans the entries in order, fail-fast: the first malformed entry rejects
/// the document as `PolicyInvalid`, the first invalid signature as
/// `PolicyInvalidSignature`; otherwise the set of distinct signer keys.
pub open spec fn scan_signers(sigs: Seq<SignatureBundle>, msg: Seq<u8>) -> Result<
    Set<Seq<u8>>,
    KeyManagerError,
>
    decreases sigs.len(),
{
    if sigs.len() == 0 {
        Ok(Set::empty())
    } else {
        match sigs[0].public_key {
            None => Err(KeyManagerError::PolicyInvalid),
            Some(pk) => {
                if !ed25519_valid(pk.bytes@, msg, sigs[0].signature.bytes@) {
                    Err(KeyManagerError::PolicyInvalidSignature)
                } else {
                    match scan_signers(sigs.drop_first(), msg) {
                        Err(e) => Err(e),
                        Ok(s) => Ok(s.insert(pk.bytes@)),
                    }
                }
            },
        }
    }
}

/// The set of key byte strings held by a vector of public keys.
pub open spec fn pk_set(keys: Seq<PublicKey>) -> Set<Seq<u8>> {
    Set::new(|k: Seq<u8>| exists|i: int| 0 <= i < keys.len() && keys[i].bytes@ == k)
}

/// What `SignedPolicySGX::verify` returns, as a function of the document,
/// the trusted-signer set, the production threshold and the test-mode flag.
pub open spec fn verify_spec(
    sigs: Seq<SignatureBundle>,
    policy_raw: Seq<u8>,
    trusted: Set<Seq<u8>>,
    threshold: usize,
    unsafe_test_mode: bool,
) -> Result<Seq<u8>, KeyManagerError> {
    match scan_signers(sigs, signed_message(policy_raw)) {
        Err(e) => Err(e),
        Ok(signers) => {
            let eff: int = if unsafe_test_mode {
                UNSAFE_MULTISIG_THRESHOLD as int
            } else {
                threshold as int
            };
            if signers.intersect(trusted).len() < eff {
                Err(KeyManagerError::PolicyInsufficientSignatures)
            } else {
                Ok(policy_raw)
            }
        },
    }
}

/// Builds the fixed 8-byte domain-separation context.
pub fn policy_sign_context_bytes() -> (r: Vec<u8>)
    ensures
        r@ == policy_sign_context(),
{
    let mut r: Vec<u8> = Vec::new();
    r.push(0x45);
    r.push(0x6b);
    r.push(0x4b);
    r.push(0x6d);
    r.push(0x50);
    r.push(0x6f);
    r.push(0x6c);
    r.push(0x53);
    proof {
        assert(r@ =~= policy_sign_context());
    }
    r
}

/// Whether `pk`'s bytes occur among `keys`.
fn contains_key(keys: &Vec<PublicKey>, pk: &PublicKey) -> (r: bool)
    ensures
        r == pk_set(keys@).contains(pk.bytes@),
{
    let n = keys.len();
    let mut i: usize = 0;
    while i < n
        invariant
            n == keys@.len(),
            0 <= i <= n,
            forall|j: int| 0 <= j < i ==> keys@[j].bytes@ != pk.bytes@,
        decreases n - i,
    {
        if crate::bytes_eq(&keys[i].bytes, &pk.bytes) {
            assert(pk_set(keys@).contains(pk.bytes@));
            return true;
        }
        i += 1;
    }
    assert(!pk_set(keys@).contains(pk.bytes@));
    false
}

proof fn lemma_scan_err_invalid(sigs: Seq<SignatureBundle>, msg: Seq<u8>, i: int)
    requires
        0 <= i < sigs.len(),
        sigs[i].public_key is None,
        forall|j: int| 0 <= j < i ==> entry_ok(#[trigger] sigs[j], msg),
    ensures
        scan_signers(sigs, msg) == Err::<Set<Seq<u8>>, KeyManagerError>(
            KeyManagerError::PolicyInvalid,
        ),
    decreases i,
{
    if i == 0 {
    } else {
        assert(entry_ok(sigs[0], msg));
        lemma_scan_err_invalid(sigs.drop_first(), msg, i - 1);
    }
}

proof fn lemma_scan_err_badsig(sigs: Seq<SignatureBundle>, msg: Seq<u8>, i: int)
    requires
        0 <= i < sigs.len(),
        sigs[i].public_key matches Some(pk) && !ed25519_valid(pk.bytes@, msg, sigs[i].signature.bytes@),
        forall|j: int| 0 <= j < i ==> entry_ok(#[trigger] sigs[j], msg),
    ensures
        scan_signers(sigs, msg) == Err::<Set<Seq<u8>>, KeyManagerError>(
            KeyManagerError::PolicyInvalidSignature,
        ),
    decreases i,
{
    if i == 0 {
    } else {
        assert(entry_ok(sigs[0], msg));
        lemma_scan_err_badsig(sigs.drop_first(), msg, i - 1);
    }
}

proof fn lemma_scan_ok(sigs: Seq<SignatureBundle>, msg: Seq<u8>)
    requires
        forall|j: int| 0 <= j < sigs.len() ==> entry_ok(#[trigger] sigs[j], msg),
    ensures
        scan_signers(sigs, msg) is Ok,
        forall|k: Seq<u8>|
            scan_signers(sigs, msg)->Ok_0.contains(k) <==> exists|j: int|
                0 <= j < sigs.len() && entry_signer_is(#[trigger] sigs[j], k),
    decreases sigs.len(),
{
    if sigs.len() == 0 {
        assert forall|k: Seq<u8>| !scan_signers(sigs, msg)->Ok_0.contains(k) by {
            assert(!Set::<Seq<u8>>::empty().contains(k));
        }
    } else {
        assert(entry_ok(sigs[0], msg));
        lemma_scan_ok(sigs.drop_first(), msg);
        let rest = sigs.drop_first();
        let pk0 = sigs[0].public_key->0;
        assert forall|k: Seq<u8>|
            scan_signers(sigs, msg)->Ok_0.contains(k) <==> exists|j: int|
                0 <= j < sigs.len() && entry_signer_is(#[trigger] sigs[j], k) by {
            if scan_signers(sigs, msg)->Ok_0.contains(k) {
                if k == pk0.bytes@ {
                    assert(entry_signer_is(sigs[0], k));
                } else {
                    let j = choose|j: int|
                        0 <= j < rest.len() && entry_signer_is(#[trigger] rest[j], k);
                    assert(rest[j] == sigs[j + 1]);
                    assert(entry_signer_is(sigs[j + 1], k));
                }
            }
            if exists|j: int| 0 <= j < sigs.len() && entry_signer_is(#[trigger] sigs[j], k) {
                let j = choose|j: int|
                    0 <= j < sigs.len() && entry_signer_is(#[trigger] sigs[j], k);
                if j == 0 {
                    assert(scan_signers(sigs, msg)->Ok_0.contains(k));
                } else {
                    assert(rest[j - 1] == sigs[j]);
                    assert(entry_signer_is(rest[j - 1], k));
                    assert(scan_signers(rest, msg)->Ok_0.contains(k));
                }
            }
        }
    }
}

impl SignedPolicySGX {
    /// Verifies the signatures over the canonical policy encoding under the
    /// policy domain-separation context and returns the policy when at least
    /// the effective threshold of distinct trusted signers signed it.
    ///
    /// The effective threshold is `UNSAFE_MULTISIG_THRESHOLD` when
    /// `unsafe_test_mode` is set (test deployments only) and `threshold`
    /// otherwise.
    pub fn verify(
        &self,
        trusted_signers: &Vec<PublicKey>,
        threshold: usize,
        unsafe_test_mode: bool,
    ) -> (r: Result<PolicySGX, KeyManagerError>)
        ensures
            r matches Ok(p) ==> verify_spec(
                self.signatures@,
                self.policy.raw@,
                pk_set(trusted_signers@),
                threshold,
                unsafe_test_mode,
            ) == Ok::<Seq<u8>, KeyManagerError>(self.policy.raw@) && p.raw@ == self.policy.raw@,
            r matches Err(e) ==> verify_spec(
                self.signatures@,
                self.policy.raw@,
                pk_set(trusted_signers@),
                threshold,
                unsafe_test_mode,
            ) == Err::<Seq<u8>, KeyManagerError>(e),
    {
        let ghost trusted = pk_set(trusted_signers@);
        // The message every entry must have signed.
        let mut msg = policy_sign_context_bytes();
        put_raw(&mut msg, &self.policy.raw);
        proof {
            assert(msg@ == signed_message(self.policy.raw@));
        }

        let n = self.signatures.len();
        let mut i: usize = 0;
        // Distinct trusted signers seen so far.
        let mut seen: Vec<PublicKey> = Vec::new();
        let ghost mut gs: Set<Seq<u8>> = Set::empty();
        proof {
            broadcast use vstd::set::axiom_set_empty_len;
        }
        while i < n
            invariant
                n == self.signatures@.len(),
                0 <= i <= n,
                msg@ == signed_message(self.policy.raw@),
                trusted == pk_set(trusted_signers@),
                forall|j: int| 0 <= j < i ==> entry_ok(#[trigger] self.signatures@[j], msg@),
                gs.finite(),
                seen@.len() == gs.len(),
                forall|k: Seq<u8>|
                    gs.contains(k) <==> pk_set(seen@).contains(k),
                forall|k: Seq<u8>|
                    gs.contains(k) <==> (trusted.contains(k) && exists|j: int|
                        0 <= j < i && entry_signer_is(#[trigger] self.signatures@[j], k)),
            decreases n - i,
        {
            match &self.signatures[i].public_key {
                None => {
                    proof {
                        lemma_scan_err_invalid(self.signatures@, msg@, i as int);
                    }
                    return Err(KeyManagerError::PolicyInvalid);
                },
                Some(pk) => {
                    if !ed25519_verify(&pk.bytes, &msg, &self.signatures[i].signature.bytes) {
                        proof {
                            lemma_scan_err_badsig(self.signatures@, msg@, i as int);
                        }
                        return Err(KeyManagerError::PolicyInvalidSignature);
                    }
                    let ghost pkb = pk.bytes@;
                    let trusted_here = contains_key(trusted_signers, pk);
                    if trusted_here && !contains_key(&seen, pk) {
                        let ghost seen0 = seen@;
                        let ghost gs0 = gs;
                        seen.push(pk.clone());
                        proof {
                            vstd::set::axiom_set_insert_len(gs0, pkb);
                            gs = gs0.insert(pkb);
                            assert(!gs0.contains(pkb));
                            assert(seen@.len() == gs.len());
                            assert forall|k: Seq<u8>|
                                gs.contains(k) <==> pk_set(seen@).contains(k) by {
                                if gs.contains(k) {
                                    if k == pkb {
                                        assert(seen@[seen0.len() as int].bytes@ == k);
                                        assert(pk_set(seen@).contains(k));
                                    } else {
                                        assert(gs0.contains(k));
                                        let x = choose|x: int|
                                            0 <= x < seen0.len() && (#[trigger] seen0[x]).bytes@
                                                == k;
                                        assert(seen@[x].bytes@ == k);
                                        assert(pk_set(seen@).contains(k));
                                    }
                                }
                                if pk_set(seen@).contains(k) {
                                    let x = choose|x: int|
                                        0 <= x < seen@.len() && (#[trigger] seen@[x]).bytes@ == k;
                                    if x < seen0.len() {
                                        assert(seen0[x].bytes@ == k);
                                        assert(pk_set(seen0).contains(k));
                                        assert(gs0.contains(k));
                                    } else {
                                        assert(k == pkb);
                                        assert(gs.contains(k));
                                    }
                                }
                            }
                        }
                    }
                    proof {
                        assert(entry_ok(self.signatures@[i as int], msg@));
                        assert forall|k: Seq<u8>|
                            gs.contains(k) <==> (trusted.contains(k) && exists|j: int|
                                0 <= j < i + 1 && entry_signer_is(
                                    #[trigger] self.signatures@[j],
                                    k,
                                )) by {
                            if gs.contains(k) {
                                if k == pkb {
                                    assert(trusted_here);
                                    assert(entry_signer_is(self.signatures@[i as int], k));
                                } else {
                                    // Already accounted for by an earlier entry.
                                }
                            }
                            if trusted.contains(k) && (exists|j: int|
                                0 <= j < i + 1 && entry_signer_is(
                                    #[trigger] self.signatures@[j],
                                    k,
                                )) {
                                let j = choose|j: int|
                                    0 <= j < i + 1 && entry_signer_is(
                                        #[trigger] self.signatures@[j],
                                        k,
                                    );
                                if j == i {
                                    assert(k == pkb);
                                    if !trusted_here {
                                        assert(false);
                                    }
                                    assert(gs.contains(k));
                                }
                            }
                        }
                    }
                },
            }
            i += 1;
        }
        proof {
            lemma_scan_ok(self.signatures@, msg@);
            let signers = scan_signers(self.signatures@, msg@)->Ok_0;
            assert(gs =~= signers.intersect(trusted));
        }
        let eff: usize = if unsafe_test_mode {
            UNSAFE_MULTISIG_THRESHOLD
        } else {
            threshold
        };
        if seen.len() < eff {
            return Err(KeyManagerError::PolicyInsufficientSignatures);
        }
        Ok(self.policy.clone())
    }
}

/// The key manager's policy state: either no policy yet, or the active
/// policy it serves under. The only transition is installing the unwrapped
/// policy of a successfully verified document; there is no way back to the
/// empty state.
pub struct KeyManagerState {
    pub active: Option<PolicySGX>,
}

/// The abstract policy state: the canonical bytes of the active policy, if any.
pub open spec fn state_view(s: KeyManagerState) -> Option<Seq<u8>> {
    match s.active {
        Some(p) => Some(p.raw@),
        None => None,
    }
}

impl KeyManagerState {
    /// A fresh key manager serves no policy.
    pub fn new() -> (r: Self)
        ensures
            state_view(r) is None,
    {
        KeyManagerState { active: None }
    }

    /// Ingests a signed policy document: a document that verifies fully
    /// replaces the active policy; a rejected document leaves it unchanged.
    pub fn ingest(
        &mut self,
        doc: &SignedPolicySGX,
        trusted_signers: &Vec<PublicKey>,
        threshold: usize,
        unsafe_test_mode: bool,
    ) -> (r: Result<(), KeyManagerError>)
        ensures
            r matches Ok(()) ==> verify_spec(
                doc.signatures@,
                doc.policy.raw@,
                pk_set(trusted_signers@),
                threshold,
                unsafe_test_mode,
            ) == Ok::<Seq<u8>, KeyManagerError>(doc.policy.raw@) && state_view(*final(self))
                == Some(doc.policy.raw@),
            r matches Err(e) ==> verify_spec(
                doc.signatures@,
                doc.policy.raw@,
                pk_set(trusted_signers@),
                threshold,
                unsafe_test_mode,
            ) == Err::<Seq<u8>, KeyManagerError>(e) && state_view(*final(self)) == state_view(
                *old(self),
            ),
    {
        match doc.verify(trusted_signers, threshold, unsafe_test_mode) {
            Ok(p) => {
                self.active = Some(p);
                Ok(())
            },
            Err(e) => Err(e),
        }
    }
}

/// A document carrying no signatures at all is always rejected for
/// insufficient signatures: the empty signer set cannot reach a positive
/// effective threshold.
pub proof fn lemma_no_signatures_rejected(
    policy_raw: Seq<u8>,
    trusted: Set<Seq<u8>>,
    threshold: usize,
    unsafe_test_mode: bool,
)
    requires
        threshold > 0,
    ensures
        verify_spec(Seq::empty(), policy_raw, trusted, threshold, unsafe_test_mode) == Err::<
            Seq<u8>,
            KeyManagerError,
        >(KeyManagerError::PolicyInsufficientSignatures),
{
    broadcast use vstd::set::axiom_set_empty_len;

    let s = Set::<Seq<u8>>::empty();
    assert(s.intersect(trusted) =~= s);
}

/// A document with a malformed entry (one that declares no public key) is
/// wholly rejected as `PolicyInvalid`, whatever the other entries carry,
/// provided no entry before it already fails signature verification.
pub proof fn lemma_malformed_entry_rejects(
    sigs: Seq<SignatureBundle>,
    policy_raw: Seq<u8>,
    trusted: Set<Seq<u8>>,
    threshold: usize,
    unsafe_test_mode: bool,
    i: int,
)
    requires
        0 <= i < sigs.len(),
        sigs[i].public_key is None,
        forall|j: int|
            0 <= j < sigs.len() && j != i ==> entry_ok(
                #[trigger] sigs[j],
                signed_message(policy_raw),
            ),
    ensures
        verify_spec(sigs, policy_raw, trusted, threshold, unsafe_test_mode) == Err::<
            Seq<u8>,
            KeyManagerError,
        >(KeyManagerError::PolicyInvalid),
{
    lemma_scan_err_invalid(sigs, signed_message(policy_raw), i);
}

/// Appending a further valid signature from a signer who already signed the
/// document changes nothing: duplicate signatures never increase the
/// distinct-signer count, so they can never substitute for another trusted
/// signer.
pub proof fn lemma_duplicate_signer_does_not_count(
    sigs: Seq<SignatureBundle>,
    extra: SignatureBundle,
    policy_raw: Seq<u8>,
    trusted: Set<Seq<u8>>,
    threshold: usize,
    unsafe_test_mode: bool,
    k: Seq<u8>,
)
    requires
        forall|j: int|
            0 <= j < sigs.len() ==> entry_ok(#[trigger] sigs[j], signed_message(policy_raw)),
        entry_ok(extra, signed_message(policy_raw)),
        entry_signer_is(extra, k),
        exists|j: int| 0 <= j < sigs.len() && entry_signer_is(#[trigger] sigs[j], k),
    ensures
        verify_spec(sigs.push(extra), policy_raw, trusted, threshold, unsafe_test_mode)
            == verify_spec(sigs, policy_raw, trusted, threshold, unsafe_test_mode),
{
    let msg = signed_message(policy_raw);
    let ext = sigs.push(extra);
    assert(forall|j: int| 0 <= j < ext.len() ==> entry_ok(#[trigger] ext[j], msg)) by {
        assert(forall|j: int| 0 <= j < sigs.len() ==> ext[j] == sigs[j]);
        assert(ext[sigs.len() as int] == extra);
    }
    lemma_scan_ok(sigs, msg);
    lemma_scan_ok(ext, msg);
    let s1 = scan_signers(sigs, msg)->Ok_0;
    let s2 = scan_signers(ext, msg)->Ok_0;
    assert forall|x: Seq<u8>| s1.contains(x) <==> s2.contains(x) by {
        if s1.contains(x) {
            let j = choose|j: int| 0 <= j < sigs.len() && entry_signer_is(#[trigger] sigs[j], x);
            assert(ext[j] == sigs[j]);
            assert(entry_signer_is(ext[j], x));
        }
        if s2.contains(x) {
            let j = choose|j: int| 0 <= j < ext.len() && entry_signer_is(#[trigger] ext[j], x);
            if j < sigs.len() {
                assert(ext[j] == sigs[j]);
                assert(entry_signer_is(sigs[j], x));
            } else {
                assert(ext[j] == extra);
                assert(x == k);
                let w = choose|w: int| 0 <= w < sigs.len() && entry_signer_is(#[trigger] sigs[w], k);
                assert(entry_signer_is(sigs[w], x));
            }
        }
    }
    assert(s1 =~= s2);
}

/// A document whose every entry is signed by one and the same key gathers at
/// most one distinct signer, so it never reaches an effective threshold of
/// two or more.
pub proof fn lemma_single_signer_insufficient(
    sigs: Seq<SignatureBundle>,
    policy_raw: Seq<u8>,
    trusted: Set<Seq<u8>>,
    threshold: usize,
    unsafe_test_mode: bool,
    k: Seq<u8>,
)
    requires
        forall|j: int|
            0 <= j < sigs.len() ==> entry_ok(#[trigger] sigs[j], signed_message(policy_raw)),
        forall|j: int| 0 <= j < sigs.len() ==> entry_signer_is(#[trigger] sigs[j], k),
        (if unsafe_test_mode {
            UNSAFE_MULTISIG_THRESHOLD as int
        } else {
            threshold as int
        }) >= 2,
    ensures
        verify_spec(sigs, policy_raw, trusted, threshold, unsafe_test_mode) == Err::<
            Seq<u8>,
            KeyManagerError,
        >(KeyManagerError::PolicyInsufficientSignatures),
{
    broadcast use vstd::set::axiom_set_empty_len;
    broadcast use vstd::set::axiom_set_insert_len;
    broadcast use vstd::set::axiom_set_insert_finite;

    let msg = signed_message(policy_raw);
    lemma_scan_ok(sigs, msg);
    let signers = scan_signers(sigs, msg)->Ok_0;
    let single = Set::<Seq<u8>>::empty().insert(k);
    assert(signers.intersect(trusted).subset_of(single));
    assert(single.len() == 1);
    vstd::set_lib::lemma_len_subset(signers.intersect(trusted), single);
}

} // verus!
