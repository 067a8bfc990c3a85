//! Trust-and-admission core for a confidential-computing network: the
//! registry's runtime-descriptor data model with a canonical byte codec,
//! admission-policy evaluation, staking-threshold resolution, and the
//! key-manager multisig policy verifier.

pub mod codec;
pub mod keys;
pub mod policy;
pub mod registry;
pub mod registry_codec;
pub mod staking;

use vstd::prelude::*;

verus! {

/// Compares two byte vectors for equality of contents.
pub fn bytes_eq(a: &Vec<u8>, b: &Vec<u8>) -> (r: bool)
    ensures
        r == (a@ == b@),
{
    if a.len() != b.len() {
        assert(a@ != b@);
        return false;
    }
    let n: usize = a.len();
    let mut i: usize = 0;
    while i < n
        invariant
            n == a@.len() && n == b@.len(),
            0 <= i <= n,
            forall|j: int| 0 <= j < i ==> a@[j] == b@[j],
        decreases n - i,
    {
        if a[i] != b[i] {
            return false;
        }
        i += 1;
    }
    proof {
        assert(a@ =~= b@);
    }
    true
}

/// Strict lexicographic order on byte strings: the canonical order of
/// byte-string map keys. A strict prefix sorts before its extensions.
pub open spec fn bytes_lt(a: Seq<u8>, b: Seq<u8>) -> bool
    decreases a.len(),
{
    if b.len() == 0 {
        false
    } else if a.len() == 0 {
        true
    } else if a[0] < b[0] {
        true
    } else if a[0] > b[0] {
        false
    } else {
        bytes_lt(a.drop_first(), b.drop_first())
    }
}

/// When the first `i` bytes agree and position `i` decides (by difference
/// or exhaustion), the lexicographic order is what position `i` says.
proof fn lemma_bytes_lt_at(a: Seq<u8>, b: Seq<u8>, i: int)
    requires
        0 <= i <= a.len(),
        i <= b.len(),
        forall|j: int| 0 <= j < i ==> a[j] == b[j],
        i == a.len() || i == b.len() || a[i] != b[i],
    ensures
        bytes_lt(a, b) == if i == b.len() {
            false
        } else if i == a.len() {
            true
        } else {
            a[i] < b[i]
        },
    decreases i,
{
    if i == 0 {
    } else {
        assert(a[0] == b[0]);
        lemma_bytes_lt_at(a.drop_first(), b.drop_first(), i - 1);
    }
}

/// Compares two byte vectors in the canonical lexicographic order.
pub fn bytes_lt_exec(a: &Vec<u8>, b: &Vec<u8>) -> (r: bool)
    ensures
        r == bytes_lt(a@, b@),
{
    let na: usize = a.len();
    let nb: usize = b.len();
    let n: usize = if na < nb {
        na
    } else {
        nb
    };
    let mut i: usize = 0;
    while i < n
        invariant
            na == a@.len() && nb == b@.len(),
            n == if na < nb {
                na
            } else {
                nb
            },
            0 <= i <= n,
            forall|j: int| 0 <= j < i ==> a@[j] == b@[j],
        decreases n - i,
    {
        if a[i] < b[i] {
            proof {
                lemma_bytes_lt_at(a@, b@, i as int);
            }
            return true;
        }
        if a[i] > b[i] {
            proof {
                lemma_bytes_lt_at(a@, b@, i as int);
            }
            return false;
        }
        i += 1;
    }
    proof {
        lemma_bytes_lt_at(a@, b@, n as int);
    }
    na < nb
}

} // verus!
