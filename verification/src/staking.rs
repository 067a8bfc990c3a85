//! Staking primitives: quantities, addresses, elementary operations and the
//! stake-threshold categories.

use vstd::prelude::*;

verus! {

/// Length in bytes of a staking account address.
pub const ADDRESS_LEN: usize = 21;

/// An arbitrary-precision non-negative staking amount, held as its
/// big-endian magnitude bytes with no leading zero (zero is the empty
/// string). The canonical magnitude form makes equal amounts byte-identical.
#[derive(Debug)]
pub struct Quantity {
    pub bytes: Vec<u8>,
}

/// A canonical magnitude: no leading zero, and short enough for a length
/// prefix.
pub open spec fn quantity_wf(q: Seq<u8>) -> bool {
    (q.len() == 0 || q[0] != 0) && q.len() <= u32::MAX
}

impl Quantity {
    pub open spec fn wf(&self) -> bool {
        quantity_wf(self.bytes@)
    }

    /// The zero amount.
    pub fn zero() -> (r: Self)
        ensures
            r.bytes@ == Seq::<u8>::empty(),
            r.wf(),
    {
        Quantity { bytes: Vec::new() }
    }
}

impl Clone for Quantity {
    fn clone(&self) -> (r: Self)
        ensures
            r.bytes@ == self.bytes@,
    {
        Quantity { bytes: self.bytes.clone() }
    }
}

/// A staking account address: a fixed-length account identifier.
#[derive(Debug)]
pub struct Address {
    pub bytes: Vec<u8>,
}

impl Address {
    pub open spec fn wf(&self) -> bool {
        self.bytes@.len() == ADDRESS_LEN
    }
}

impl Clone for Address {
    fn clone(&self) -> (r: Self)
        ensures
            r.bytes@ == self.bytes@,
    {
        Address { bytes: self.bytes.clone() }
    }
}

/// A stake transfer: a destination and an amount. A pure value object;
/// validity of the operation is the consensus ledger's concern.
#[derive(Debug)]
pub struct Transfer {
    pub to: Address,
    pub amount: Quantity,
}

impl Transfer {
    pub open spec fn wf(&self) -> bool {
        self.to.wf() && self.amount.wf()
    }
}

impl Clone for Transfer {
    fn clone(&self) -> (r: Self)
        ensures
            r.to.bytes@ == self.to.bytes@,
            r.amount.bytes@ == self.amount.bytes@,
    {
        Transfer { to: self.to.clone(), amount: self.amount.clone() }
    }
}

/// A withdrawal from an account: a source and an amount; a pure value object.
#[derive(Debug)]
pub struct Withdraw {
    pub from: Address,
    pub amount: Quantity,
}

impl Withdraw {
    pub open spec fn wf(&self) -> bool {
        self.from.wf() && self.amount.wf()
    }
}

impl Clone for Withdraw {
    fn clone(&self) -> (r: Self)
        ensures
            r.from.bytes@ == self.from.bytes@,
            r.amount.bytes@ == self.amount.bytes@,
    {
        Withdraw { from: self.from.clone(), amount: self.amount.clone() }
    }
}

/// The categories of minimum-stake thresholds, ordered by their codes.
#[derive(Clone, Copy, Debug, PartialEq, Eq, Hash, Structural)]
pub enum ThresholdKind {
    KindEntity,
    KindNodeValidator,
    KindNodeCompute,
    KindNodeStorage,
    KindNodeKeyManager,
    KindRuntimeCompute,
    KindRuntimeKeyManager,
}

/// The canonical code of a threshold kind; also its order as a map key.
pub open spec fn threshold_kind_code(k: ThresholdKind) -> u8 {
    match k {
        ThresholdKind::KindEntity => 0,
        ThresholdKind::KindNodeValidator => 1,
        ThresholdKind::KindNodeCompute => 2,
        ThresholdKind::KindNodeStorage => 3,
        ThresholdKind::KindNodeKeyManager => 4,
        ThresholdKind::KindRuntimeCompute => 5,
        ThresholdKind::KindRuntimeKeyManager => 6,
    }
}

/// Computes the canonical code of a threshold kind.
pub fn kind_code(k: ThresholdKind) -> (r: u8)
    ensures
        r == threshold_kind_code(k),
{
    match k {
        ThresholdKind::KindEntity => 0,
        ThresholdKind::KindNodeValidator => 1,
        ThresholdKind::KindNodeCompute => 2,
        ThresholdKind::KindNodeStorage => 3,
        ThresholdKind::KindNodeKeyManager => 4,
        ThresholdKind::KindRuntimeCompute => 5,
        ThresholdKind::KindRuntimeKeyManager => 6,
    }
}

/// The threshold kind a code denotes, if any.
pub open spec fn threshold_kind_of_code(c: u8) -> Option<ThresholdKind> {
    if c == 0 {
        Some(ThresholdKind::KindEntity)
    } else if c == 1 {
        Some(ThresholdKind::KindNodeValidator)
    } else if c == 2 {
        Some(ThresholdKind::KindNodeCompute)
    } else if c == 3 {
        Some(ThresholdKind::KindNodeStorage)
    } else if c == 4 {
        Some(ThresholdKind::KindNodeKeyManager)
    } else if c == 5 {
        Some(ThresholdKind::KindRuntimeCompute)
    } else if c == 6 {
        Some(ThresholdKind::KindRuntimeKeyManager)
    } else {
        None
    }
}

/// Decodes a threshold-kind code.
pub fn kind_of_code(c: u8) -> (r: Option<ThresholdKind>)
    ensures
        r == threshold_kind_of_code(c),
        r matches Some(k) ==> threshold_kind_code(k) == c,
{
    if c == 0 {
        Some(ThresholdKind::KindEntity)
    } else if c == 1 {
        Some(ThresholdKind::KindNodeValidator)
    } else if c == 2 {
        Some(ThresholdKind::KindNodeCompute)
    } else if c == 3 {
        Some(ThresholdKind::KindNodeStorage)
    } else if c == 4 {
        Some(ThresholdKind::KindNodeKeyManager)
    } else if c == 5 {
        Some(ThresholdKind::KindRuntimeCompute)
    } else if c == 6 {
        Some(ThresholdKind::KindRuntimeKeyManager)
    } else {
        None
    }
}

} // verus!
