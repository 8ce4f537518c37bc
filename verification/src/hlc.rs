//! Hybrid logical clock stamps, the version order of every replicated change.

use vstd::prelude::*;

verus! {

/// A hybrid logical clock stamp: wall-clock milliseconds, then a counter that
/// orders events inside one millisecond.
#[derive(Clone, Copy, Debug, PartialEq, Eq, Structural)]
pub struct Hlc {
    pub physical: u64,
    pub logical: u32,
}

/// The version order of stamps: physical time first, then the counter.
pub open spec fn hlc_lt(a: Hlc, b: Hlc) -> bool {
    a.physical < b.physical || (a.physical == b.physical && a.logical < b.logical)
}

/// The stamp that no other precedes.
pub open spec fn hlc_min() -> Hlc {
    Hlc { physical: 0, logical: 0 }
}

/// The later of two stamps.
pub open spec fn hlc_max(a: Hlc, b: Hlc) -> Hlc {
    if hlc_lt(a, b) {
        b
    } else {
        a
    }
}

impl Hlc {
    /// A stamp from its two parts.
    pub fn new(physical: u64, logical: u32) -> (r: Hlc)
        ensures
            r == (Hlc { physical, logical }),
    {
        Hlc { physical, logical }
    }

    /// The earliest stamp.
    pub fn min() -> (r: Hlc)
        ensures
            r == hlc_min(),
    {
        Hlc { physical: 0, logical: 0 }
    }

    /// Whether this stamp is strictly older than `other`.
    pub fn before(self, other: Hlc) -> (r: bool)
        ensures
            r == hlc_lt(self, other),
    {
        self.physical < other.physical || (self.physical == other.physical && self.logical
            < other.logical)
    }

    /// The later of two stamps.
    pub fn later(self, other: Hlc) -> (r: Hlc)
        ensures
            r == hlc_max(self, other),
    {
        if self.before(other) {
            other
        } else {
            self
        }
    }
}

/// Stamps are totally ordered: of two different stamps exactly one is older,
/// and being older carries over.
pub proof fn stamps_are_totally_ordered(a: Hlc, b: Hlc, c: Hlc)
    ensures
        !hlc_lt(a, a),
        hlc_lt(a, b) ==> !hlc_lt(b, a),
        hlc_lt(a, b) || hlc_lt(b, a) || a == b,
        hlc_lt(a, b) && hlc_lt(b, c) ==> hlc_lt(a, c),
        !hlc_lt(a, hlc_min()),
{
}

} // verus!
