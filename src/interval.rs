//! Closed intervals as tree keys, ordered by start and then by end.
use vstd::prelude::*;
use crate::base::Key;

verus! {

/// Two intervals intersect when each starts before the other ends; intervals
/// with the same start always intersect, so that empty intervals act as points.
pub open spec fn intersects_spec(x: KeyInterval, y: KeyInterval) -> bool {
    (x.a < y.b && y.a < x.b) || x.a == y.a
}

/// An interval with ends of type `u64`.
pub trait Interval {
    spec fn spec_a(&self) -> u64;

    spec fn spec_b(&self) -> u64;

    fn a(&self) -> (r: u64)
        ensures
            r == self.spec_a(),
    ;

    fn b(&self) -> (r: u64)
        ensures
            r == self.spec_b(),
    ;
}

/// The interval `[a, b]`, with `a <= b` where the tree holds it.
#[derive(Clone, Copy, Debug, PartialEq, Eq, PartialOrd, Ord, Hash)]
pub struct KeyInterval {
    pub a: u64,
    pub b: u64,
}

impl KeyInterval {
    pub fn new(a: u64, b: u64) -> (r: KeyInterval)
        requires
            a <= b,
        ensures
            r.a == a,
            r.b == b,
    {
        KeyInterval { a, b }
    }

    pub open spec fn valid(self) -> bool {
        self.a <= self.b
    }

    /// Whether the two intervals intersect.
    pub fn intersects(&self, other: &KeyInterval) -> (r: bool)
        ensures
            r == intersects_spec(*self, *other),
    {
        (self.a < other.b && other.a < self.b) || self.a == other.a
    }
}

impl Interval for KeyInterval {
    open spec fn spec_a(&self) -> u64 {
        self.a
    }

    open spec fn spec_b(&self) -> u64 {
        self.b
    }

    fn a(&self) -> (r: u64) {
        self.a
    }

    fn b(&self) -> (r: u64) {
        self.b
    }
}

impl Key for KeyInterval {
    open spec fn le_spec(self, other: KeyInterval) -> bool {
        self.a < other.a || (self.a == other.a && self.b <= other.b)
    }

    fn le_key(&self, other: &KeyInterval) -> (r: bool) {
        self.a < other.a || (self.a == other.a && self.b <= other.b)
    }

    proof fn lemma_total_order(x: KeyInterval, y: KeyInterval, z: KeyInterval) {
    }
}

} // verus!
