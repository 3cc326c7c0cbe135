//! Deletion predicates: which keys a bulk operation selects, and which side of
//! a node the search must still visit.
use vstd::prelude::*;
use crate::base::Key;

verus! {

/// Where a node's key stands relative to the selection.
pub trait TraversalDecision {
    spec fn goes_left(&self) -> bool;

    spec fn goes_right(&self) -> bool;

    /// Entries at or before the key may be selected.
    fn left(&self) -> (r: bool)
        ensures
            r == self.goes_left(),
    ;

    /// Entries at or after the key may be selected.
    fn right(&self) -> (r: bool)
        ensures
            r == self.goes_right(),
    ;

    /// The key itself is selected.
    fn consume(&self) -> (r: bool)
        ensures
            r == (self.goes_left() && self.goes_right()),
    ;
}

#[derive(Clone, Copy, Debug)]
pub struct RangeDecision {
    pub left: bool,
    pub right: bool,
}

impl TraversalDecision for RangeDecision {
    open spec fn goes_left(&self) -> bool {
        self.left
    }

    open spec fn goes_right(&self) -> bool {
        self.right
    }

    fn left(&self) -> (r: bool) {
        self.left
    }

    fn right(&self) -> (r: bool) {
        self.right
    }

    fn consume(&self) -> (r: bool) {
        self.left && self.right
    }
}

/// Decides, key by key, which entries a bulk operation selects.
pub trait TraversalDriver<K: Key> {
    /// The key is selected.
    spec fn selects(&self, k: K) -> bool;

    /// Keys at or before `k` may be selected.
    spec fn spec_left(&self, k: K) -> bool;

    /// Keys at or after `k` may be selected.
    spec fn spec_right(&self, k: K) -> bool;

    fn decide(&self, key: &K) -> (r: RangeDecision)
        ensures
            r.left == self.spec_left(*key),
            r.right == self.spec_right(*key),
    ;

    /// Whether the key is selected.
    fn select(&self, key: &K) -> (r: bool)
        ensures
            r == self.selects(*key),
    ;

    /// The decision is sound: a selected key has both sides open, and a closed
    /// side holds no selected key.
    proof fn lemma_decide(&self, k: K, e: K)
        ensures
            self.selects(k) ==> (self.spec_left(k) && self.spec_right(k)),
            !self.spec_left(k) && e.le_spec(k) ==> !self.selects(e),
            self.spec_left(k) && !self.spec_right(k) && k.le_spec(e) ==> !self.selects(e),
    ;
}

/// `k` lies in the half-open range `[lo, hi)`, or equals `lo`.
pub open spec fn in_range<K: Key>(lo: K, hi: K, k: K) -> bool {
    lo.le_spec(k) && (!hi.le_spec(k) || lo == k)
}

/// Selects the keys of a half-open range; a key equal to the start is always
/// selected, also when the range is empty.
pub struct RangeDriver<K> {
    pub range: std::ops::Range<K>,
}

impl<K: Key> RangeDriver<K> {
    pub fn new(range: std::ops::Range<K>) -> (r: Self)
        ensures
            r.range == range,
    {
        RangeDriver { range }
    }

    pub fn from(&self) -> (r: &K)
        ensures
            *r == self.range.start,
    {
        &self.range.start
    }

    pub fn to(&self) -> (r: &K)
        ensures
            *r == self.range.end,
    {
        &self.range.end
    }
}

impl<K: Key> TraversalDriver<K> for RangeDriver<K> {
    open spec fn selects(&self, k: K) -> bool {
        in_range(self.range.start, self.range.end, k)
    }

    open spec fn spec_left(&self, k: K) -> bool {
        self.range.start.le_spec(k)
    }

    open spec fn spec_right(&self, k: K) -> bool {
        !self.range.end.le_spec(k) || self.range.start == k
    }

    fn decide(&self, key: &K) -> (r: RangeDecision) {
        let left = self.from().le_key(key);
        let at_start = left && key.le_key(self.from());
        let right = !self.to().le_key(key) || at_start;
        proof {
            K::lemma_total_order(self.range.start, *key, *key);
        }
        RangeDecision { left, right }
    }

    fn select(&self, key: &K) -> (r: bool) {
        let d = self.decide(key);
        d.left && d.right
    }

    proof fn lemma_decide(&self, k: K, e: K) {
        let lo = self.range.start;
        let hi = self.range.end;
        K::lemma_total_order(e, k, lo);
        K::lemma_total_order(hi, k, e);
        K::lemma_total_order(lo, k, e);
        K::lemma_total_order(k, e, lo);
        K::lemma_total_order(lo, e, k);
    }
}

/// Selects the keys of a half-open range given by references to its ends; like
/// `RangeDriver`, a key equal to the start is always selected.
pub struct RangeRefDriver<'a, K> {
    pub range: std::ops::Range<&'a K>,
}

impl<'a, K: Key> RangeRefDriver<'a, K> {
    pub fn new(range: std::ops::Range<&'a K>) -> (r: Self)
        ensures
            r.range == range,
    {
        RangeRefDriver { range }
    }

    pub fn from(&self) -> (r: &'a K)
        ensures
            *r == *self.range.start,
    {
        self.range.start
    }

    pub fn to(&self) -> (r: &'a K)
        ensures
            *r == *self.range.end,
    {
        self.range.end
    }
}

impl<'a, K: Key> TraversalDriver<K> for RangeRefDriver<'a, K> {
    open spec fn selects(&self, k: K) -> bool {
        in_range(*self.range.start, *self.range.end, k)
    }

    open spec fn spec_left(&self, k: K) -> bool {
        (*self.range.start).le_spec(k)
    }

    open spec fn spec_right(&self, k: K) -> bool {
        !(*self.range.end).le_spec(k) || *self.range.start == k
    }

    fn decide(&self, key: &K) -> (r: RangeDecision) {
        let left = self.from().le_key(key);
        let at_start = left && key.le_key(self.from());
        let right = !self.to().le_key(key) || at_start;
        proof {
            K::lemma_total_order(*self.range.start, *key, *key);
        }
        RangeDecision { left, right }
    }

    fn select(&self, key: &K) -> (r: bool) {
        let d = self.decide(key);
        d.left && d.right
    }

    proof fn lemma_decide(&self, k: K, e: K) {
        let lo = *self.range.start;
        let hi = *self.range.end;
        K::lemma_total_order(e, k, lo);
        K::lemma_total_order(hi, k, e);
        K::lemma_total_order(lo, k, e);
        K::lemma_total_order(k, e, lo);
        K::lemma_total_order(lo, e, k);
    }
}

} // verus!
