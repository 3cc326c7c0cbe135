use vstd::prelude::*;

verus! {

/// Index of the parent of `idx` in the implicit heap layout.
pub fn parenti(idx: usize) -> (r: usize)
    requires
        idx > 0,
    ensures
        r == (idx - 1) / 2,
{
    (idx - 1) / 2
}

/// Index of the left child of `idx` in the implicit heap layout.
pub fn lefti(idx: usize) -> (r: usize)
    requires
        idx <= (usize::MAX - 2) / 2,
    ensures
        r == 2 * idx + 1,
{
    2 * idx + 1
}

/// Index of the right child of `idx` in the implicit heap layout.
pub fn righti(idx: usize) -> (r: usize)
    requires
        idx <= (usize::MAX - 2) / 2,
    ensures
        r == 2 * idx + 2,
{
    2 * idx + 2
}

/// A key type with a total order that the tree can compare.
pub trait Key: Copy + Sized {
    /// `self` orders at or before `other`.
    spec fn le_spec(self, other: Self) -> bool;

    fn le_key(&self, other: &Self) -> (r: bool)
        ensures
            r == self.le_spec(*other),
    ;

    /// The order is reflexive, transitive, total and antisymmetric.
    proof fn lemma_total_order(a: Self, b: Self, c: Self)
        ensures
            a.le_spec(a),
            a.le_spec(b) && b.le_spec(c) ==> a.le_spec(c),
            a.le_spec(b) || b.le_spec(a),
            a.le_spec(b) && b.le_spec(a) ==> a == b,
    ;
}

impl Key for u64 {
    open spec fn le_spec(self, other: u64) -> bool {
        self <= other
    }

    fn le_key(&self, other: &u64) -> (r: bool) {
        *self <= *other
    }

    proof fn lemma_total_order(a: u64, b: u64, c: u64) {
    }
}

impl Key for usize {
    open spec fn le_spec(self, other: usize) -> bool {
        self <= other
    }

    fn le_key(&self, other: &usize) -> (r: bool) {
        *self <= *other
    }

    proof fn lemma_total_order(a: usize, b: usize, c: usize) {
    }
}

/// The order facts of `Key`, for all keys at once.
pub proof fn lemma_key_order<K: Key>()
    ensures
        forall|a: K| #[trigger] a.le_spec(a),
        forall|a: K, b: K, c: K| #[trigger] a.le_spec(b) && #[trigger] b.le_spec(c) ==> a.le_spec(c),
        forall|a: K, b: K| #[trigger] a.le_spec(b) || #[trigger] b.le_spec(a),
        forall|a: K, b: K| #[trigger] a.le_spec(b) && #[trigger] b.le_spec(a) ==> a == b,
{
    assert forall|a: K| #[trigger] a.le_spec(a) by {
        K::lemma_total_order(a, a, a);
    }
    assert forall|a: K, b: K, c: K| #[trigger] a.le_spec(b) && #[trigger] b.le_spec(c) implies a.le_spec(c) by {
        K::lemma_total_order(a, b, c);
    }
    assert forall|a: K, b: K| #[trigger] a.le_spec(b) || #[trigger] b.le_spec(a) by {
        K::lemma_total_order(a, b, a);
    }
    assert forall|a: K, b: K| #[trigger] a.le_spec(b) && #[trigger] b.le_spec(a) implies a == b by {
        K::lemma_total_order(a, b, a);
    }
}

/// A per-entry predicate: a filtered bulk operation removes only the entries it accepts.
pub trait ItemFilter<K> {
    spec fn accepts(&self, key: K) -> bool;

    fn accept(&self, key: &K) -> (r: bool)
        ensures
            r == self.accepts(*key),
    ;

    /// Whether this filter accepts every key.
    fn is_noop() -> bool;
}

/// The filter that accepts every key.
#[derive(Clone, Copy, Debug)]
pub struct NoopFilter;

impl<K> ItemFilter<K> for NoopFilter {
    open spec fn accepts(&self, key: K) -> bool {
        true
    }

    fn accept(&self, key: &K) -> (r: bool) {
        true
    }

    fn is_noop() -> bool {
        true
    }
}

} // verus!
