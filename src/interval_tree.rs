//! The interval tree: an implicit search tree of intervals in which every slot
//! also records the largest end point of its subtree.
use vstd::prelude::*;
use crate::base::{ItemFilter, Key, NoopFilter, lefti, righti};
use crate::drivers::{RangeDecision, TraversalDriver};
use crate::interval::{KeyInterval, intersects_spec};
use crate::model::{stable_sorted, 
    bst, depth_measure, entry, has_key, in_sub, inorder, integrity, lemma_filter_none,
    lemma_filter_three, lemma_in_sub_child, lemma_in_sub_root, lemma_sub_seq_in, lemma_unfold, present,
    removes_one, slot, sorted_by_key,
};
use crate::repr::{MAX_ENTRIES, TreeRepr};

verus! {

/// The recorded maximum of the subtree at `i`, or 0 when it is empty.
pub open spec fn sub_max<V>(t: Seq<Option<(KeyInterval, V)>>, mb: Seq<u64>, i: int) -> u64 {
    if present(t, i) && 0 <= i < mb.len() {
        mb[i]
    } else {
        0
    }
}

pub open spec fn max3(x: u64, y: u64, z: u64) -> u64 {
    if x >= y && x >= z {
        x
    } else if y >= z {
        y
    } else {
        z
    }
}

/// Every present slot of the subtree at `i` records the largest of its own end
/// point and the records of its present children.
#[verifier::opaque]
pub open spec fn maxb_ok<V>(t: Seq<Option<(KeyInterval, V)>>, mb: Seq<u64>, i: int) -> bool
    decreases depth_measure(t, i),
{
    if i >= 0 && present(t, i) {
        &&& maxb_ok(t, mb, 2 * i + 1)
        &&& maxb_ok(t, mb, 2 * i + 2)
        &&& i < mb.len()
        &&& mb[i] == max3(entry(t, i).0.b, sub_max(t, mb, 2 * i + 1), sub_max(t, mb, 2 * i + 2))
    } else {
        true
    }
}

/// Every interval of `s` has its start at or before its end.
pub open spec fn all_valid<V>(s: Seq<(KeyInterval, V)>) -> bool {
    forall|j: int| 0 <= j < s.len() ==> (#[trigger] s[j]).0.valid()
}

pub proof fn lemma_maxb_unfold<V>(t: Seq<Option<(KeyInterval, V)>>, mb: Seq<u64>, i: int)
    ensures
        maxb_ok(t, mb, i) == if i >= 0 && present(t, i) {
            &&& maxb_ok(t, mb, 2 * i + 1)
            &&& maxb_ok(t, mb, 2 * i + 2)
            &&& i < mb.len()
            &&& mb[i] == max3(entry(t, i).0.b, sub_max(t, mb, 2 * i + 1), sub_max(t, mb, 2 * i + 2))
        } else {
            true
        },
{
    reveal(maxb_ok);
}

/// Records that match on a subtree keep the subtree's maximum property.
pub proof fn lemma_maxb_frame<V>(t: Seq<Option<(KeyInterval, V)>>, mb1: Seq<u64>, mb2: Seq<u64>, i: int)
    requires
        i >= 0,
        mb1.len() == mb2.len(),
        forall|j: int| in_sub(i, j) && 0 <= j < mb1.len() ==> mb1[j] == mb2[j],
    ensures
        maxb_ok(t, mb1, i) == maxb_ok(t, mb2, i),
    decreases depth_measure(t, i),
{
    lemma_maxb_unfold(t, mb1, i);
    lemma_maxb_unfold(t, mb2, i);
    assert(in_sub(i, i));
    if present(t, i) {
        assert forall|j: int| in_sub(2 * i + 1, j) && 0 <= j < mb1.len() implies mb1[j] == mb2[j] by {
            lemma_in_sub_child(i, j);
        }
        assert forall|j: int| in_sub(2 * i + 2, j) && 0 <= j < mb1.len() implies mb1[j] == mb2[j] by {
            lemma_in_sub_child(i, j);
        }
        lemma_maxb_frame(t, mb1, mb2, 2 * i + 1);
        lemma_maxb_frame(t, mb1, mb2, 2 * i + 2);
        assert(in_sub(i, 2 * i + 1) && in_sub(i, 2 * i + 2)) by {
            lemma_in_sub_child(i, 2 * i + 1);
            lemma_in_sub_child(i, 2 * i + 2);
            assert(in_sub(2 * i + 1, 2 * i + 1));
            assert(in_sub(2 * i + 2, 2 * i + 2));
        }
    }
}

/// The record of a present slot bounds every end point of its subtree.
pub proof fn lemma_maxb_bound<V>(t: Seq<Option<(KeyInterval, V)>>, mb: Seq<u64>, i: int)
    requires
        i >= 0,
        maxb_ok(t, mb, i),
    ensures
        forall|j: int| 0 <= j < inorder(t, i).len() ==> (#[trigger] inorder(t, i)[j]).0.b <= sub_max(t, mb, i),
    decreases depth_measure(t, i),
{
    lemma_maxb_unfold(t, mb, i);
    lemma_unfold(t, i);
    if present(t, i) {
        lemma_maxb_bound(t, mb, 2 * i + 1);
        lemma_maxb_bound(t, mb, 2 * i + 2);
        let l = inorder(t, 2 * i + 1);
        let r = inorder(t, 2 * i + 2);
        let s = inorder(t, i);
        assert forall|j: int| 0 <= j < s.len() implies (#[trigger] s[j]).0.b <= sub_max(t, mb, i) by {
            if j < l.len() {
                assert(s[j] == l[j]);
            } else if j > l.len() {
                assert(s[j] == r[j - l.len() - 1]);
            }
        }
    }
}

/// The record property of the whole tree holds at every present slot.
proof fn lemma_maxb_path<V>(t: Seq<Option<(KeyInterval, V)>>, mb: Seq<u64>, j: int)
    requires
        integrity(t),
        maxb_ok(t, mb, 0),
        present(t, j),
        j >= 0,
    ensures
        maxb_ok(t, mb, j),
    decreases j,
{
    if j > 0 {
        let p = (j - 1) / 2;
        assert(t[j] is Some);
        lemma_maxb_path(t, mb, p);
        lemma_maxb_unfold(t, mb, p);
    }
}

/// The recursive record property at the root gives it at every occupied slot.
proof fn lemma_law_from_root<V>(t: Seq<Option<(KeyInterval, V)>>, mb: Seq<u64>)
    requires
        integrity(t),
        maxb_ok(t, mb, 0),
    ensures
        forall|i: int| 0 <= i < t.len() ==> #[trigger] maxb_holds(t, mb, i),
{
    assert forall|i: int| 0 <= i < t.len() implies #[trigger] maxb_holds(t, mb, i) by {
        if present(t, i) {
            lemma_maxb_path(t, mb, i);
            lemma_maxb_unfold(t, mb, i);
        }
    }
}

/// At an occupied slot `i` the record is the largest of the slot's own end
/// point and the records of its occupied children.
pub open spec fn maxb_holds<V>(t: Seq<Option<(KeyInterval, V)>>, mb: Seq<u64>, i: int) -> bool {
    present(t, i) ==> mb[i] == max3(entry(t, i).0.b, sub_max(t, mb, 2 * i + 1), sub_max(t, mb, 2 * i + 2))
}

/// At every occupied slot the record is the largest of the slot's own end point
/// and the records of its occupied children.
pub proof fn lemma_maxb_at<V: Copy>(tree: &IvTree<V>, i: int)
    requires
        tree.wf(),
        i >= 0,
        present(tree.repr.data@, i),
    ensures
        tree.maxb@[i] == max3(
            entry(tree.repr.data@, i).0.b,
            sub_max(tree.repr.data@, tree.maxb@, 2 * i + 1),
            sub_max(tree.repr.data@, tree.maxb@, 2 * i + 2),
        ),
{
    lemma_maxb_path(tree.repr.data@, tree.maxb@, i);
    lemma_maxb_unfold(tree.repr.data@, tree.maxb@, i);
}

/// An overlap deletion of `s` that emits `out` and leaves `rest` emits only
/// intervals that intersect the query, and leaves none that does.
pub proof fn lemma_overlap_complete<V>(s: Seq<(KeyInterval, V)>, query: KeyInterval, out: Seq<(KeyInterval, V)>, rest: Seq<(KeyInterval, V)>)
    requires
        out == s.filter(|e: (KeyInterval, V)| intersects_spec(e.0, query)),
        rest == s.filter(|e: (KeyInterval, V)| !intersects_spec(e.0, query)),
    ensures
        forall|j: int| 0 <= j < out.len() ==> intersects_spec((#[trigger] out[j]).0, query),
        forall|j: int| 0 <= j < rest.len() ==> !intersects_spec((#[trigger] rest[j]).0, query),
{
    let f = |e: (KeyInterval, V)| intersects_spec(e.0, query);
    let g = |e: (KeyInterval, V)| !intersects_spec(e.0, query);
    assert forall|j: int| 0 <= j < out.len() implies intersects_spec((#[trigger] out[j]).0, query) by {
        s.lemma_filter_pred(f, j);
    }
    assert forall|j: int| 0 <= j < rest.len() implies !intersects_spec((#[trigger] rest[j]).0, query) by {
        s.lemma_filter_pred(g, j);
    }
}

/// A filter keeps valid intervals valid.
pub proof fn lemma_filter_valid<V>(s: Seq<(KeyInterval, V)>, f: spec_fn((KeyInterval, V)) -> bool)
    requires
        all_valid(s),
    ensures
        all_valid(s.filter(f)),
    decreases s.len(),
{
    reveal(Seq::filter);
    if s.len() > 0 {
        lemma_filter_valid(s.drop_last(), f);
    }
}

/// An implicit interval tree holding values of type `V`.
#[derive(Clone, Debug)]
pub struct IvTree<V> {
    pub repr: TreeRepr<KeyInterval, V>,
    pub maxb: Vec<u64>,
}

impl<V: Copy> View for IvTree<V> {
    type V = Seq<(KeyInterval, V)>;

    /// The entries in key order.
    open spec fn view(&self) -> Seq<(KeyInterval, V)> {
        self.repr@
    }
}

/// Selects the intervals that intersect `query`. Where the query ends at or
/// before a key's start (and does not share it), the key and everything after
/// it lie outside, so the descent skips the right subtree.
#[derive(Clone, Copy, Debug)]
pub struct OverlapDriver {
    pub query: KeyInterval,
}

impl TraversalDriver<KeyInterval> for OverlapDriver {
    open spec fn selects(&self, k: KeyInterval) -> bool {
        intersects_spec(k, self.query)
    }

    open spec fn spec_left(&self, k: KeyInterval) -> bool {
        true
    }

    open spec fn spec_right(&self, k: KeyInterval) -> bool {
        !(self.query.a <= self.query.b && self.query.b <= k.a && k.a != self.query.a)
    }

    fn decide(&self, key: &KeyInterval) -> (r: RangeDecision) {
        let q = self.query;
        RangeDecision { left: true, right: !(q.a <= q.b && q.b <= key.a && key.a != q.a) }
    }

    fn select(&self, key: &KeyInterval) -> (r: bool) {
        key.intersects(&self.query)
    }

    proof fn lemma_decide(&self, k: KeyInterval, e: KeyInterval) {
    }
}

impl<V: Copy> IvTree<V> {
    pub open spec fn wf(&self) -> bool {
        &&& self.repr.wf()
        &&& self.maxb@.len() == self.repr.data@.len()
        &&& maxb_ok(self.repr.data@, self.maxb@, 0)
        &&& self.maxb_law()
        &&& all_valid(self@)
    }

    /// At every occupied slot the record is the largest of the slot's own end
    /// point and the records of its occupied children.
    pub open spec fn maxb_law(&self) -> bool {
        forall|i: int| 0 <= i < self.repr.data@.len() ==> #[trigger] maxb_holds(self.repr.data@, self.maxb@, i)
    }

    /// Records, bottom up, the largest end point of each subtree below `idx`.
    fn fill_maxb(repr: &TreeRepr<KeyInterval, V>, mb: &mut Vec<u64>, idx: usize) -> (r: u64)
        requires
            repr.wf(),
            old(mb)@.len() == repr.data@.len(),
        ensures
            final(mb)@.len() == old(mb)@.len(),
            maxb_ok(repr.data@, final(mb)@, idx as int),
            r == sub_max(repr.data@, final(mb)@, idx as int),
            forall|j: int| !in_sub(idx as int, j) && 0 <= j < final(mb)@.len() ==> final(mb)@[j] == old(mb)@[j],
        decreases depth_measure(repr.data@, idx as int),
    {
        let ghost t = repr.data@;
        proof {
            lemma_maxb_unfold(t, mb@, idx as int);
        }
        if repr.is_nil(idx) {
            return 0;
        }
        let lm = Self::fill_maxb(repr, mb, lefti(idx));
        let ghost mb1 = mb@;
        let rm = Self::fill_maxb(repr, mb, righti(idx));
        let ghost mb2 = mb@;
        let b = repr.key(idx).b;
        let m = if b >= lm && b >= rm {
            b
        } else if lm >= rm {
            lm
        } else {
            rm
        };
        mb.set(idx, m);
        proof {
            let mb3 = mb@;
            lemma_in_sub_child(idx as int, idx as int);
            assert forall|j: int| in_sub(2 * idx + 1, j) && 0 <= j < mb1.len() implies mb1[j] == mb2[j] by {
                lemma_in_sub_child(idx as int, j);
            }
            lemma_maxb_frame(t, mb1, mb2, 2 * idx + 1);
            assert forall|j: int| in_sub(2 * idx + 1, j) && 0 <= j < mb2.len() implies mb2[j] == mb3[j] by {
                lemma_in_sub_child(idx as int, j);
            }
            assert forall|j: int| in_sub(2 * idx + 2, j) && 0 <= j < mb2.len() implies mb2[j] == mb3[j] by {
                lemma_in_sub_child(idx as int, j);
            }
            lemma_maxb_frame(t, mb2, mb3, 2 * idx + 1);
            lemma_maxb_frame(t, mb2, mb3, 2 * idx + 2);
            assert(in_sub(2 * idx + 1, 2 * idx + 1));
            assert(in_sub(2 * idx + 2, 2 * idx + 2));
            assert(lm == sub_max(t, mb3, 2 * idx + 1));
            assert(rm == sub_max(t, mb3, 2 * idx + 2));
            lemma_maxb_unfold(t, mb3, idx as int);
            assert forall|j: int| !in_sub(idx as int, j) && 0 <= j < mb3.len() implies mb3[j] == old(mb)@[j] by {
                lemma_in_sub_child(idx as int, j);
            }
        }
        m
    }

    /// Recomputes every record from the entries.
    fn init_maxb(&mut self)
        requires
            old(self).repr.wf(),
            all_valid(old(self).repr@),
        ensures
            final(self).wf(),
            final(self).repr == old(self).repr,
    {
        let n = self.repr.data.len();
        let mut mb: Vec<u64> = Vec::new();
        while mb.len() < n
            invariant
                mb@.len() <= n,
                n == self.repr.data@.len(),
            decreases n - mb@.len(),
        {
            mb.push(0);
        }
        Self::fill_maxb(&self.repr, &mut mb, 0);
        self.maxb = mb;
        proof {
            lemma_law_from_root(self.repr.data@, self.maxb@);
        }
    }

    /// Recomputes every record from the entries, in the existing storage.
    fn refresh_maxb(&mut self)
        requires
            old(self).repr.wf(),
            all_valid(old(self).repr@),
            old(self).maxb@.len() == old(self).repr.data@.len(),
        ensures
            final(self).wf(),
            final(self).repr == old(self).repr,
    {
        Self::fill_maxb(&self.repr, &mut self.maxb, 0);
        proof {
            lemma_law_from_root(self.repr.data@, self.maxb@);
        }
    }

    pub fn with_repr(repr: TreeRepr<KeyInterval, V>) -> (r: Self)
        requires
            repr.wf(),
            all_valid(repr@),
        ensures
            r.wf(),
            r.repr == repr,
    {
        let mut t = IvTree { repr, maxb: Vec::new() };
        t.init_maxb();
        t
    }

    /// Builds a tree from intervals in any order.
    pub fn new(items: Vec<(KeyInterval, V)>) -> (r: Self)
        requires
            items@.len() <= MAX_ENTRIES,
            all_valid(items@),
        ensures
            r.wf(),
            stable_sorted(r@, items@),
            r@.to_multiset() == items@.to_multiset(),
    {
        broadcast use vstd::seq_lib::group_to_multiset_ensures;
        let repr = TreeRepr::new(items);
        assert forall|j: int| 0 <= j < repr@.len() implies (#[trigger] repr@[j]).0.valid() by {
            assert(repr@.contains(repr@[j]));
            vstd::seq_lib::to_multiset_contains(repr@, repr@[j]);
            vstd::seq_lib::to_multiset_contains(items@, repr@[j]);
            assert(items@.contains(repr@[j]));
        }
        Self::with_repr(repr)
    }

    /// Builds a tree from intervals sorted by key.
    pub fn with_sorted(items: Vec<(KeyInterval, V)>) -> (r: Self)
        requires
            sorted_by_key(items@),
            items@.len() <= MAX_ENTRIES,
            all_valid(items@),
        ensures
            r.wf(),
            r@ == items@,
    {
        Self::with_repr(TreeRepr::with_sorted(items))
    }

    /// Removes one entry whose interval is `query` and returns its value.
    pub fn delete(&mut self, query: &KeyInterval) -> (r: Option<V>)
        requires
            old(self).wf(),
        ensures
            final(self).wf(),
            r is None <==> !has_key(old(self)@, *query),
            r is None ==> final(self)@ == old(self)@,
            r is Some ==> removes_one(old(self)@, final(self)@, *query, r->Some_0),
            final(self).repr.data@.len() == old(self).repr.data@.len(),
    {
        let ghost before = self.repr@;
        let r = self.repr.delete(query);
        proof {
            if r is Some {
                let i = choose|i: int| 0 <= i < before.len() && before[i] == (*query, r->Some_0) && self.repr@ == before.remove(i);
                assert forall|j: int| 0 <= j < self.repr@.len() implies (#[trigger] self.repr@[j]).0.valid() by {
                    if j < i {
                        assert(self.repr@[j] == before[j]);
                    } else {
                        assert(self.repr@[j] == before[j + 1]);
                    }
                }
            }
        }
        self.refresh_maxb();
        r
    }

    /// Removes every entry whose interval intersects `query` and that `filter`
    /// accepts, appending them to `output` in key order.
    pub fn filter_overlap<Flt: ItemFilter<KeyInterval>>(&mut self, query: &KeyInterval, filter: Flt, output: &mut Vec<(KeyInterval, V)>)
        requires
            old(self).wf(),
        ensures
            final(self).wf(),
            final(output)@ == old(output)@ + old(self)@.filter(|e: (KeyInterval, V)| intersects_spec(e.0, *query) && filter.accepts(e.0)),
            final(self)@ == old(self)@.filter(|e: (KeyInterval, V)| !(intersects_spec(e.0, *query) && filter.accepts(e.0))),
            final(output)@.len() - old(output)@.len() + final(self)@.len() == old(self)@.len(),
            final(self).repr.data@.len() == old(self).repr.data@.len(),
    {
        let drv = OverlapDriver { query: *query };
        let ghost before = self.repr@;
        self.repr.filter_with_driver(&drv, &filter, output);
        proof {
            lemma_filter_valid(before, |e: (KeyInterval, V)| !(drv.selects(e.0) && filter.accepts(e.0)));
        }
        self.refresh_maxb();
        assert((|e: (KeyInterval, V)| drv.selects(e.0) && filter.accepts(e.0)) =~= (|e: (KeyInterval, V)| intersects_spec(e.0, *query) && filter.accepts(e.0)));
        assert((|e: (KeyInterval, V)| !(drv.selects(e.0) && filter.accepts(e.0))) =~= (|e: (KeyInterval, V)| !(intersects_spec(e.0, *query) && filter.accepts(e.0))));
    }

    /// Removes every entry whose interval intersects `query`, appending them to
    /// `output` in key order.
    pub fn delete_overlap(&mut self, query: &KeyInterval, output: &mut Vec<(KeyInterval, V)>)
        requires
            old(self).wf(),
        ensures
            final(self).wf(),
            final(output)@ == old(output)@ + old(self)@.filter(|e: (KeyInterval, V)| intersects_spec(e.0, *query)),
            final(self)@ == old(self)@.filter(|e: (KeyInterval, V)| !intersects_spec(e.0, *query)),
            final(output)@.len() - old(output)@.len() + final(self)@.len() == old(self)@.len(),
            final(self).repr.data@.len() == old(self).repr.data@.len(),
    {
        self.filter_overlap(query, NoopFilter, output);
        assert((|e: (KeyInterval, V)| intersects_spec(e.0, *query) && NoopFilter.accepts(e.0)) =~= (|e: (KeyInterval, V)| intersects_spec(e.0, *query)));
        assert((|e: (KeyInterval, V)| !(intersects_spec(e.0, *query) && NoopFilter.accepts(e.0))) =~= (|e: (KeyInterval, V)| !intersects_spec(e.0, *query)));
    }

    /// Appends to `sink`, in key order, the entries of the subtree at `idx` whose
    /// interval intersects `query`, skipping subtrees that end before it starts.
    #[verifier::spinoff_prover]
    #[verifier::rlimit(100)]
    pub fn query_overlap_rec(&self, idx: usize, query: &KeyInterval, sink: &mut Vec<(KeyInterval, V)>)
        requires
            self.wf(),
            query.valid(),
            bst(self.repr.data@, idx as int),
            maxb_ok(self.repr.data@, self.maxb@, idx as int),
        ensures
            final(sink)@ == old(sink)@ + inorder(self.repr.data@, idx as int).filter(|e: (KeyInterval, V)| intersects_spec(e.0, *query)),
        decreases depth_measure(self.repr.data@, idx as int),
    {
        let ghost t = self.repr.data@;
        let ghost f = |e: (KeyInterval, V)| intersects_spec(e.0, *query);
        proof {
            lemma_unfold(t, idx as int);
            lemma_maxb_unfold(t, self.maxb@, idx as int);
        }
        if self.repr.is_nil(idx) {
            proof {
                lemma_filter_none(inorder(t, idx as int), f);
            }
            assert(final(sink)@ =~= old(sink)@ + inorder(t, idx as int).filter(f));
            return;
        }
        let k = *self.repr.key(idx);
        let ghost l = inorder(t, 2 * idx + 1);
        let ghost r = inorder(t, 2 * idx + 2);
        let ghost e = self.repr.spec_entry(idx as int);
        let ghost s = inorder(t, idx as int);
        proof {
            lemma_filter_three(l, e, r, f);
            lemma_in_sub_root(idx as int);
            assert forall|j: int| 0 <= j < s.len() implies (#[trigger] s[j]).0.valid() by {
                lemma_sub_seq_in(t, 0, idx as int, s[j]);
            }
        }
        if self.maxb[idx] < query.a {
            proof {
                lemma_maxb_bound(t, self.maxb@, idx as int);
                assert forall|j: int| 0 <= j < s.len() implies !f(#[trigger] s[j]) by {
                }
                lemma_filter_none(s, f);
            }
            assert(final(sink)@ =~= old(sink)@ + inorder(t, idx as int).filter(f));
        } else if query.b <= k.a && k.a != query.a {
            self.query_overlap_rec(lefti(idx), query, sink);
            proof {
                assert(l.len() < s.len());
                assert(!f(e));
                assert forall|j: int| 0 <= j < r.len() implies !f(#[trigger] r[j]) by {
                    assert(s[l.len() + 1 + j] == r[j]);
                }
                lemma_filter_none(r, f);
            }
            assert(final(sink)@ =~= old(sink)@ + inorder(t, idx as int).filter(f));
        } else {
            self.query_overlap_rec(lefti(idx), query, sink);
            if k.intersects(query) {
                sink.push(*self.repr.node(idx));
            }
            self.query_overlap_rec(righti(idx), query, sink);
            assert(final(sink)@ =~= old(sink)@ + inorder(t, idx as int).filter(f));
        }
    }

    /// Appends to `sink`, in key order, the entries whose interval intersects
    /// `query`; the tree is unchanged.
    pub fn query_overlap(&self, query: &KeyInterval, sink: &mut Vec<(KeyInterval, V)>)
        requires
            self.wf(),
            query.valid(),
        ensures
            final(sink)@ == old(sink)@ + self@.filter(|e: (KeyInterval, V)| intersects_spec(e.0, *query)),
    {
        self.query_overlap_rec(0, query, sink);
    }

    /// Whether an entry with interval `query` is present.
    pub fn contains(&self, query: &KeyInterval) -> (r: bool)
        requires
            self.wf(),
        ensures
            r == has_key(self@, *query),
    {
        self.repr.contains(query)
    }

    /// The number of entries.
    pub fn size(&self) -> (r: usize)
        requires
            self.wf(),
        ensures
            r == self@.len(),
    {
        self.repr.size()
    }

    /// Drops every entry; the storage keeps its capacity.
    pub fn clear(&mut self)
        requires
            old(self).wf(),
        ensures
            final(self).wf(),
            final(self)@.len() == 0,
            final(self).repr.data@.len() == old(self).repr.data@.len(),
    {
        self.repr.clear();
        proof {
            lemma_maxb_unfold(self.repr.data@, self.maxb@, 0);
            lemma_unfold(self.repr.data@, 0);
            assert forall|i: int| 0 <= i < self.repr.data@.len() implies #[trigger] maxb_holds(self.repr.data@, self.maxb@, i) by {
                assert(self.repr.data@[i] is None);
            }
        }
    }

    /// Restores the contents of `master` into this emptied tree of equal capacity.
    pub fn refill(&mut self, master: &Self)
        requires
            old(self).wf(),
            master.wf(),
            old(self)@.len() == 0,
            old(self).repr.data@.len() == master.repr.data@.len(),
        ensures
            final(self).wf(),
            final(self).repr.data@ == master.repr.data@,
            final(self).maxb@ == master.maxb@,
            final(self)@ == master@,
    {
        self.repr.refill(&master.repr);
        let n = master.maxb.len();
        let mut i: usize = 0;
        while i < n
            invariant
                n == master.maxb@.len(),
                self.repr.wf(),
                master.wf(),
                self.repr.data@ == master.repr.data@,
                self.maxb@.len() == n,
                i <= n,
                forall|j: int| 0 <= j < i ==> self.maxb@[j] == master.maxb@[j],
            decreases n - i,
        {
            self.maxb.set(i, master.maxb[i]);
            i = i + 1;
        }
        assert(self.maxb@ =~= master.maxb@);
    }

    /// All entries, in key order.
    pub fn to_vec(&self) -> (r: Vec<(KeyInterval, V)>)
        requires
            self.wf(),
        ensures
            r@ == self@,
    {
        self.repr.to_vec()
    }
}

/// Runs one bulk operation on an interval tree with a fixed filter.
pub struct IvWorker<V, Flt> {
    pub tree: IvTree<V>,
    pub filter: Flt,
}

impl<V: Copy, Flt: ItemFilter<KeyInterval>> IvWorker<V, Flt> {
    pub fn new(tree: IvTree<V>, filter: Flt) -> (r: Self)
        ensures
            r.tree == tree,
            r.filter == filter,
    {
        IvWorker { tree, filter }
    }

    /// Removes one entry whose interval is `query` and returns its value.
    pub fn delete(&mut self, query: &KeyInterval) -> (r: Option<V>)
        requires
            old(self).tree.wf(),
        ensures
            final(self).tree.wf(),
            r is None <==> !has_key(old(self).tree@, *query),
            r is None ==> final(self).tree@ == old(self).tree@,
            r is Some ==> removes_one(old(self).tree@, final(self).tree@, *query, r->Some_0),
            final(self).tree.repr.data@.len() == old(self).tree.repr.data@.len(),
    {
        self.tree.delete(query)
    }

    /// Removes the entries whose interval intersects `query` and that the
    /// filter accepts, appending them to `output` in key order.
    pub fn filter_overlap(&mut self, query: &KeyInterval, output: &mut Vec<(KeyInterval, V)>)
        requires
            old(self).tree.wf(),
        ensures
            final(self).tree.wf(),
            final(output)@ == old(output)@ + old(self).tree@.filter(|e: (KeyInterval, V)| intersects_spec(e.0, *query) && old(self).filter.accepts(e.0)),
            final(self).tree@ == old(self).tree@.filter(|e: (KeyInterval, V)| !(intersects_spec(e.0, *query) && old(self).filter.accepts(e.0))),
            final(self).tree.repr.data@.len() == old(self).tree.repr.data@.len(),
    {
        let drv = OverlapDriver { query: *query };
        let ghost before = self.tree.repr@;
        let ghost f0 = self.filter;
        self.tree.repr.filter_with_driver(&drv, &self.filter, output);
        proof {
            lemma_filter_valid(before, |e: (KeyInterval, V)| !(drv.selects(e.0) && f0.accepts(e.0)));
        }
        self.tree.refresh_maxb();
        assert((|e: (KeyInterval, V)| drv.selects(e.0) && f0.accepts(e.0)) =~= (|e: (KeyInterval, V)| intersects_spec(e.0, *query) && f0.accepts(e.0)));
        assert((|e: (KeyInterval, V)| !(drv.selects(e.0) && f0.accepts(e.0))) =~= (|e: (KeyInterval, V)| !(intersects_spec(e.0, *query) && f0.accepts(e.0))));
    }
}

} // verus!
