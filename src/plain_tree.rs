//! The plain tree: point lookup and deletion, range queries and (filtered)
//! bulk range deletion.
use vstd::prelude::*;
use crate::base::{ItemFilter, Key, NoopFilter, lefti, righti};
use crate::drivers::{RangeDecision, RangeDriver, RangeRefDriver, TraversalDecision, TraversalDriver, in_range};
use crate::model::{stable_sorted, removes_one, bst, depth_measure, has_key, inorder, lemma_filter_none, lemma_filter_three, lemma_unfold, all_le, all_ge, sorted_by_key};
use crate::repr::{MAX_ENTRIES, TreeRepr};

verus! {

/// A filtered range deletion of `s` that emits `out` and leaves `rest` emits only
/// entries in the range that the filter accepts, and every entry it leaves in the
/// range is one the filter rejects.
pub proof fn lemma_filter_preservation<K: Key, V, Flt: ItemFilter<K>>(
    s: Seq<(K, V)>,
    lo: K,
    hi: K,
    flt: Flt,
    out: Seq<(K, V)>,
    rest: Seq<(K, V)>,
)
    requires
        out == s.filter(|e: (K, V)| in_range(lo, hi, e.0) && flt.accepts(e.0)),
        rest == s.filter(|e: (K, V)| !(in_range(lo, hi, e.0) && flt.accepts(e.0))),
    ensures
        forall|j: int| 0 <= j < out.len() ==> in_range(lo, hi, (#[trigger] out[j]).0) && flt.accepts(out[j].0),
        forall|j: int| 0 <= j < rest.len() && in_range(lo, hi, (#[trigger] rest[j]).0) ==> !flt.accepts(rest[j].0),
{
    let f = |e: (K, V)| in_range(lo, hi, e.0) && flt.accepts(e.0);
    let g = |e: (K, V)| !(in_range(lo, hi, e.0) && flt.accepts(e.0));
    assert forall|j: int| 0 <= j < out.len() implies in_range(lo, hi, (#[trigger] out[j]).0) && flt.accepts(out[j].0) by {
        s.lemma_filter_pred(f, j);
    }
    assert forall|j: int| 0 <= j < rest.len() && in_range(lo, hi, (#[trigger] rest[j]).0) implies !flt.accepts(rest[j].0) by {
        s.lemma_filter_pred(g, j);
    }
}

/// Runs one bulk operation on a tree with a fixed filter.
pub struct PlWorker<K, V, Flt> {
    pub repr: TreeRepr<K, V>,
    pub filter: Flt,
}

impl<K: Key, V: Copy, Flt: ItemFilter<K>> PlWorker<K, V, Flt> {
    pub fn new(repr: TreeRepr<K, V>, filter: Flt) -> (r: Self)
        ensures
            r.repr == repr,
            r.filter == filter,
    {
        PlWorker { repr, filter }
    }

    /// Removes one entry whose key is `query` and returns its value.
    pub fn delete(&mut self, query: &K) -> (r: Option<V>)
        requires
            old(self).repr.wf(),
        ensures
            final(self).repr.wf(),
            final(self).filter == old(self).filter,
            r is None <==> !has_key(old(self).repr@, *query),
            r is None ==> final(self).repr@ == old(self).repr@,
            r is Some ==> removes_one(old(self).repr@, final(self).repr@, *query, r->Some_0),
            final(self).repr.data@.len() == old(self).repr.data@.len(),
    {
        self.repr.delete(query)
    }

    /// Removes the entries whose key the driver selects and the filter accepts,
    /// appending them to `out` in key order.
    pub fn filter_with_driver<D: TraversalDriver<K>>(&mut self, drv: &D, out: &mut Vec<(K, V)>)
        requires
            old(self).repr.wf(),
        ensures
            final(self).repr.wf(),
            final(self).filter == old(self).filter,
            final(out)@ == old(out)@ + old(self).repr@.filter(|e: (K, V)| drv.selects(e.0) && old(self).filter.accepts(e.0)),
            final(self).repr@ == old(self).repr@.filter(|e: (K, V)| !(drv.selects(e.0) && old(self).filter.accepts(e.0))),
            final(out)@.len() - old(out)@.len() + final(self).repr@.len() == old(self).repr@.len(),
            final(self).repr.data@.len() == old(self).repr.data@.len(),
    {
        self.repr.filter_with_driver(drv, &self.filter, out);
    }
}

/// A plain implicit search tree mapping keys to values; equal keys are allowed.
#[derive(Clone, Debug)]
pub struct PlTree<K, V> {
    pub repr: TreeRepr<K, V>,
}

impl<K: Key, V: Copy> View for PlTree<K, V> {
    type V = Seq<(K, V)>;

    /// The entries in key order.
    open spec fn view(&self) -> Seq<(K, V)> {
        self.repr@
    }
}

impl<K: Key, V: Copy> PlTree<K, V> {
    pub open spec fn wf(&self) -> bool {
        self.repr.wf()
    }

    /// Builds a tree from entries in any order.
    pub fn new(items: Vec<(K, V)>) -> (r: Self)
        requires
            items@.len() <= MAX_ENTRIES,
        ensures
            r.wf(),
            stable_sorted(r@, items@),
            r@.to_multiset() == items@.to_multiset(),
    {
        PlTree { repr: TreeRepr::new(items) }
    }

    pub fn with_repr(repr: TreeRepr<K, V>) -> (r: Self)
        ensures
            r.repr == repr,
    {
        PlTree { repr }
    }

    /// Builds a tree from entries sorted by key.
    pub fn with_sorted(items: Vec<(K, V)>) -> (r: Self)
        requires
            sorted_by_key(items@),
            items@.len() <= MAX_ENTRIES,
        ensures
            r.wf(),
            r@ == items@,
    {
        PlTree { repr: TreeRepr::with_sorted(items) }
    }

    /// Takes an already shaped tree: slot `i` of `nodes` becomes slot `i` of the tree.
    pub fn with_nodes(nodes: Vec<Option<(K, V)>>) -> (r: Self)
        requires
            bst(nodes@, 0),
            crate::model::integrity(nodes@),
            nodes@.len() <= crate::repr::MAX_SLOTS,
            inorder(nodes@, 0).len() <= MAX_ENTRIES,
        ensures
            r.wf(),
            r.repr.data@ == nodes@,
            r@ == inorder(nodes@, 0),
    {
        PlTree { repr: TreeRepr::with_nodes(nodes) }
    }

    /// Removes one entry whose key is `query` and returns its value.
    pub fn delete(&mut self, query: &K) -> (r: Option<V>)
        requires
            old(self).wf(),
        ensures
            final(self).wf(),
            r is None <==> !has_key(old(self)@, *query),
            r is None ==> final(self)@ == old(self)@,
            r is Some ==> removes_one(old(self)@, final(self)@, *query, r->Some_0),
            final(self).repr.data@.len() == old(self).repr.data@.len(),
    {
        self.repr.delete(query)
    }

    /// Removes the entries whose key the driver selects and the filter accepts,
    /// appending them to `output` in key order.
    pub fn filter_with_driver<D: TraversalDriver<K>, Flt: ItemFilter<K>>(&mut self, drv: &D, filter: Flt, output: &mut Vec<(K, V)>)
        requires
            old(self).wf(),
        ensures
            final(self).wf(),
            final(output)@ == old(output)@ + old(self)@.filter(|e: (K, V)| drv.selects(e.0) && filter.accepts(e.0)),
            final(self)@ == old(self)@.filter(|e: (K, V)| !(drv.selects(e.0) && filter.accepts(e.0))),
            final(output)@.len() - old(output)@.len() + final(self)@.len() == old(self)@.len(),
            final(self).repr.data@.len() == old(self).repr.data@.len(),
    {
        let mut repr = TreeRepr { data: Vec::new(), size: 0 };
        std::mem::swap(&mut repr, &mut self.repr);
        let mut worker = PlWorker::new(repr, filter);
        worker.filter_with_driver(drv, output);
        self.repr = worker.repr;
    }

    /// Removes every entry whose key lies in `range` (a key equal to its start is
    /// always included) and appends them to `output` in key order.
    pub fn delete_range(&mut self, range: std::ops::Range<K>, output: &mut Vec<(K, V)>)
        requires
            old(self).wf(),
        ensures
            final(self).wf(),
            final(output)@ == old(output)@ + old(self)@.filter(|e: (K, V)| in_range(range.start, range.end, e.0)),
            final(self)@ == old(self)@.filter(|e: (K, V)| !in_range(range.start, range.end, e.0)),
            final(output)@.len() - old(output)@.len() + final(self)@.len() == old(self)@.len(),
            final(self).repr.data@.len() == old(self).repr.data@.len(),
    {
        let drv = RangeDriver::new(range);
        self.filter_with_driver(&drv, NoopFilter, output);
        assert((|e: (K, V)| drv.selects(e.0) && NoopFilter.accepts(e.0)) =~= (|e: (K, V)| in_range(range.start, range.end, e.0)));
        assert((|e: (K, V)| !(drv.selects(e.0) && NoopFilter.accepts(e.0))) =~= (|e: (K, V)| !in_range(range.start, range.end, e.0)));
    }

    /// Removes every entry whose key lies in `range` and that `filter` accepts,
    /// appending them to `output` in key order.
    pub fn filter_range<Flt: ItemFilter<K>>(&mut self, range: std::ops::Range<K>, filter: Flt, output: &mut Vec<(K, V)>)
        requires
            old(self).wf(),
        ensures
            final(self).wf(),
            final(output)@ == old(output)@ + old(self)@.filter(|e: (K, V)| in_range(range.start, range.end, e.0) && filter.accepts(e.0)),
            final(self)@ == old(self)@.filter(|e: (K, V)| !(in_range(range.start, range.end, e.0) && filter.accepts(e.0))),
            final(output)@.len() - old(output)@.len() + final(self)@.len() == old(self)@.len(),
            final(self).repr.data@.len() == old(self).repr.data@.len(),
    {
        let drv = RangeDriver::new(range);
        let ghost f = filter;
        self.filter_with_driver(&drv, filter, output);
        assert((|e: (K, V)| drv.selects(e.0) && f.accepts(e.0)) =~= (|e: (K, V)| in_range(range.start, range.end, e.0) && f.accepts(e.0)));
        assert((|e: (K, V)| !(drv.selects(e.0) && f.accepts(e.0))) =~= (|e: (K, V)| !(in_range(range.start, range.end, e.0) && f.accepts(e.0))));
    }

    /// Removes every entry whose key lies in `range` (a key equal to its start is
    /// always included) and appends them to `output` in key order.
    pub fn delete_range_ref(&mut self, range: std::ops::Range<&K>, output: &mut Vec<(K, V)>)
        requires
            old(self).wf(),
        ensures
            final(self).wf(),
            final(output)@ == old(output)@ + old(self)@.filter(|e: (K, V)| in_range(*range.start, *range.end, e.0)),
            final(self)@ == old(self)@.filter(|e: (K, V)| !in_range(*range.start, *range.end, e.0)),
            final(output)@.len() - old(output)@.len() + final(self)@.len() == old(self)@.len(),
            final(self).repr.data@.len() == old(self).repr.data@.len(),
    {
        let drv = RangeRefDriver::new(range);
        self.filter_with_driver(&drv, NoopFilter, output);
        assert((|e: (K, V)| drv.selects(e.0) && NoopFilter.accepts(e.0)) =~= (|e: (K, V)| in_range(*range.start, *range.end, e.0)));
        assert((|e: (K, V)| !(drv.selects(e.0) && NoopFilter.accepts(e.0))) =~= (|e: (K, V)| !in_range(*range.start, *range.end, e.0)));
    }

    /// Removes every entry whose key lies in `range` (with its start) and that
    /// `filter` accepts, appending them to `output` in key order.
    pub fn filter_range_ref<Flt: ItemFilter<K>>(&mut self, range: std::ops::Range<&K>, filter: Flt, output: &mut Vec<(K, V)>)
        requires
            old(self).wf(),
        ensures
            final(self).wf(),
            final(output)@ == old(output)@ + old(self)@.filter(|e: (K, V)| in_range(*range.start, *range.end, e.0) && filter.accepts(e.0)),
            final(self)@ == old(self)@.filter(|e: (K, V)| !(in_range(*range.start, *range.end, e.0) && filter.accepts(e.0))),
            final(output)@.len() - old(output)@.len() + final(self)@.len() == old(self)@.len(),
            final(self).repr.data@.len() == old(self).repr.data@.len(),
    {
        let drv = RangeRefDriver::new(range);
        let ghost f = filter;
        self.filter_with_driver(&drv, filter, output);
        assert((|e: (K, V)| drv.selects(e.0) && f.accepts(e.0)) =~= (|e: (K, V)| in_range(*range.start, *range.end, e.0) && f.accepts(e.0)));
        assert((|e: (K, V)| !(drv.selects(e.0) && f.accepts(e.0))) =~= (|e: (K, V)| !(in_range(*range.start, *range.end, e.0) && f.accepts(e.0))));
    }

    /// Appends to `sink`, in key order, the entries of the subtree at `idx` that
    /// the driver selects, visiting only the subtrees that may hold them.
    fn query_rec<D: TraversalDriver<K>>(&self, idx: usize, drv: &D, sink: &mut Vec<(K, V)>)
        requires
            self.wf(),
            bst(self.repr.data@, idx as int),
        ensures
            final(sink)@ == old(sink)@ + inorder(self.repr.data@, idx as int).filter(|e: (K, V)| drv.selects(e.0)),
        decreases depth_measure(self.repr.data@, idx as int),
    {
        let ghost t = self.repr.data@;
        let ghost f = |e: (K, V)| drv.selects(e.0);
        proof {
            lemma_unfold(t, idx as int);
        }
        if self.repr.is_nil(idx) {
            proof {
                lemma_filter_none(inorder(t, idx as int), f);
            }
            assert(final(sink)@ =~= old(sink)@ + inorder(t, idx as int).filter(f));
            return;
        }
        let k = *self.repr.key(idx);
        let d = drv.decide(&k);
        let ghost l = inorder(t, 2 * idx + 1);
        let ghost r = inorder(t, 2 * idx + 2);
        let ghost e = self.repr.spec_entry(idx as int);
        proof {
            drv.lemma_decide(k, k);
            lemma_filter_three(l, e, r, f);
        }
        if d.left() {
            self.query_rec(lefti(idx), drv, sink);
        } else {
            proof {
                assert forall|i: int| 0 <= i < l.len() implies !f(#[trigger] l[i]) by {
                    drv.lemma_decide(k, l[i].0);
                }
                lemma_filter_none(l, f);
            }
        }
        let ghost mid = sink@;
        if drv.select(&k) {
            sink.push(*self.repr.node(idx));
        }
        if d.right() || !d.left() {
            self.query_rec(righti(idx), drv, sink);
        } else {
            proof {
                assert forall|i: int| 0 <= i < r.len() implies !f(#[trigger] r[i]) by {
                    drv.lemma_decide(k, r[i].0);
                }
                lemma_filter_none(r, f);
            }
        }
        assert(final(sink)@ =~= old(sink)@ + inorder(t, idx as int).filter(f));
    }

    /// Appends to `sink`, in key order, the entries whose key lies in `range` (a
    /// key equal to its start is always included); the tree is unchanged.
    pub fn query_range(&self, range: std::ops::Range<K>, sink: &mut Vec<(K, V)>)
        requires
            self.wf(),
        ensures
            final(sink)@ == old(sink)@ + self@.filter(|e: (K, V)| in_range(range.start, range.end, e.0)),
    {
        let drv = RangeDriver::new(range);
        self.query_rec(0, &drv, sink);
        assert((|e: (K, V)| drv.selects(e.0)) =~= (|e: (K, V)| in_range(range.start, range.end, e.0)));
    }

    /// Whether an entry with key `query` is present.
    pub fn contains(&self, query: &K) -> (r: bool)
        requires
            self.wf(),
        ensures
            r == has_key(self@, *query),
    {
        self.repr.contains(query)
    }

    /// The value of an entry whose key is `query`, if there is one.
    pub fn find(&self, query: &K) -> (r: Option<&V>)
        requires
            self.wf(),
        ensures
            r is Some == has_key(self@, *query),
            r is Some ==> self@.contains((*query, *r->Some_0)),
    {
        self.repr.find(query)
    }

    /// The number of entries.
    pub fn size(&self) -> (r: usize)
        requires
            self.wf(),
        ensures
            r == self@.len(),
    {
        self.repr.size()
    }

    /// Drops every entry; the storage keeps its capacity.
    pub fn clear(&mut self)
        requires
            old(self).wf(),
        ensures
            final(self).wf(),
            final(self)@.len() == 0,
            final(self).repr.data@.len() == old(self).repr.data@.len(),
    {
        self.repr.clear();
    }

    /// Restores the contents of `master` into this emptied tree of equal capacity.
    pub fn refill(&mut self, master: &Self)
        requires
            old(self).wf(),
            master.wf(),
            old(self)@.len() == 0,
            old(self).repr.data@.len() == master.repr.data@.len(),
        ensures
            final(self).wf(),
            final(self).repr.data@ == master.repr.data@,
            final(self)@ == master@,
    {
        self.repr.refill(&master.repr);
    }

    /// All entries, in key order.
    pub fn to_vec(&self) -> (r: Vec<(K, V)>)
        requires
            self.wf(),
        ensures
            r@ == self@,
    {
        self.repr.to_vec()
    }
}

} // verus!
