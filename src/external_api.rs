//! The public maps and sets, plain and interval, over the implicit trees.
use vstd::prelude::*;
use crate::base::{ItemFilter, Key};
use crate::drivers::{in_range};
use crate::interval::{KeyInterval, intersects_spec};
use crate::interval_tree::{IvTree, all_valid};
use crate::model::{stable_sorted, has_key, removes_one, sorted_by_key};
use crate::plain_tree::PlTree;
use crate::repr::MAX_ENTRIES;

verus! {

/// A fast way to restore a tree from a master copy of equal capacity.
pub trait TeardownTreeRefill: Sized {
    /// `self` is empty and may take the contents of `master`.
    spec fn ready_for(&self, master: &Self) -> bool;

    /// `self` holds the same contents as `master`, slot for slot.
    spec fn same_as(&self, master: &Self) -> bool;

    fn refill(&mut self, master: &Self)
        requires
            old(self).ready_for(master),
        ensures
            final(self).same_as(master),
    ;
}

/// The keys of a sequence of entries.
pub open spec fn keys_of<K, V>(s: Seq<(K, V)>) -> Seq<K> {
    s.map_values(|e: (K, V)| e.0)
}

/// Filtering entries by key and then taking keys equals taking keys and then filtering.
pub proof fn lemma_keys_filter<K, V>(s: Seq<(K, V)>, p: spec_fn(K) -> bool)
    ensures
        keys_of(s.filter(|e: (K, V)| p(e.0))) == keys_of(s).filter(p),
    decreases s.len(),
{
    reveal(Seq::filter);
    if s.len() > 0 {
        lemma_keys_filter(s.drop_last(), p);
        assert(keys_of(s).drop_last() =~= keys_of(s.drop_last()));
        let f = |e: (K, V)| p(e.0);
        if p(s.last().0) {
            assert(keys_of(s.drop_last().filter(f).push(s.last())) =~= keys_of(s.drop_last().filter(f)).push(s.last().0));
        }
    }
}

/// Appends the keys of `src` to `dst`.
fn push_keys<K: Key>(src: &Vec<(K, ())>, dst: &mut Vec<K>)
    ensures
        final(dst)@ == old(dst)@ + keys_of(src@),
{
    let mut i: usize = 0;
    while i < src.len()
        invariant
            i <= src@.len(),
            dst@ == old(dst)@ + keys_of(src@.take(i as int)),
        decreases src@.len() - i,
    {
        dst.push(src[i].0);
        assert(keys_of(src@.take(i + 1)) =~= keys_of(src@.take(i as int)).push(src@[i as int].0));
        i = i + 1;
    }
    assert(src@.take(src@.len() as int) =~= src@);
}

/// Pairs each key with the unit value.
fn unit_entries<K: Key>(items: &Vec<K>) -> (r: Vec<(K, ())>)
    ensures
        keys_of(r@) == items@,
        r@ == items@.map_values(|k: K| (k, ())),
{
    let mut r: Vec<(K, ())> = Vec::new();
    let mut i: usize = 0;
    while i < items.len()
        invariant
            i <= items@.len(),
            r@ == items@.take(i as int).map_values(|k: K| (k, ())),
        decreases items@.len() - i,
    {
        r.push((items[i], ()));
        assert(items@.take(i + 1).map_values(|k: K| (k, ())) =~= items@.take(i as int).map_values(|k: K| (k, ())).push((items@[i as int], ())));
        i = i + 1;
    }
    assert(items@.take(items@.len() as int) =~= items@);
    assert(keys_of(r@) =~= items@);
    r
}

/// An ordered map backed by a plain implicit tree; equal keys are allowed.
#[derive(Clone, Debug)]
pub struct TeardownTreeMap<K, V> {
    pub internal: PlTree<K, V>,
}

impl<K: Key, V: Copy> View for TeardownTreeMap<K, V> {
    type V = Seq<(K, V)>;

    open spec fn view(&self) -> Seq<(K, V)> {
        self.internal@
    }
}

impl<K: Key, V: Copy> TeardownTreeMap<K, V> {
    pub open spec fn wf(&self) -> bool {
        self.internal.wf()
    }

    /// Creates a map from entries in any order.
    pub fn new(items: Vec<(K, V)>) -> (r: Self)
        requires
            items@.len() <= MAX_ENTRIES,
        ensures
            r.wf(),
            stable_sorted(r@, items@),
            r@.to_multiset() == items@.to_multiset(),
    {
        TeardownTreeMap { internal: PlTree::new(items) }
    }

    /// Creates a map from entries sorted by key.
    pub fn with_sorted(sorted: Vec<(K, V)>) -> (r: Self)
        requires
            sorted_by_key(sorted@),
            sorted@.len() <= MAX_ENTRIES,
        ensures
            r.wf(),
            r@ == sorted@,
    {
        TeardownTreeMap { internal: PlTree::with_sorted(sorted) }
    }

    /// Whether the map holds an entry with key `query`.
    pub fn contains_key(&self, query: &K) -> (r: bool)
        requires
            self.wf(),
        ensures
            r == has_key(self@, *query),
    {
        self.internal.contains(query)
    }

    /// The value of an entry with key `query`, if there is one.
    pub fn find(&self, query: &K) -> (r: Option<&V>)
        requires
            self.wf(),
        ensures
            r is Some == has_key(self@, *query),
            r is Some ==> self@.contains((*query, *r->Some_0)),
    {
        self.internal.find(query)
    }

    /// Appends the entries whose key lies in `range` to `sink`, in key order.
    pub fn query_range(&self, range: std::ops::Range<K>, sink: &mut Vec<(K, V)>)
        requires
            self.wf(),
        ensures
            final(sink)@ == old(sink)@ + self@.filter(|e: (K, V)| in_range(range.start, range.end, e.0)),
    {
        self.internal.query_range(range, sink)
    }

    /// Removes one entry with key `query` and returns its value.
    pub fn delete(&mut self, query: &K) -> (r: Option<V>)
        requires
            old(self).wf(),
        ensures
            final(self).wf(),
            r is None <==> !has_key(old(self)@, *query),
            r is None ==> final(self)@ == old(self)@,
            r is Some ==> removes_one(old(self)@, final(self)@, *query, r->Some_0),
            final(self).internal.repr.data@.len() == old(self).internal.repr.data@.len(),
    {
        self.internal.delete(query)
    }

    /// Removes the entries whose key lies in `range`, appending them to `output` in key order.
    pub fn delete_range(&mut self, range: std::ops::Range<K>, output: &mut Vec<(K, V)>)
        requires
            old(self).wf(),
        ensures
            final(self).wf(),
            final(output)@ == old(output)@ + old(self)@.filter(|e: (K, V)| in_range(range.start, range.end, e.0)),
            final(self)@ == old(self)@.filter(|e: (K, V)| !in_range(range.start, range.end, e.0)),
            final(output)@.len() - old(output)@.len() + final(self)@.len() == old(self)@.len(),
            final(self).internal.repr.data@.len() == old(self).internal.repr.data@.len(),
    {
        self.internal.delete_range(range, output)
    }

    /// Removes the entries whose key lies in `range` and that `filter` accepts,
    /// appending them to `output` in key order.
    pub fn filter_range<Flt: ItemFilter<K>>(&mut self, range: std::ops::Range<K>, filter: Flt, output: &mut Vec<(K, V)>)
        requires
            old(self).wf(),
        ensures
            final(self).wf(),
            final(output)@ == old(output)@ + old(self)@.filter(|e: (K, V)| in_range(range.start, range.end, e.0) && filter.accepts(e.0)),
            final(self)@ == old(self)@.filter(|e: (K, V)| !(in_range(range.start, range.end, e.0) && filter.accepts(e.0))),
            final(output)@.len() - old(output)@.len() + final(self)@.len() == old(self)@.len(),
            final(self).internal.repr.data@.len() == old(self).internal.repr.data@.len(),
    {
        self.internal.filter_range(range, filter, output)
    }

    /// Removes the entries whose key lies in `range` (with its start), appending them
    /// to `output` in key order.
    pub fn delete_range_ref(&mut self, range: std::ops::Range<&K>, output: &mut Vec<(K, V)>)
        requires
            old(self).wf(),
        ensures
            final(self).wf(),
            final(output)@ == old(output)@ + old(self)@.filter(|e: (K, V)| in_range(*range.start, *range.end, e.0)),
            final(self)@ == old(self)@.filter(|e: (K, V)| !in_range(*range.start, *range.end, e.0)),
            final(output)@.len() - old(output)@.len() + final(self)@.len() == old(self)@.len(),
            final(self).internal.repr.data@.len() == old(self).internal.repr.data@.len(),
    {
        self.internal.delete_range_ref(range, output)
    }

    /// Removes the entries whose key lies in `range` (with its start) and that
    /// `filter` accepts, appending them to `output` in key order.
    pub fn filter_range_ref<Flt: ItemFilter<K>>(&mut self, range: std::ops::Range<&K>, filter: Flt, output: &mut Vec<(K, V)>)
        requires
            old(self).wf(),
        ensures
            final(self).wf(),
            final(output)@ == old(output)@ + old(self)@.filter(|e: (K, V)| in_range(*range.start, *range.end, e.0) && filter.accepts(e.0)),
            final(self)@ == old(self)@.filter(|e: (K, V)| !(in_range(*range.start, *range.end, e.0) && filter.accepts(e.0))),
            final(output)@.len() - old(output)@.len() + final(self)@.len() == old(self)@.len(),
            final(self).internal.repr.data@.len() == old(self).internal.repr.data@.len(),
    {
        self.internal.filter_range_ref(range, filter, output)
    }

    /// The number of entries.
    pub fn size(&self) -> (r: usize)
        requires
            self.wf(),
        ensures
            r == self@.len(),
    {
        self.internal.size()
    }

    pub fn is_empty(&self) -> (r: bool)
        requires
            self.wf(),
        ensures
            r == (self@.len() == 0),
    {
        self.size() == 0
    }

    /// Removes all entries; the storage is kept.
    pub fn clear(&mut self)
        requires
            old(self).wf(),
        ensures
            final(self).wf(),
            final(self)@.len() == 0,
            final(self).internal.repr.data@.len() == old(self).internal.repr.data@.len(),
    {
        self.internal.clear()
    }

    /// All entries, in key order.
    pub fn to_vec(&self) -> (r: Vec<(K, V)>)
        requires
            self.wf(),
        ensures
            r@ == self@,
    {
        self.internal.to_vec()
    }
}

impl<K: Key, V: Copy> TeardownTreeRefill for TeardownTreeMap<K, V> {
    open spec fn ready_for(&self, master: &Self) -> bool {
        &&& self.wf()
        &&& master.wf()
        &&& self@.len() == 0
        &&& self.internal.repr.data@.len() == master.internal.repr.data@.len()
    }

    open spec fn same_as(&self, master: &Self) -> bool {
        &&& self.wf()
        &&& self.internal.repr.data@ == master.internal.repr.data@
        &&& self@ == master@
    }

    fn refill(&mut self, master: &Self) {
        self.internal.refill(&master.internal)
    }
}

/// An ordered set backed by a plain implicit tree; equal keys are allowed.
#[derive(Clone, Debug)]
pub struct TeardownTreeSet<K> {
    pub map: TeardownTreeMap<K, ()>,
}

impl<K: Key> View for TeardownTreeSet<K> {
    type V = Seq<K>;

    /// The keys in order.
    open spec fn view(&self) -> Seq<K> {
        keys_of(self.map@)
    }
}

impl<K: Key> TeardownTreeSet<K> {
    pub open spec fn wf(&self) -> bool {
        self.map.wf()
    }

    /// Creates a set from keys in any order.
    pub fn new(items: Vec<K>) -> (r: Self)
        requires
            items@.len() <= MAX_ENTRIES,
        ensures
            r.wf(),
            stable_sorted(r.map@, items@.map_values(|k: K| (k, ()))),
            r.map@.to_multiset() == items@.map_values(|k: K| (k, ())).to_multiset(),
    {
        let entries = unit_entries(&items);
        TeardownTreeSet { map: TeardownTreeMap::new(entries) }
    }

    /// Creates a set from sorted keys.
    pub fn with_sorted(sorted: Vec<K>) -> (r: Self)
        requires
            forall|a: int, b: int| 0 <= a < b < sorted@.len() ==> (#[trigger] sorted@[a]).le_spec(#[trigger] sorted@[b]),
            sorted@.len() <= MAX_ENTRIES,
        ensures
            r.wf(),
            r@ == sorted@,
    {
        let entries = unit_entries(&sorted);
        assert(sorted_by_key(entries@)) by {
            assert forall|a: int, b: int| 0 <= a < b < entries@.len() implies (#[trigger] entries@[a]).0.le_spec(
                (#[trigger] entries@[b]).0,
            ) by {
                assert(entries@[a].0 == sorted@[a]);
                assert(entries@[b].0 == sorted@[b]);
            }
        }
        TeardownTreeSet { map: TeardownTreeMap::with_sorted(entries) }
    }

    /// Whether the set holds `query`.
    pub fn contains(&self, query: &K) -> (r: bool)
        requires
            self.wf(),
        ensures
            r == self@.contains(*query),
    {
        let r = self.map.contains_key(query);
        proof {
            if r {
                let j = choose|j: int| 0 <= j < self.map@.len() && (#[trigger] self.map@[j]).0 == *query;
                assert(self@[j] == *query);
            }
            if self@.contains(*query) {
                let j = choose|j: int| 0 <= j < self@.len() && self@[j] == *query;
                assert(self.map@[j].0 == *query);
            }
        }
        r
    }

    /// Appends the keys that lie in `range` to `sink`, in order.
    pub fn query_range(&self, range: std::ops::Range<K>, sink: &mut Vec<K>)
        requires
            self.wf(),
        ensures
            final(sink)@ == old(sink)@ + self@.filter(|k: K| in_range(range.start, range.end, k)),
    {
        let ghost lo = range.start;
        let ghost hi = range.end;
        let mut found: Vec<(K, ())> = Vec::new();
        self.map.query_range(range, &mut found);
        push_keys(&found, sink);
        proof {
            let p = |k: K| in_range(lo, hi, k);
            lemma_keys_filter(self.map@, p);
            assert((|e: (K, ())| p(e.0)) =~= (|e: (K, ())| in_range(lo, hi, e.0)));
            assert(found@ =~= self.map@.filter(|e: (K, ())| in_range(lo, hi, e.0)));
        }
    }

    /// Removes one occurrence of `query`; returns whether there was one.
    pub fn delete(&mut self, query: &K) -> (r: bool)
        requires
            old(self).wf(),
        ensures
            final(self).wf(),
            r == old(self)@.contains(*query),
            !r ==> final(self)@ == old(self)@,
            r ==> exists|i: int|
                0 <= i < old(self)@.len() && old(self)@[i] == *query && final(self)@ == old(self)@.remove(i),
            final(self).map.internal.repr.data@.len() == old(self).map.internal.repr.data@.len(),
    {
        let ghost before = self.map@;
        let r = self.map.delete(query);
        proof {
            if r is Some {
                let i = choose|i: int| 0 <= i < before.len() && before[i] == (*query, r->Some_0) && self.map@ == before.remove(i);
                assert(keys_of(before.remove(i)) =~= keys_of(before).remove(i));
                assert(keys_of(before)[i] == *query);
            } else {
                if keys_of(before).contains(*query) {
                    let j = choose|j: int| 0 <= j < keys_of(before).len() && keys_of(before)[j] == *query;
                    assert(before[j].0 == *query);
                }
            }
        }
        r.is_some()
    }

    /// Removes the keys that lie in `range`, appending them to `output` in order.
    pub fn delete_range(&mut self, range: std::ops::Range<K>, output: &mut Vec<K>)
        requires
            old(self).wf(),
        ensures
            final(self).wf(),
            final(output)@ == old(output)@ + old(self)@.filter(|k: K| in_range(range.start, range.end, k)),
            final(self)@ == old(self)@.filter(|k: K| !in_range(range.start, range.end, k)),
            final(output)@.len() - old(output)@.len() + final(self)@.len() == old(self)@.len(),
            final(self).map.internal.repr.data@.len() == old(self).map.internal.repr.data@.len(),
    {
        let ghost lo = range.start;
        let ghost hi = range.end;
        let ghost before = self.map@;
        let mut removed: Vec<(K, ())> = Vec::new();
        self.map.delete_range(range, &mut removed);
        push_keys(&removed, output);
        proof {
            let p = |k: K| in_range(lo, hi, k);
            let np = |k: K| !in_range(lo, hi, k);
            lemma_keys_filter(before, p);
            lemma_keys_filter(before, np);
            assert((|e: (K, ())| p(e.0)) =~= (|e: (K, ())| in_range(lo, hi, e.0)));
            assert((|e: (K, ())| np(e.0)) =~= (|e: (K, ())| !in_range(lo, hi, e.0)));
            assert(removed@ =~= before.filter(|e: (K, ())| in_range(lo, hi, e.0)));
        }
    }

    /// Removes the keys that lie in `range` and that `filter` accepts, appending
    /// them to `output` in order.
    pub fn filter_range<Flt: ItemFilter<K>>(&mut self, range: std::ops::Range<K>, filter: Flt, output: &mut Vec<K>)
        requires
            old(self).wf(),
        ensures
            final(self).wf(),
            final(output)@ == old(output)@ + old(self)@.filter(|k: K| in_range(range.start, range.end, k) && filter.accepts(k)),
            final(self)@ == old(self)@.filter(|k: K| !(in_range(range.start, range.end, k) && filter.accepts(k))),
            final(output)@.len() - old(output)@.len() + final(self)@.len() == old(self)@.len(),
            final(self).map.internal.repr.data@.len() == old(self).map.internal.repr.data@.len(),
    {
        let ghost lo = range.start;
        let ghost hi = range.end;
        let ghost f = filter;
        let ghost before = self.map@;
        let mut removed: Vec<(K, ())> = Vec::new();
        self.map.filter_range(range, filter, &mut removed);
        push_keys(&removed, output);
        proof {
            let p = |k: K| in_range(lo, hi, k) && f.accepts(k);
            let np = |k: K| !(in_range(lo, hi, k) && f.accepts(k));
            lemma_keys_filter(before, p);
            lemma_keys_filter(before, np);
            assert((|e: (K, ())| p(e.0)) =~= (|e: (K, ())| in_range(lo, hi, e.0) && f.accepts(e.0)));
            assert((|e: (K, ())| np(e.0)) =~= (|e: (K, ())| !(in_range(lo, hi, e.0) && f.accepts(e.0))));
            assert(removed@ =~= before.filter(|e: (K, ())| in_range(lo, hi, e.0) && f.accepts(e.0)));
        }
    }

    /// Removes the keys that lie in `range` (with its start), appending them to
    /// `output` in order.
    pub fn delete_range_ref(&mut self, range: std::ops::Range<&K>, output: &mut Vec<K>)
        requires
            old(self).wf(),
        ensures
            final(self).wf(),
            final(output)@ == old(output)@ + old(self)@.filter(|k: K| in_range(*range.start, *range.end, k)),
            final(self)@ == old(self)@.filter(|k: K| !in_range(*range.start, *range.end, k)),
            final(output)@.len() - old(output)@.len() + final(self)@.len() == old(self)@.len(),
            final(self).map.internal.repr.data@.len() == old(self).map.internal.repr.data@.len(),
    {
        let ghost lo = *range.start;
        let ghost hi = *range.end;
        let ghost before = self.map@;
        let mut removed: Vec<(K, ())> = Vec::new();
        self.map.delete_range_ref(range, &mut removed);
        push_keys(&removed, output);
        proof {
            let p = |k: K| in_range(lo, hi, k);
            let np = |k: K| !in_range(lo, hi, k);
            lemma_keys_filter(before, p);
            lemma_keys_filter(before, np);
            assert((|e: (K, ())| p(e.0)) =~= (|e: (K, ())| in_range(lo, hi, e.0)));
            assert((|e: (K, ())| np(e.0)) =~= (|e: (K, ())| !in_range(lo, hi, e.0)));
            assert(removed@ =~= before.filter(|e: (K, ())| in_range(lo, hi, e.0)));
        }
    }

    /// Removes the keys that lie in `range` (with its start) and that `filter`
    /// accepts, appending them to `output` in order.
    pub fn filter_range_ref<Flt: ItemFilter<K>>(&mut self, range: std::ops::Range<&K>, filter: Flt, output: &mut Vec<K>)
        requires
            old(self).wf(),
        ensures
            final(self).wf(),
            final(output)@ == old(output)@ + old(self)@.filter(|k: K| in_range(*range.start, *range.end, k) && filter.accepts(k)),
            final(self)@ == old(self)@.filter(|k: K| !(in_range(*range.start, *range.end, k) && filter.accepts(k))),
            final(output)@.len() - old(output)@.len() + final(self)@.len() == old(self)@.len(),
            final(self).map.internal.repr.data@.len() == old(self).map.internal.repr.data@.len(),
    {
        let ghost lo = *range.start;
        let ghost hi = *range.end;
        let ghost f = filter;
        let ghost before = self.map@;
        let mut removed: Vec<(K, ())> = Vec::new();
        self.map.filter_range_ref(range, filter, &mut removed);
        push_keys(&removed, output);
        proof {
            let p = |k: K| in_range(lo, hi, k) && f.accepts(k);
            let np = |k: K| !(in_range(lo, hi, k) && f.accepts(k));
            lemma_keys_filter(before, p);
            lemma_keys_filter(before, np);
            assert((|e: (K, ())| p(e.0)) =~= (|e: (K, ())| in_range(lo, hi, e.0) && f.accepts(e.0)));
            assert((|e: (K, ())| np(e.0)) =~= (|e: (K, ())| !(in_range(lo, hi, e.0) && f.accepts(e.0))));
            assert(removed@ =~= before.filter(|e: (K, ())| in_range(lo, hi, e.0) && f.accepts(e.0)));
        }
    }

    /// The number of keys.
    pub fn size(&self) -> (r: usize)
        requires
            self.wf(),
        ensures
            r == self@.len(),
    {
        self.map.size()
    }

    pub fn is_empty(&self) -> (r: bool)
        requires
            self.wf(),
        ensures
            r == (self@.len() == 0),
    {
        self.map.is_empty()
    }

    /// Removes all keys; the storage is kept.
    pub fn clear(&mut self)
        requires
            old(self).wf(),
        ensures
            final(self).wf(),
            final(self)@.len() == 0,
            final(self).map.internal.repr.data@.len() == old(self).map.internal.repr.data@.len(),
    {
        self.map.clear()
    }

    /// All keys, in order.
    pub fn to_vec(&self) -> (r: Vec<K>)
        requires
            self.wf(),
        ensures
            r@ == self@,
    {
        let entries = self.map.to_vec();
        let mut out: Vec<K> = Vec::new();
        push_keys(&entries, &mut out);
        assert(out@ =~= self@);
        out
    }
}

impl<K: Key> TeardownTreeRefill for TeardownTreeSet<K> {
    open spec fn ready_for(&self, master: &Self) -> bool {
        self.map.ready_for(&master.map)
    }

    open spec fn same_as(&self, master: &Self) -> bool {
        self.map.same_as(&master.map)
    }

    fn refill(&mut self, master: &Self) {
        self.map.refill(&master.map)
    }
}

/// An ordered map from intervals, with overlap queries and deletion.
#[derive(Clone, Debug)]
pub struct IntervalTeardownTreeMap<V> {
    pub internal: IvTree<V>,
}

impl<V: Copy> View for IntervalTeardownTreeMap<V> {
    type V = Seq<(KeyInterval, V)>;

    open spec fn view(&self) -> Seq<(KeyInterval, V)> {
        self.internal@
    }
}

impl<V: Copy> IntervalTeardownTreeMap<V> {
    pub open spec fn wf(&self) -> bool {
        self.internal.wf()
    }

    /// Creates a map from entries in any order.
    pub fn new(items: Vec<(KeyInterval, V)>) -> (r: Self)
        requires
            items@.len() <= MAX_ENTRIES,
            all_valid(items@),
        ensures
            r.wf(),
            stable_sorted(r@, items@),
            r@.to_multiset() == items@.to_multiset(),
    {
        IntervalTeardownTreeMap { internal: IvTree::new(items) }
    }

    /// Creates a map from entries sorted by interval.
    pub fn with_sorted(sorted: Vec<(KeyInterval, V)>) -> (r: Self)
        requires
            sorted_by_key(sorted@),
            sorted@.len() <= MAX_ENTRIES,
            all_valid(sorted@),
        ensures
            r.wf(),
            r@ == sorted@,
    {
        IntervalTeardownTreeMap { internal: IvTree::with_sorted(sorted) }
    }

    /// Whether the map holds an entry with interval `query`.
    pub fn contains_key(&self, query: &KeyInterval) -> (r: bool)
        requires
            self.wf(),
        ensures
            r == has_key(self@, *query),
    {
        self.internal.contains(query)
    }

    /// Appends the entries whose interval intersects `query` to `sink`, in key order.
    pub fn query_overlap(&self, query: &KeyInterval, sink: &mut Vec<(KeyInterval, V)>)
        requires
            self.wf(),
            query.valid(),
        ensures
            final(sink)@ == old(sink)@ + self@.filter(|e: (KeyInterval, V)| intersects_spec(e.0, *query)),
    {
        self.internal.query_overlap(query, sink)
    }

    /// Removes one entry with interval `query` and returns its value.
    pub fn delete(&mut self, query: &KeyInterval) -> (r: Option<V>)
        requires
            old(self).wf(),
        ensures
            final(self).wf(),
            r is None <==> !has_key(old(self)@, *query),
            r is None ==> final(self)@ == old(self)@,
            r is Some ==> removes_one(old(self)@, final(self)@, *query, r->Some_0),
            final(self).internal.repr.data@.len() == old(self).internal.repr.data@.len(),
    {
        self.internal.delete(query)
    }

    /// Removes the entries whose interval intersects `query`, appending them to
    /// `output` in key order.
    pub fn delete_overlap(&mut self, query: &KeyInterval, output: &mut Vec<(KeyInterval, V)>)
        requires
            old(self).wf(),
        ensures
            final(self).wf(),
            final(output)@ == old(output)@ + old(self)@.filter(|e: (KeyInterval, V)| intersects_spec(e.0, *query)),
            final(self)@ == old(self)@.filter(|e: (KeyInterval, V)| !intersects_spec(e.0, *query)),
            final(output)@.len() - old(output)@.len() + final(self)@.len() == old(self)@.len(),
            final(self).internal.repr.data@.len() == old(self).internal.repr.data@.len(),
    {
        self.internal.delete_overlap(query, output)
    }

    /// Removes the entries whose interval intersects `query` and that `filter`
    /// accepts, appending them to `output` in key order.
    pub fn filter_overlap<Flt: ItemFilter<KeyInterval>>(&mut self, query: &KeyInterval, filter: Flt, output: &mut Vec<(KeyInterval, V)>)
        requires
            old(self).wf(),
        ensures
            final(self).wf(),
            final(output)@ == old(output)@ + old(self)@.filter(|e: (KeyInterval, V)| intersects_spec(e.0, *query) && filter.accepts(e.0)),
            final(self)@ == old(self)@.filter(|e: (KeyInterval, V)| !(intersects_spec(e.0, *query) && filter.accepts(e.0))),
            final(output)@.len() - old(output)@.len() + final(self)@.len() == old(self)@.len(),
            final(self).internal.repr.data@.len() == old(self).internal.repr.data@.len(),
    {
        self.internal.filter_overlap(query, filter, output)
    }

    /// The number of entries.
    pub fn size(&self) -> (r: usize)
        requires
            self.wf(),
        ensures
            r == self@.len(),
    {
        self.internal.size()
    }

    pub fn is_empty(&self) -> (r: bool)
        requires
            self.wf(),
        ensures
            r == (self@.len() == 0),
    {
        self.size() == 0
    }

    /// Removes all entries; the storage is kept.
    pub fn clear(&mut self)
        requires
            old(self).wf(),
        ensures
            final(self).wf(),
            final(self)@.len() == 0,
            final(self).internal.repr.data@.len() == old(self).internal.repr.data@.len(),
    {
        self.internal.clear()
    }

    /// All entries, in key order.
    pub fn to_vec(&self) -> (r: Vec<(KeyInterval, V)>)
        requires
            self.wf(),
        ensures
            r@ == self@,
    {
        self.internal.to_vec()
    }
}

impl<V: Copy> TeardownTreeRefill for IntervalTeardownTreeMap<V> {
    open spec fn ready_for(&self, master: &Self) -> bool {
        &&& self.wf()
        &&& master.wf()
        &&& self@.len() == 0
        &&& self.internal.repr.data@.len() == master.internal.repr.data@.len()
    }

    open spec fn same_as(&self, master: &Self) -> bool {
        &&& self.wf()
        &&& self.internal.repr.data@ == master.internal.repr.data@
        &&& self.internal.maxb@ == master.internal.maxb@
        &&& self@ == master@
    }

    fn refill(&mut self, master: &Self) {
        self.internal.refill(&master.internal)
    }
}

/// An ordered set of intervals, with overlap queries and deletion.
#[derive(Clone, Debug)]
pub struct IntervalTeardownTreeSet {
    pub map: IntervalTeardownTreeMap<()>,
}

impl View for IntervalTeardownTreeSet {
    type V = Seq<KeyInterval>;

    /// The intervals in order.
    open spec fn view(&self) -> Seq<KeyInterval> {
        keys_of(self.map@)
    }
}

impl IntervalTeardownTreeSet {
    pub open spec fn wf(&self) -> bool {
        self.map.wf()
    }

    /// Creates a set from intervals in any order.
    pub fn new(items: Vec<KeyInterval>) -> (r: Self)
        requires
            items@.len() <= MAX_ENTRIES,
            forall|j: int| 0 <= j < items@.len() ==> (#[trigger] items@[j]).valid(),
        ensures
            r.wf(),
            stable_sorted(r.map@, items@.map_values(|k: KeyInterval| (k, ()))),
            r.map@.to_multiset() == items@.map_values(|k: KeyInterval| (k, ())).to_multiset(),
    {
        let entries = unit_entries(&items);
        assert forall|j: int| 0 <= j < entries@.len() implies (#[trigger] entries@[j]).0.valid() by {
            assert(entries@[j].0 == items@[j]);
        }
        IntervalTeardownTreeSet { map: IntervalTeardownTreeMap::new(entries) }
    }

    /// Creates a set from sorted intervals.
    pub fn with_sorted(sorted: Vec<KeyInterval>) -> (r: Self)
        requires
            forall|a: int, b: int| 0 <= a < b < sorted@.len() ==> (#[trigger] sorted@[a]).le_spec(#[trigger] sorted@[b]),
            forall|j: int| 0 <= j < sorted@.len() ==> (#[trigger] sorted@[j]).valid(),
            sorted@.len() <= MAX_ENTRIES,
        ensures
            r.wf(),
            r@ == sorted@,
    {
        let entries = unit_entries(&sorted);
        assert forall|j: int| 0 <= j < entries@.len() implies (#[trigger] entries@[j]).0.valid() by {
            assert(entries@[j].0 == sorted@[j]);
        }
        assert(sorted_by_key(entries@)) by {
            assert forall|a: int, b: int| 0 <= a < b < entries@.len() implies (#[trigger] entries@[a]).0.le_spec(
                (#[trigger] entries@[b]).0,
            ) by {
                assert(entries@[a].0 == sorted@[a]);
                assert(entries@[b].0 == sorted@[b]);
            }
        }
        IntervalTeardownTreeSet { map: IntervalTeardownTreeMap::with_sorted(entries) }
    }

    /// Whether the set holds `query`.
    pub fn contains(&self, query: &KeyInterval) -> (r: bool)
        requires
            self.wf(),
        ensures
            r == self@.contains(*query),
    {
        let r = self.map.contains_key(query);
        proof {
            if r {
                let j = choose|j: int| 0 <= j < self.map@.len() && (#[trigger] self.map@[j]).0 == *query;
                assert(self@[j] == *query);
            }
            if self@.contains(*query) {
                let j = choose|j: int| 0 <= j < self@.len() && self@[j] == *query;
                assert(self.map@[j].0 == *query);
            }
        }
        r
    }

    /// Appends the intervals that intersect `query` to `sink`, in order.
    pub fn query_overlap(&self, query: &KeyInterval, sink: &mut Vec<KeyInterval>)
        requires
            self.wf(),
            query.valid(),
        ensures
            final(sink)@ == old(sink)@ + self@.filter(|k: KeyInterval| intersects_spec(k, *query)),
    {
        let mut found: Vec<(KeyInterval, ())> = Vec::new();
        self.map.query_overlap(query, &mut found);
        push_keys(&found, sink);
        proof {
            let p = |k: KeyInterval| intersects_spec(k, *query);
            lemma_keys_filter(self.map@, p);
            assert((|e: (KeyInterval, ())| p(e.0)) =~= (|e: (KeyInterval, ())| intersects_spec(e.0, *query)));
            assert(found@ =~= self.map@.filter(|e: (KeyInterval, ())| intersects_spec(e.0, *query)));
        }
    }

    /// Removes one occurrence of `query`; returns whether there was one.
    pub fn delete(&mut self, query: &KeyInterval) -> (r: bool)
        requires
            old(self).wf(),
        ensures
            final(self).wf(),
            r == old(self)@.contains(*query),
            !r ==> final(self)@ == old(self)@,
            r ==> exists|i: int|
                0 <= i < old(self)@.len() && old(self)@[i] == *query && final(self)@ == old(self)@.remove(i),
            final(self).map.internal.repr.data@.len() == old(self).map.internal.repr.data@.len(),
    {
        let ghost before = self.map@;
        let r = self.map.delete(query);
        proof {
            if r is Some {
                let i = choose|i: int| 0 <= i < before.len() && before[i] == (*query, r->Some_0) && self.map@ == before.remove(i);
                assert(keys_of(before.remove(i)) =~= keys_of(before).remove(i));
                assert(keys_of(before)[i] == *query);
            } else {
                if keys_of(before).contains(*query) {
                    let j = choose|j: int| 0 <= j < keys_of(before).len() && keys_of(before)[j] == *query;
                    assert(before[j].0 == *query);
                }
            }
        }
        r.is_some()
    }

    /// Removes the intervals that intersect `query`, appending them to `output` in order.
    pub fn delete_overlap(&mut self, query: &KeyInterval, output: &mut Vec<KeyInterval>)
        requires
            old(self).wf(),
        ensures
            final(self).wf(),
            final(output)@ == old(output)@ + old(self)@.filter(|k: KeyInterval| intersects_spec(k, *query)),
            final(self)@ == old(self)@.filter(|k: KeyInterval| !intersects_spec(k, *query)),
            final(output)@.len() - old(output)@.len() + final(self)@.len() == old(self)@.len(),
            final(self).map.internal.repr.data@.len() == old(self).map.internal.repr.data@.len(),
    {
        let ghost before = self.map@;
        let mut removed: Vec<(KeyInterval, ())> = Vec::new();
        self.map.delete_overlap(query, &mut removed);
        push_keys(&removed, output);
        proof {
            let p = |k: KeyInterval| intersects_spec(k, *query);
            let np = |k: KeyInterval| !intersects_spec(k, *query);
            lemma_keys_filter(before, p);
            lemma_keys_filter(before, np);
            assert((|e: (KeyInterval, ())| p(e.0)) =~= (|e: (KeyInterval, ())| intersects_spec(e.0, *query)));
            assert((|e: (KeyInterval, ())| np(e.0)) =~= (|e: (KeyInterval, ())| !intersects_spec(e.0, *query)));
            assert(removed@ =~= before.filter(|e: (KeyInterval, ())| intersects_spec(e.0, *query)));
        }
    }

    /// Removes the intervals that intersect `query` and that `filter` accepts,
    /// appending them to `output` in order.
    pub fn filter_overlap<Flt: ItemFilter<KeyInterval>>(&mut self, query: &KeyInterval, filter: Flt, output: &mut Vec<KeyInterval>)
        requires
            old(self).wf(),
        ensures
            final(self).wf(),
            final(output)@ == old(output)@ + old(self)@.filter(|k: KeyInterval| intersects_spec(k, *query) && filter.accepts(k)),
            final(self)@ == old(self)@.filter(|k: KeyInterval| !(intersects_spec(k, *query) && filter.accepts(k))),
            final(output)@.len() - old(output)@.len() + final(self)@.len() == old(self)@.len(),
            final(self).map.internal.repr.data@.len() == old(self).map.internal.repr.data@.len(),
    {
        let ghost f = filter;
        let ghost before = self.map@;
        let mut removed: Vec<(KeyInterval, ())> = Vec::new();
        self.map.filter_overlap(query, filter, &mut removed);
        push_keys(&removed, output);
        proof {
            let p = |k: KeyInterval| intersects_spec(k, *query) && f.accepts(k);
            let np = |k: KeyInterval| !(intersects_spec(k, *query) && f.accepts(k));
            lemma_keys_filter(before, p);
            lemma_keys_filter(before, np);
            assert((|e: (KeyInterval, ())| p(e.0)) =~= (|e: (KeyInterval, ())| intersects_spec(e.0, *query) && f.accepts(e.0)));
            assert((|e: (KeyInterval, ())| np(e.0)) =~= (|e: (KeyInterval, ())| !(intersects_spec(e.0, *query) && f.accepts(e.0))));
            assert(removed@ =~= before.filter(|e: (KeyInterval, ())| intersects_spec(e.0, *query) && f.accepts(e.0)));
        }
    }

    /// The number of intervals.
    pub fn size(&self) -> (r: usize)
        requires
            self.wf(),
        ensures
            r == self@.len(),
    {
        self.map.size()
    }

    pub fn is_empty(&self) -> (r: bool)
        requires
            self.wf(),
        ensures
            r == (self@.len() == 0),
    {
        self.map.is_empty()
    }

    /// Removes all intervals; the storage is kept.
    pub fn clear(&mut self)
        requires
            old(self).wf(),
        ensures
            final(self).wf(),
            final(self)@.len() == 0,
            final(self).map.internal.repr.data@.len() == old(self).map.internal.repr.data@.len(),
    {
        self.map.clear()
    }

    /// All intervals, in order.
    pub fn to_vec(&self) -> (r: Vec<KeyInterval>)
        requires
            self.wf(),
        ensures
            r@ == self@,
    {
        let entries = self.map.to_vec();
        let mut out: Vec<KeyInterval> = Vec::new();
        push_keys(&entries, &mut out);
        assert(out@ =~= self@);
        out
    }
}

impl TeardownTreeRefill for IntervalTeardownTreeSet {
    open spec fn ready_for(&self, master: &Self) -> bool {
        self.map.ready_for(&master.map)
    }

    open spec fn same_as(&self, master: &Self) -> bool {
        self.map.same_as(&master.map)
    }

    fn refill(&mut self, master: &Self) {
        self.map.refill(&master.map)
    }
}

} // verus!
