//! Storage of an implicit tree: slots in heap order, with the entry count.
use vstd::prelude::*;
use crate::drivers::{TraversalDecision, TraversalDriver};
use crate::base::{ItemFilter, Key, lemma_key_order, lefti, righti, parenti};
use crate::model::{preorder, key_is, with_key, stable_sorted, lemma_insert_with_key, lemma_frame_seq, search_slot, pow2_floor, root_position, lemma_pow2_floor, lemma_filter_all, lemma_filter_every, lemma_filter_split_len, lemma_filter_none, position, left_enclosing_spec, right_enclosing_spec, lemma_spine_end, lemma_spine_start, lemma_enclosing, right_spine, left_spine, lemma_spine_in_sub, lemma_bst_spine, lemma_right_spine_drop, lemma_left_spine_drop, lemma_in_sub_trans, pair_ordered, integrity_except, removes_one, lemma_remove_up, lemma_bst_at, lemma_offset, lemma_popcount, offset, popcount, is_pow2, lemma_pow2_lt, lemma_empty_tree, lemma_inorder_unfold, lemma_bst_unfold, lemma_unfold, lemma_in_sub_root, has_key, lemma_slot_in_view, slot, present, entry, inorder, bst, integrity, sorted_by_key, in_sub, depth_measure, all_le, all_ge, lemma_in_sub_child, lemma_frame, lemma_bst_sorted};

verus! {

/// The largest number of entries a tree may hold; slot indices then stay far
/// from overflow when children are computed.
pub const MAX_ENTRIES: usize = usize::MAX / 8;

/// The largest number of slots a tree may hold.
pub const MAX_SLOTS: usize = usize::MAX / 4;

/// A binary search tree stored in an array: the children of slot `i` are the
/// slots `2i+1` and `2i+2`; an empty slot holds `None`.
#[derive(Clone, Debug)]
pub struct TreeRepr<K, V> {
    pub data: Vec<Option<(K, V)>>,
    pub size: usize,
}

impl<K: Key, V: Copy> View for TreeRepr<K, V> {
    type V = Seq<(K, V)>;

    /// The entries of the tree in key order.
    open spec fn view(&self) -> Seq<(K, V)> {
        inorder(self.data@, 0)
    }
}

impl<K: Key, V: Copy> TreeRepr<K, V> {
    /// The invariants that hold between public operations.
    pub open spec fn wf(&self) -> bool {
        &&& bst(self.data@, 0)
        &&& integrity(self.data@)
        &&& self.data@.len() <= MAX_SLOTS
        &&& self.size == self@.len()
        &&& self.size <= MAX_ENTRIES
    }

    pub open spec fn spec_present(&self, idx: int) -> bool {
        present(self.data@, idx)
    }

    pub open spec fn spec_entry(&self, idx: int) -> (K, V) {
        entry(self.data@, idx)
    }

    /// Whether slot `idx` is empty (or beyond the array).
    pub fn is_nil(&self, idx: usize) -> (r: bool)
        ensures
            r == !self.spec_present(idx as int),
    {
        idx >= self.data.len() || self.data[idx].is_none()
    }

    pub fn has_left(&self, idx: usize) -> (r: bool)
        requires
            idx <= MAX_SLOTS,
        ensures
            r == self.spec_present(2 * idx + 1),
    {
        !self.is_nil(lefti(idx))
    }

    pub fn has_right(&self, idx: usize) -> (r: bool)
        requires
            idx <= MAX_SLOTS,
        ensures
            r == self.spec_present(2 * idx + 2),
    {
        !self.is_nil(righti(idx))
    }

    /// The entry at slot `idx`.
    pub fn node(&self, idx: usize) -> (r: &(K, V))
        requires
            self.spec_present(idx as int),
        ensures
            *r == self.spec_entry(idx as int),
    {
        self.data[idx].as_ref().unwrap()
    }

    /// The key at slot `idx`.
    pub fn key(&self, idx: usize) -> (r: &K)
        requires
            self.spec_present(idx as int),
        ensures
            *r == self.spec_entry(idx as int).0,
    {
        &self.node(idx).0
    }

    /// The value at slot `idx`.
    pub fn val(&self, idx: usize) -> (r: &V)
        requires
            self.spec_present(idx as int),
        ensures
            *r == self.spec_entry(idx as int).1,
    {
        &self.node(idx).1
    }

    /// The entry at slot `idx`, if the slot is occupied.
    pub fn node_opt(&self, idx: usize) -> (r: Option<&(K, V)>)
        ensures
            r is Some == self.spec_present(idx as int),
            r is Some ==> *r->Some_0 == self.spec_entry(idx as int),
    {
        if self.is_nil(idx) {
            None
        } else {
            Some(self.node(idx))
        }
    }

    /// The entry at the parent of slot `idx`, if `idx` is not the root.
    pub fn parent_opt(&self, idx: usize) -> (r: Option<&(K, V)>)
        requires
            self.wf(),
            self.spec_present(idx as int),
        ensures
            r is Some == (idx > 0),
            r is Some ==> *r->Some_0 == self.spec_entry((idx - 1) / 2),
    {
        if idx == 0 {
            None
        } else {
            Some(self.node(parenti(idx)))
        }
    }

    /// The entry at the left child of slot `idx`, if present.
    pub fn left_opt(&self, idx: usize) -> (r: Option<&(K, V)>)
        requires
            idx <= MAX_SLOTS,
        ensures
            r is Some == self.spec_present(2 * idx + 1),
            r is Some ==> *r->Some_0 == self.spec_entry(2 * idx + 1),
    {
        self.node_opt(lefti(idx))
    }

    /// The entry at the right child of slot `idx`, if present.
    pub fn right_opt(&self, idx: usize) -> (r: Option<&(K, V)>)
        requires
            idx <= MAX_SLOTS,
        ensures
            r is Some == self.spec_present(2 * idx + 2),
            r is Some ==> *r->Some_0 == self.spec_entry(2 * idx + 2),
    {
        self.node_opt(righti(idx))
    }

    /// The entry at the parent of the present non-root slot `idx`.
    pub fn parent(&self, idx: usize) -> (r: &(K, V))
        requires
            self.wf(),
            idx > 0,
            self.spec_present(idx as int),
        ensures
            *r == self.spec_entry((idx - 1) / 2),
    {
        self.node(parenti(idx))
    }

    /// The entry at the present left child of `idx`.
    pub fn left(&self, idx: usize) -> (r: &(K, V))
        requires
            idx <= MAX_SLOTS,
            self.spec_present(2 * idx + 1),
        ensures
            *r == self.spec_entry(2 * idx + 1),
    {
        self.node(lefti(idx))
    }

    /// The entry at the present right child of `idx`.
    pub fn right(&self, idx: usize) -> (r: &(K, V))
        requires
            idx <= MAX_SLOTS,
            self.spec_present(2 * idx + 2),
        ensures
            *r == self.spec_entry(2 * idx + 2),
    {
        self.node(righti(idx))
    }


    /// Appends the entries of the subtree rooted at `root` to `out`, in order.
    pub fn traverse_inorder(&self, root: usize, out: &mut Vec<(K, V)>)
        requires
            self.data@.len() <= MAX_SLOTS,
        ensures
            final(out)@ == old(out)@ + inorder(self.data@, root as int),
        decreases depth_measure(self.data@, root as int),
    {
        if self.is_nil(root) {
            proof {
                lemma_inorder_unfold(self.data@, root as int);
            }
            assert(old(out)@ + inorder(self.data@, root as int) == old(out)@);
            return;
        }
        let ghost t = self.data@;
        proof {
            lemma_inorder_unfold(t, root as int);
        }
        self.traverse_inorder(lefti(root), out);
        out.push(*self.node(root));
        self.traverse_inorder(righti(root), out);
        assert(final(out)@ == old(out)@ + inorder(t, root as int));
    }

    /// Appends the occupied slots of the subtree rooted at `root` to `out`, in
    /// pre-order (a slot before its left subtree, then its right subtree).
    pub fn traverse_preorder(&self, root: usize, out: &mut Vec<usize>)
        requires
            self.data@.len() <= MAX_SLOTS,
        ensures
            final(out)@.map_values(|j: usize| j as int) == old(out)@.map_values(|j: usize| j as int) + preorder(self.data@, root as int),
        decreases depth_measure(self.data@, root as int),
    {
        if self.is_nil(root) {
            assert(out@.map_values(|j: usize| j as int) =~= old(out)@.map_values(|j: usize| j as int) + preorder(self.data@, root as int));
            return;
        }
        out.push(root);
        let ghost mid = out@;
        assert(mid.map_values(|j: usize| j as int) =~= old(out)@.map_values(|j: usize| j as int) + seq![root as int]);
        self.traverse_preorder(lefti(root), out);
        self.traverse_preorder(righti(root), out);
        assert(out@.map_values(|j: usize| j as int) =~= old(out)@.map_values(|j: usize| j as int) + preorder(self.data@, root as int));
    }

    /// Appends the entries of the subtree rooted at `root` to `out`, in reverse
    /// key order.
    pub fn traverse_inorder_rev(&self, root: usize, out: &mut Vec<(K, V)>)
        requires
            self.data@.len() <= MAX_SLOTS,
        ensures
            final(out)@ == old(out)@ + inorder(self.data@, root as int).reverse(),
        decreases depth_measure(self.data@, root as int),
    {
        let ghost t = self.data@;
        proof {
            lemma_inorder_unfold(t, root as int);
        }
        if self.is_nil(root) {
            assert(out@ =~= old(out)@ + inorder(t, root as int).reverse());
            return;
        }
        self.traverse_inorder_rev(righti(root), out);
        out.push(*self.node(root));
        self.traverse_inorder_rev(lefti(root), out);
        let ghost l = inorder(t, 2 * root + 1);
        let ghost r = inorder(t, 2 * root + 2);
        assert((l + seq![entry(t, root as int)] + r).reverse() =~= r.reverse() + seq![entry(t, root as int)] + l.reverse());
        assert(out@ =~= old(out)@ + inorder(t, root as int).reverse());
    }

    /// All entries, in key order.
    pub fn to_vec(&self) -> (r: Vec<(K, V)>)
        requires
            self.wf(),
        ensures
            r@ == self@,
    {
        let mut out: Vec<(K, V)> = Vec::new();
        self.traverse_inorder(0, &mut out);
        assert(out@ == self@);
        out
    }

    /// The slot of the smallest entry in the subtree rooted at the present slot `idx`.
    pub fn find_min(&self, idx: usize) -> (r: usize)
        requires
            self.wf(),
            self.spec_present(idx as int),
        ensures
            self.spec_present(r as int),
            in_sub(idx as int, r as int),
            self.spec_entry(r as int) == inorder(self.data@, idx as int)[0],
    {
        let mut cur = idx;
        while self.has_left(cur)
            invariant
                self.wf(),
                self.spec_present(cur as int),
                in_sub(idx as int, cur as int),
                inorder(self.data@, cur as int)[0] == inorder(self.data@, idx as int)[0],
            decreases depth_measure(self.data@, cur as int),
        {
            let ghost t = self.data@;
            proof {
                lemma_inorder_unfold(t, cur as int);
                lemma_inorder_unfold(t, 2 * cur + 1);
            }
            assert(inorder(t, cur as int)[0] == inorder(t, 2 * cur + 1)[0]);
            assert((2 * cur + 1 - 1) / 2 == cur);
            cur = lefti(cur);
        }
        proof {
            lemma_inorder_unfold(self.data@, cur as int);
            lemma_inorder_unfold(self.data@, 2 * cur + 1);
        }
        assert(inorder(self.data@, cur as int)[0] == self.spec_entry(cur as int));
        cur
    }

    /// The slot of the largest entry in the subtree rooted at the present slot `idx`.
    pub fn find_max(&self, idx: usize) -> (r: usize)
        requires
            self.wf(),
            self.spec_present(idx as int),
        ensures
            self.spec_present(r as int),
            in_sub(idx as int, r as int),
            self.spec_entry(r as int) == inorder(self.data@, idx as int).last(),
    {
        let mut cur = idx;
        while self.has_right(cur)
            invariant
                self.wf(),
                self.spec_present(cur as int),
                in_sub(idx as int, cur as int),
                inorder(self.data@, cur as int).last() == inorder(self.data@, idx as int).last(),
            decreases depth_measure(self.data@, cur as int),
        {
            let ghost t = self.data@;
            proof {
                lemma_inorder_unfold(t, cur as int);
                lemma_inorder_unfold(t, 2 * cur + 2);
            }
            assert(inorder(t, cur as int).last() == inorder(t, 2 * cur + 2).last());
            assert((2 * cur + 2 - 1) / 2 == cur);
            cur = righti(cur);
        }
        proof {
            lemma_inorder_unfold(self.data@, cur as int);
            lemma_inorder_unfold(self.data@, 2 * cur + 2);
        }
        assert(inorder(self.data@, cur as int).last() == self.spec_entry(cur as int));
        cur
    }

    /// The slot holding an entry whose key is `query`, if there is one; otherwise the
    /// empty slot where such a key would be placed.
    pub fn index_of(&self, query: &K) -> (r: usize)
        requires
            self.wf(),
        ensures
            r == search_slot(self.data@, *query, 0),
            in_sub(0, r as int),
            self.spec_present(r as int) ==> self.spec_entry(r as int).0 == *query,
            !self.spec_present(r as int) ==> !has_key(self@, *query),
    {
        let mut idx: usize = 0;
        proof {
            lemma_key_order::<K>();
        }
        while !self.is_nil(idx)
            invariant
                self.wf(),
                bst(self.data@, idx as int),
                in_sub(0, idx as int),
                search_slot(self.data@, *query, idx as int) == search_slot(self.data@, *query, 0),
                has_key(self@, *query) ==> has_key(inorder(self.data@, idx as int), *query),
            decreases depth_measure(self.data@, idx as int),
        {
            let ghost t = self.data@;
            proof {
                lemma_key_order::<K>();
            }
            let k = self.key(idx);
            let q_le = query.le_key(k);
            let k_le = k.le_key(query);
            if q_le && k_le {
                return idx;
            }
            let ghost l = inorder(t, 2 * idx + 1);
            let ghost r = inorder(t, 2 * idx + 2);
            proof {
                lemma_unfold(t, idx as int);
                lemma_in_sub_root(2 * idx + 1);
                lemma_in_sub_root(2 * idx + 2);
            }
            assert(inorder(t, idx as int) == l + seq![entry(t, idx as int)] + r);
            if q_le {
                proof {
                    if has_key(inorder(t, idx as int), *query) {
                        let j = choose|j: int| 0 <= j < inorder(t, idx as int).len()
                            && (#[trigger] inorder(t, idx as int)[j]).0 == *query;
                        if j >= l.len() + 1 {
                            assert(r[j - l.len() - 1] == inorder(t, idx as int)[j]);
                        }
                        assert(l[j] == inorder(t, idx as int)[j]);
                    }
                }
                idx = lefti(idx);
            } else {
                proof {
                    if has_key(inorder(t, idx as int), *query) {
                        let j = choose|j: int| 0 <= j < inorder(t, idx as int).len()
                            && (#[trigger] inorder(t, idx as int)[j]).0 == *query;
                        if j < l.len() {
                            assert(l[j] == inorder(t, idx as int)[j]);
                        }
                        assert(r[j - l.len() - 1] == inorder(t, idx as int)[j]);
                    }
                }
                idx = righti(idx);
            }
        }
        proof {
            lemma_inorder_unfold(self.data@, idx as int);
        }
        idx
    }

    /// The value of an entry whose key is `query`, if there is one.
    pub fn find(&self, query: &K) -> (r: Option<&V>)
        requires
            self.wf(),
        ensures
            r is Some == has_key(self@, *query),
            r is Some ==> self@.contains((*query, *r->Some_0)),
    {
        let idx = self.index_of(query);
        if self.is_nil(idx) {
            None
        } else {
            proof {
                lemma_slot_in_view(self.data@, 0, idx as int);
            }
            Some(self.val(idx))
        }
    }

    /// Whether an entry with key `query` is present.
    pub fn contains(&self, query: &K) -> (r: bool)
        requires
            self.wf(),
        ensures
            r == has_key(self@, *query),
    {
        self.find(query).is_some()
    }

    /// The largest power of two not above `n`.
    fn floor_pow2(n: usize) -> (x: usize)
        requires
            n >= 1,
        ensures
            is_pow2(x as int),
            x <= n,
            n < 2 * x,
    {
        let mut x: usize = 1;
        while x <= n / 2
            invariant
                is_pow2(x as int),
                1 <= x <= n,
            decreases n - x,
        {
            assert((2 * x) / 2 == x);
            x = 2 * x;
        }
        x
    }

    /// The position of the root among `n` sorted entries, chosen so that the tree
    /// is nearly complete: its right subtree is never deeper than its left one.
    pub fn build_select_root(n: usize) -> (r: usize)
        requires
            n >= 1,
        ensures
            r == root_position(n as int),
            r < n,
            forall|p: int| #[trigger] is_pow2(p) && n < p ==> r < p / 2 && n - r - 1 < p / 2,
    {
        let x = Self::floor_pow2(n);
        proof {
            lemma_pow2_floor(x as int, n as int);
        }
        let r = if x / 2 <= (n - x) + 1 {
            x - 1
        } else {
            n - x / 2
        };
        assert forall|p: int| #[trigger] is_pow2(p) && n < p implies r < p / 2 && n - r - 1 < p / 2 by {
            lemma_pow2_lt(x as int, p);
        }
        r
    }

    /// Empties every slot of `data`.
    fn clear_slots(data: &mut Vec<Option<(K, V)>>)
        ensures
            final(data)@.len() == old(data)@.len(),
            forall|j: int| 0 <= j < final(data)@.len() ==> (#[trigger] final(data)@[j]) is None,
    {
        let mut i: usize = 0;
        while i < data.len()
            invariant
                i <= data@.len(),
                data@.len() == old(data)@.len(),
                forall|j: int| 0 <= j < i ==> (#[trigger] data@[j]) is None,
            decreases data@.len() - i,
        {
            data.set(i, None);
            i = i + 1;
        }
    }

    /// Builds a tree from entries sorted by key. The entries occupy exactly the
    /// slots `0..n`, the nearly-complete layout, placed in key order by an
    /// in-order walk; no slot is added later.
    pub fn with_sorted(sorted: Vec<(K, V)>) -> (r: Self)
        requires
            sorted_by_key(sorted@),
            sorted@.len() <= MAX_ENTRIES,
        ensures
            r.wf(),
            r@ == sorted@,
            r.data@.len() == sorted@.len(),
            forall|j: int| 0 <= j < r.data@.len() ==> (#[trigger] r.data@[j]) is Some,
    {
        let n = sorted.len();
        let mut data: Vec<Option<(K, V)>> = Vec::new();
        let mut i: usize = 0;
        while i < n
            invariant
                n == sorted@.len(),
                i <= n,
                data@.len() == i,
                forall|j: int| 0 <= j < i ==> (#[trigger] data@[j]) is Some,
            decreases n - i,
        {
            data.push(Some(sorted[i]));
            i = i + 1;
        }
        proof {
            let t = data@;
            assert forall|j: int| 0 < j < t.len() && (#[trigger] t[j]) is Some implies t[(j - 1) / 2] is Some by {
            }
            lemma_popcount(t);
            lemma_filter_every(t, |o: Option<(K, V)>| o is Some);
        }
        let c = Self::fill_inorder(&mut data, &sorted, 0, 0);
        proof {
            assert(sorted@.subrange(0, n as int) =~= sorted@);
            let t = data@;
            assert forall|j: int| 0 < j < t.len() && (#[trigger] t[j]) is Some implies t[(j - 1) / 2] is Some by {
            }
        }
        TreeRepr { data, size: n }
    }

    /// Writes `items[c..]` into the occupied slots of the subtree at `idx`, in
    /// in-order, and returns the position after the last one written.
    fn fill_inorder(data: &mut Vec<Option<(K, V)>>, items: &Vec<(K, V)>, idx: usize, c: usize) -> (r: usize)
        requires
            old(data)@.len() == items@.len(),
            old(data)@.len() <= MAX_SLOTS,
            forall|j: int| 0 <= j < old(data)@.len() ==> (#[trigger] old(data)@[j]) is Some,
            sorted_by_key(items@),
            c + inorder(old(data)@, idx as int).len() <= items@.len(),
        ensures
            final(data)@.len() == old(data)@.len(),
            forall|j: int| 0 <= j < final(data)@.len() ==> (#[trigger] final(data)@[j]) is Some,
            r == c + inorder(old(data)@, idx as int).len(),
            inorder(final(data)@, idx as int) == items@.subrange(c as int, r as int),
            bst(final(data)@, idx as int),
            forall|j: int| !in_sub(idx as int, j) ==> slot(final(data)@, j) == slot(old(data)@, j),
        decreases depth_measure(old(data)@, idx as int),
    {
        let ghost t0 = data@;
        proof {
            lemma_unfold(t0, idx as int);
        }
        if idx >= data.len() {
            assert(items@.subrange(c as int, c as int) =~= Seq::<(K, V)>::empty());
            return c;
        }
        let c1 = Self::fill_inorder(data, items, lefti(idx), c);
        let ghost t1 = data@;
        proof {
            lemma_fill_mid(t0, t1, idx as int);
        }
        data.set(idx, Some(items[c1]));
        let ghost t2 = data@;
        proof {
            lemma_fill_mid2(t0, t1, t2, idx as int);
        }
        let c2 = Self::fill_inorder(data, items, righti(idx), c1 + 1);
        proof {
            lemma_fill_join(t0, t1, t2, data@, items@, c as int, c1 as int, c2 as int, idx as int);
        }
        c2
    }

    /// Builds a tree from entries in any order; entries with equal keys keep
    /// their relative order.
    pub fn new(items: Vec<(K, V)>) -> (r: Self)
        requires
            items@.len() <= MAX_ENTRIES,
        ensures
            r.wf(),
            stable_sorted(r@, items@),
            r@.to_multiset() == items@.to_multiset(),
    {
        let sorted = sort_entries(&items);
        Self::with_sorted(sorted)
    }

    /// Takes an already shaped tree: slot `i` of `nodes` becomes slot `i` of the tree.
    pub fn with_nodes(nodes: Vec<Option<(K, V)>>) -> (r: Self)
        requires
            bst(nodes@, 0),
            integrity(nodes@),
            nodes@.len() <= MAX_SLOTS,
            inorder(nodes@, 0).len() <= MAX_ENTRIES,
        ensures
            r.wf(),
            r.data@ == nodes@,
    {
        let mut r = TreeRepr { data: nodes, size: 0 };
        let entries = r.to_vec_unchecked();
        r.size = entries.len();
        r
    }

    /// All entries in order, for storage whose size field is not set yet.
    fn to_vec_unchecked(&self) -> (r: Vec<(K, V)>)
        requires
            self.data@.len() <= MAX_SLOTS,
        ensures
            r@ == self@,
    {
        let mut out: Vec<(K, V)> = Vec::new();
        self.traverse_inorder(0, &mut out);
        assert(out@ == self@);
        out
    }

    /// Drops every entry; the storage keeps its capacity.
    pub fn clear(&mut self)
        requires
            old(self).wf(),
        ensures
            final(self).wf(),
            final(self)@.len() == 0,
            final(self).data@.len() == old(self).data@.len(),
            forall|j: int| 0 <= j < final(self).data@.len() ==> (#[trigger] final(self).data@[j]) is None,
    {
        Self::clear_slots(&mut self.data);
        proof {
            lemma_empty_tree(self.data@);
        }
        self.size = 0;
    }

    /// Restores the contents of `master` into this emptied tree of equal capacity,
    /// slot for slot.
    pub fn refill(&mut self, master: &Self)
        requires
            old(self).wf(),
            master.wf(),
            old(self)@.len() == 0,
            old(self).data@.len() == master.data@.len(),
        ensures
            final(self).wf(),
            final(self).data@ == master.data@,
            final(self)@ == master@,
    {
        let n = master.data.len();
        let mut i: usize = 0;
        while i < n
            invariant
                n == master.data@.len(),
                self.data@.len() == n,
                i <= n,
                forall|j: int| 0 <= j < i ==> self.data@[j] == master.data@[j],
            decreases n - i,
        {
            self.data.set(i, master.data[i]);
            i = i + 1;
        }
        self.size = master.size;
        assert(self.data@ =~= master.data@);
    }

    /// Removes one entry whose key is `query`, the one a search from the root
    /// meets first, repairing the tree in place; returns its value.
    pub fn delete(&mut self, query: &K) -> (r: Option<V>)
        requires
            old(self).wf(),
        ensures
            final(self).wf(),
            r is None <==> !has_key(old(self)@, *query),
            r is None ==> final(self)@ == old(self)@,
            r is Some ==> removes_one(old(self)@, final(self)@, *query, r->Some_0),
            final(self).data@.len() == old(self).data@.len(),
    {
        let idx = self.index_of(query);
        if self.is_nil(idx) {
            return None;
        }
        let ghost before = self@;
        let e = self.delete_idx(idx);
        proof {
            let i = choose|i: int| 0 <= i < before.len() && before[i] == e && self@ == before.remove(i);
            assert(before[i].0 == *query);
        }
        Some(e.1)
    }

    /// The slot of the in-order successor of the present slot `idx`, or the
    /// capacity when `idx` holds the last entry. Without a right subtree the
    /// successor is found by slot arithmetic, with no parent links.
    pub fn succ(&self, idx: usize) -> (r: usize)
        requires
            self.wf(),
            self.spec_present(idx as int),
        ensures
            0 <= position(self.data@, idx as int) < self@.len(),
            self@[position(self.data@, idx as int)] == self.spec_entry(idx as int),
            r <= self.data@.len(),
            r < self.data@.len() ==> self.spec_present(r as int)
                && position(self.data@, r as int) == position(self.data@, idx as int) + 1
                && self@[position(self.data@, idx as int) + 1] == self.spec_entry(r as int),
            r == self.data@.len() ==> position(self.data@, idx as int) + 1 == self@.len(),
    {
        proof {
            lemma_position(self.data@, idx as int);
        }
        if self.has_right(idx) {
            let r = Self::min_slot(&self.data, righti(idx));
            proof {
                lemma_succ_below(self.data@, idx as int, r as int);
            }
            return r;
        }
        let le = left_enclosing(idx + 1);
        proof {
            lemma_enclosing(self.data@, idx as int);
        }
        if le == 0 {
            proof {
                lemma_succ_last(self.data@, idx as int);
            }
            return self.data.len();
        }
        let p = parenti(le - 1);
        proof {
            lemma_succ_above(self.data@, idx as int, (le - 1) as int);
        }
        p
    }

    /// Removes every entry whose key the driver selects and the filter accepts,
    /// appending them to `out` in key order; the tree is repaired in place.
    pub fn filter_with_driver<D: TraversalDriver<K>, F: ItemFilter<K>>(&mut self, drv: &D, flt: &F, out: &mut Vec<(K, V)>)
        requires
            old(self).wf(),
        ensures
            final(self).wf(),
            final(out)@ == old(out)@ + old(self)@.filter(|e: (K, V)| drv.selects(e.0) && flt.accepts(e.0)),
            final(self)@ == old(self)@.filter(|e: (K, V)| !(drv.selects(e.0) && flt.accepts(e.0))),
            final(out)@.len() - old(out)@.len() + final(self)@.len() == old(self)@.len(),
            final(self).data@.len() == old(self).data@.len(),
    {
        let ghost s0 = self@;
        let before = out.len();
        Self::filter_rec(&mut self.data, drv, flt, 0, out);
        proof {
            lemma_kept_facts(*drv, *flt, s0, s0[0].0);
            reveal(chosen_of);
            reveal(kept_of);
            assert(chosen_by::<K, V, D, F>(*drv, *flt) =~= (|e: (K, V)| drv.selects(e.0) && flt.accepts(e.0)));
            assert(kept_by::<K, V, D, F>(*drv, *flt) =~= (|e: (K, V)| !(drv.selects(e.0) && flt.accepts(e.0))));
        }
        let removed = out.len() - before;
        self.size = self.size - removed;
    }

    /// Whether the driver selects and the filter accepts the key at the present slot `idx`.
    fn selected<D: TraversalDriver<K>, F: ItemFilter<K>>(data: &Vec<Option<(K, V)>>, idx: usize, drv: &D, flt: &F) -> (r: bool)
        requires
            present(data@, idx as int),
        ensures
            r == (drv.selects(entry(data@, idx as int).0) && flt.accepts(entry(data@, idx as int).0)),
    {
        let k = data[idx].unwrap().0;
        proof {
            drv.lemma_decide(k, k);
        }
        drv.select(&k) && flt.accept(&k)
    }

    /// Takes entries at the present slot `idx` for as long as the entry there is
    /// selected, refilling the slot from below each time; the left subtree holds
    /// only unselected entries. Returns how many entries were taken and whether
    /// the remaining slot entry came from the right (1) or the left (0).
    fn take_run<D: TraversalDriver<K>, F: ItemFilter<K>>(
        data: &mut Vec<Option<(K, V)>>,
        drv: &D,
        flt: &F,
        idx: usize,
        out: &mut Vec<(K, V)>,
        Ghost(lp): Ghost<Seq<(K, V)>>,
        Ghost(rest): Ghost<Seq<(K, V)>>,
    ) -> (res: (Ghost<int>, Ghost<int>))
        requires
            old(data)@.len() <= MAX_SLOTS,
            idx < old(data)@.len(),
            present(old(data)@, idx as int),
            integrity(old(data)@),
            bst(old(data)@, idx as int),
            idx == 0 || present(old(data)@, (idx - 1) / 2),
            inorder(old(data)@, idx as int) == lp + rest,
            inorder(old(data)@, 2 * idx + 1) == lp,
            inorder(old(data)@, 2 * idx + 2) == rest.skip(1),
            rest.len() > 0,
            forall|i: int| 0 <= i < lp.len() ==> !(drv.selects((#[trigger] lp[i]).0) && flt.accepts(lp[i].0)),
        ensures
            final(data)@.len() == old(data)@.len(),
            integrity(final(data)@),
            bst(final(data)@, idx as int),
            forall|j: int| !in_sub(idx as int, j) ==> slot(final(data)@, j) == slot(old(data)@, j),
            0 <= res.0@ <= rest.len(),
            forall|i: int| 0 <= i < res.0@ ==> drv.selects((#[trigger] rest[i]).0) && flt.accepts(rest[i].0),
            final(out)@ == old(out)@ + rest.take(res.0@),
            inorder(final(data)@, idx as int) == lp + rest.skip(res.0@),
            !present(final(data)@, idx as int) ==> lp.len() == 0 && res.0@ == rest.len(),
            res.0@ == 0 ==> res.1@ == 1,
            present(final(data)@, idx as int) ==> {
                &&& (res.1@ == 0 || res.1@ == 1)
                &&& res.0@ + res.1@ <= rest.len()
                &&& inorder(final(data)@, 2 * idx + 2) == rest.skip(res.0@ + res.1@)
                &&& inorder(final(data)@, 2 * idx + 1) + seq![entry(final(data)@, idx as int)] == lp + rest.skip(res.0@).take(res.1@)
                &&& !(drv.selects(entry(final(data)@, idx as int).0) && flt.accepts(entry(final(data)@, idx as int).0))
                &&& (res.1@ == 1 ==> entry(final(data)@, idx as int) == rest[res.0@])
            },
    {
        let ghost t0 = data@;
        let ghost mut c: int = 0;
        let ghost mut x: int = 1;
        proof {
            lemma_inorder_unfold(t0, idx as int);
            assert(rest.skip(0) =~= rest);
            lemma_node_split(t0, idx as int, lp, rest, 0, 1);
        }
        while idx < data.len() && data[idx].is_some() && Self::selected(data, idx, drv, flt)
            invariant
                data@.len() == t0.len(),
                t0.len() <= MAX_SLOTS,
                idx < t0.len(),
                integrity(data@),
                bst(data@, idx as int),
                forall|j: int| !in_sub(idx as int, j) ==> slot(data@, j) == slot(t0, j),
                idx == 0 || present(t0, (idx - 1) / 2),
                forall|i: int| 0 <= i < lp.len() ==> !(drv.selects((#[trigger] lp[i]).0) && flt.accepts(lp[i].0)),
                0 <= c <= rest.len(),
                forall|i: int| 0 <= i < c ==> drv.selects((#[trigger] rest[i]).0) && flt.accepts(rest[i].0),
                out@ == old(out)@ + rest.take(c),
                inorder(data@, idx as int) == lp + rest.skip(c),
                !present(data@, idx as int) ==> lp.len() == 0 && c == rest.len(),
                c == 0 ==> x == 1,
                present(data@, idx as int) ==> (x == 0 || x == 1) && c + x <= rest.len()
                    && inorder(data@, 2 * idx + 2) == rest.skip(c + x)
                    && inorder(data@, 2 * idx + 1) + seq![entry(data@, idx as int)] == lp + rest.skip(c).take(x)
                    && (x == 1 ==> inorder(data@, 2 * idx + 1) == lp && entry(data@, idx as int) == rest[c])
                    && (x == 0 ==> lp.len() > 0 && entry(data@, idx as int) == lp.last()),
            decreases rest.len() - c,
        {
            let ghost tb = data@;
            proof {
                if x == 0 {
                    assert(lp[lp.len() - 1] == lp.last());
                }
            }
            let taken = data[idx].unwrap();
            data.set(idx, None);
            out.push(taken);
            proof {
                lemma_take_pre(tb, data@, idx as int);
                if idx > 0 {
                    assert(!in_sub(idx as int, (idx - 1) / 2));
                }
                assert(rest.take(c + 1) == rest.take(c).push(taken));
            }
            let ghost t1 = data@;
            Self::fill_hole(data, idx);
            proof {
                lemma_loop_step(t0, tb, t1, data@, idx as int, lp, rest, c);
                c = c + 1;
                x = if lp.len() > 0 { 0 } else { 1 };
            }
        }
        proof {
            if present(data@, idx as int) && x == 0 {
                assert(lp[lp.len() - 1] == lp.last());
            }
        }
        (Ghost(c), Ghost(x))
    }

    #[verifier::rlimit(100)]
    /// Removes, from the subtree at `idx`, the entries that the driver selects and
    /// the filter accepts, appending them to `out` in key order. The descent
    /// visits a child only where the driver's decision says it may hold selected
    /// keys; each removed slot is repaired in place from below.
    fn filter_rec<D: TraversalDriver<K>, F: ItemFilter<K>>(
        data: &mut Vec<Option<(K, V)>>,
        drv: &D,
        flt: &F,
        idx: usize,
        out: &mut Vec<(K, V)>,
    )
        requires
            old(data)@.len() <= MAX_SLOTS,
            bst(old(data)@, idx as int),
            integrity(old(data)@),
        ensures
            final(data)@.len() == old(data)@.len(),
            inorder(final(data)@, idx as int) == kept_of(inorder(old(data)@, idx as int), *drv, *flt),
            final(out)@ == old(out)@ + chosen_of(inorder(old(data)@, idx as int), *drv, *flt),
            bst(final(data)@, idx as int),
            integrity(final(data)@),
            forall|j: int| !in_sub(idx as int, j) ==> slot(final(data)@, j) == slot(old(data)@, j),
        decreases depth_measure(old(data)@, idx as int),
    {
        let ghost t0 = data@;
        let ghost out0 = out@;
        if idx >= data.len() || data[idx].is_none() {
            proof {
                lemma_inorder_unfold(t0, idx as int);
                lemma_of_empty::<K, V, D, F>(*drv, *flt);
            }
            assert(out@ =~= out0 + chosen_of(inorder(t0, idx as int), *drv, *flt));
            return;
        }
        let e = data[idx].unwrap();
        let d = drv.decide(&e.0);
        let ghost l0 = inorder(t0, 2 * idx + 1);
        let ghost r0 = inorder(t0, 2 * idx + 2);
        let ghost rest = seq![e] + r0;
        proof {
            assert(bst(t0, 2 * idx + 1) && bst(t0, 2 * idx + 2) && all_le(l0, e.0) && all_ge(r0, e.0)) by {
                lemma_bst_unfold(t0, idx as int);
            }
            assert(inorder(t0, idx as int) == l0 + rest) by {
                lemma_inorder_unfold(t0, idx as int);
                assert(l0 + seq![e] + r0 =~= l0 + rest);
            }
            assert(in_sub(idx as int, idx as int));
            if idx > 0 {
                assert(t0[idx as int] is Some);
            }
        }
        if d.left() {
            Self::filter_rec(data, drv, flt, lefti(idx), out);
        } else {
            proof {
                lemma_skip_left(*drv, *flt, e.0, l0);
            }
            assert(out@ =~= out0 + chosen_of(l0, *drv, *flt));
        }
        let ghost lp = kept_of(l0, *drv, *flt);
        proof {
            lemma_kept_facts(*drv, *flt, l0, e.0);
            lemma_after_left(t0, data@, idx as int, lp);
            if idx > 0 {
                assert(!in_sub(idx as int, (idx - 1) / 2));
            }
            assert(inorder(data@, idx as int) =~= lp + rest);
            assert(rest.skip(1) =~= r0);
        }
        let res = Self::take_run(data, drv, flt, idx, out, Ghost(lp), Ghost(rest));
        let ghost c = res.0@;
        let ghost x = res.1@;
        let ghost t3 = data@;
        let ghost out3 = out@;
        if idx < data.len() && data[idx].is_some() {
            let ghost rr = rest.skip(c + x);
            if d.right() || !d.left() {
                proof {
                    lemma_bst_unfold(t3, idx as int);
                }
                Self::filter_rec(data, drv, flt, righti(idx), out);
                proof {
                    lemma_bst_unfold(t3, idx as int);
                    lemma_kept_facts(*drv, *flt, rr, entry(t3, idx as int).0);
                    lemma_after_right(t3, data@, idx as int, kept_of(rr, *drv, *flt));
                }
            } else {
                proof {
                    lemma_skip_right(*drv, *flt, e.0, rest, c, x, r0);
                    assert(out@ == out3 + chosen_of(rr, *drv, *flt)) by {
                        assert(out3 + Seq::<(K, V)>::empty() =~= out3);
                    }
                }
            }
            proof {
                lemma_compose(*drv, *flt, l0, rest, c, x, entry(t3, idx as int));
                lemma_finish(t0, t3, data@, idx as int, lp, rest.skip(c).take(x), kept_of(rr, *drv, *flt));
                lemma_out_assoc(out0, chosen_of(l0, *drv, *flt), rest.take(c), chosen_of(rr, *drv, *flt));
            }
        } else {
            proof {
                lemma_compose_all(*drv, *flt, l0, rest);
                lemma_inorder_unfold(data@, idx as int);
                assert(rest.take(c) =~= rest);
                assert(inorder(data@, idx as int) == lp);
            }
        }
    }

    /// The slot of the largest entry below the present slot `idx`: the end of its right spine.
    fn max_slot(data: &Vec<Option<(K, V)>>, idx: usize) -> (r: usize)
        requires
            present(data@, idx as int),
            data@.len() <= MAX_SLOTS,
        ensures
            right_spine(data@, idx as int, r as int),
            !present(data@, 2 * r + 2),
            entry(data@, r as int) == inorder(data@, idx as int).last(),
    {
        let mut cur = idx;
        while righti(cur) < data.len() && data[righti(cur)].is_some()
            invariant
                right_spine(data@, idx as int, cur as int),
                data@.len() <= MAX_SLOTS,
                inorder(data@, cur as int).last() == inorder(data@, idx as int).last(),
            decreases depth_measure(data@, cur as int),
        {
            proof {
                lemma_inorder_unfold(data@, cur as int);
                lemma_inorder_unfold(data@, 2 * cur + 2);
                assert((2 * cur + 2 - 1) / 2 == cur);
            }
            cur = righti(cur);
        }
        proof {
            lemma_inorder_unfold(data@, cur as int);
            lemma_inorder_unfold(data@, 2 * cur + 2);
        }
        cur
    }

    /// The slot of the smallest entry below the present slot `idx`: the end of its left spine.
    fn min_slot(data: &Vec<Option<(K, V)>>, idx: usize) -> (r: usize)
        requires
            present(data@, idx as int),
            data@.len() <= MAX_SLOTS,
        ensures
            left_spine(data@, idx as int, r as int),
            !present(data@, 2 * r + 1),
            entry(data@, r as int) == inorder(data@, idx as int)[0],
    {
        let mut cur = idx;
        while lefti(cur) < data.len() && data[lefti(cur)].is_some()
            invariant
                left_spine(data@, idx as int, cur as int),
                data@.len() <= MAX_SLOTS,
                inorder(data@, cur as int)[0] == inorder(data@, idx as int)[0],
            decreases depth_measure(data@, cur as int),
        {
            proof {
                lemma_inorder_unfold(data@, cur as int);
                lemma_inorder_unfold(data@, 2 * cur + 1);
                assert((2 * cur + 1 - 1) / 2 == cur);
            }
            cur = lefti(cur);
        }
        proof {
            lemma_inorder_unfold(data@, cur as int);
            lemma_inorder_unfold(data@, 2 * cur + 1);
        }
        cur
    }

    /// Repairs the empty slot `h` by pulling up the largest entry of its left
    /// subtree (or else the smallest of its right one), then repairing the slot
    /// that entry left, until the hole reaches a slot without children.
    fn fill_hole(data: &mut Vec<Option<(K, V)>>, h: usize)
        requires
            old(data)@.len() <= MAX_SLOTS,
            h < old(data)@.len(),
            !present(old(data)@, h as int),
            bst(old(data)@, 2 * h + 1),
            bst(old(data)@, 2 * h + 2),
            pair_ordered(inorder(old(data)@, 2 * h + 1), inorder(old(data)@, 2 * h + 2)),
            integrity_except(old(data)@, h as int),
            h == 0 || present(old(data)@, (h - 1) / 2),
        ensures
            final(data)@.len() == old(data)@.len(),
            inorder(final(data)@, h as int) == inorder(old(data)@, 2 * h + 1) + inorder(old(data)@, 2 * h + 2),
            bst(final(data)@, h as int),
            integrity(final(data)@),
            forall|j: int| !in_sub(h as int, j) ==> slot(final(data)@, j) == slot(old(data)@, j),
            inorder(old(data)@, 2 * h + 1).len() > 0 ==> present(final(data)@, h as int)
                && inorder(final(data)@, 2 * h + 2) == inorder(old(data)@, 2 * h + 2),
            inorder(old(data)@, 2 * h + 1).len() == 0 && inorder(old(data)@, 2 * h + 2).len() > 0
                ==> present(final(data)@, h as int) && inorder(final(data)@, 2 * h + 2) == inorder(old(data)@, 2 * h + 2).drop_first(),
            inorder(old(data)@, 2 * h + 1).len() == 0 && inorder(old(data)@, 2 * h + 2).len() == 0
                ==> !present(final(data)@, h as int),
        decreases old(data)@.len() - h,
    {
        let ghost t0 = data@;
        let l = lefti(h);
        let r = righti(h);
        if l < data.len() && data[l].is_some() {
            let m = Self::max_slot(data, l);
            proof {
                lemma_spine_in_sub(t0, l as int, m as int);
                assert(in_sub(l as int, l as int));
                lemma_in_sub_child(h as int, l as int);
                lemma_in_sub_trans(h as int, l as int, m as int);
            }
            let e = data[m];
            data.set(h, e);
            data.set(m, None);
            let ghost t1 = data@;
            proof {
                lemma_fill_pre(t0, t1, h as int, l as int, m as int, true);
            }
            Self::fill_hole(data, m);
            proof {
                lemma_fill_post_left(t0, t1, data@, h as int, m as int);
                lemma_inorder_unfold(t0, l as int);
            }
        } else if r < data.len() && data[r].is_some() {
            let m = Self::min_slot(data, r);
            proof {
                lemma_spine_in_sub(t0, r as int, m as int);
                assert(in_sub(r as int, r as int));
                lemma_in_sub_child(h as int, r as int);
                lemma_in_sub_trans(h as int, r as int, m as int);
            }
            let e = data[m];
            data.set(h, e);
            data.set(m, None);
            let ghost t1 = data@;
            proof {
                lemma_fill_pre(t0, t1, h as int, r as int, m as int, false);
            }
            Self::fill_hole(data, m);
            proof {
                lemma_fill_post_right(t0, t1, data@, h as int, m as int);
                lemma_inorder_unfold(t0, l as int);
                lemma_inorder_unfold(t0, r as int);
            }
        } else {
            proof {
                lemma_unfold(t0, h as int);
                lemma_inorder_unfold(t0, 2 * h + 1);
                lemma_inorder_unfold(t0, 2 * h + 2);
                assert(inorder(t0, 2 * h + 1) + inorder(t0, 2 * h + 2) =~= Seq::<(K, V)>::empty());
                assert forall|j: int| 0 < j < t0.len() && (#[trigger] t0[j]) is Some implies t0[(j - 1) / 2] is Some by {
                    if (j - 1) / 2 == h as int {
                        assert(j == 2 * h + 1 || j == 2 * h + 2);
                    }
                }
            }
        }
    }

    /// Removes the entry at the present slot `idx` and repairs the tree in place.
    fn delete_idx(&mut self, idx: usize) -> (r: (K, V))
        requires
            old(self).wf(),
            old(self).spec_present(idx as int),
        ensures
            final(self).wf(),
            final(self).data@.len() == old(self).data@.len(),
            r == old(self).spec_entry(idx as int),
            exists|i: int| 0 <= i < old(self)@.len() && old(self)@[i] == r && final(self)@ == old(self)@.remove(i),
    {
        let ghost t0 = self.data@;
        let e = *self.node(idx);
        proof {
            lemma_bst_at(t0, idx as int);
            lemma_unfold(t0, idx as int);
            lemma_key_order::<K>();
            let a = inorder(t0, 2 * idx + 1);
            let b = inorder(t0, 2 * idx + 2);
            assert forall|i: int, j: int| 0 <= i < a.len() && 0 <= j < b.len() implies (#[trigger] a[i]).0.le_spec((#[trigger] b[j]).0) by {
                assert(a[i].0.le_spec(e.0));
                assert(e.0.le_spec(b[j].0));
            }
            if idx > 0 {
                assert(t0[idx as int] is Some);
            }
        }
        self.data.set(idx, None);
        proof {
            let t1 = self.data@;
            lemma_in_sub_child(idx as int, idx as int);
            assert forall|j: int| in_sub(2 * idx + 1, j) implies slot(t1, j) == slot(t0, j) by {
                lemma_in_sub_child(idx as int, j);
            }
            assert forall|j: int| in_sub(2 * idx + 2, j) implies slot(t1, j) == slot(t0, j) by {
                lemma_in_sub_child(idx as int, j);
            }
            lemma_frame(t1, t0, 2 * idx + 1);
            lemma_frame(t1, t0, 2 * idx + 2);
        }
        Self::fill_hole(&mut self.data, idx);
        proof {
            let t2 = self.data@;
            let a = inorder(t0, 2 * idx + 1);
            let b = inorder(t0, 2 * idx + 2);
            let k = a.len() as int;
            assert(inorder(t2, idx as int) =~= inorder(t0, idx as int).remove(k));
            assert forall|x: int| !in_sub(idx as int, x) implies slot(t2, x) == slot(t0, x) by {
                assert(x != idx);
            }
            lemma_remove_up(t0, t2, idx as int, k);
            lemma_offset(t0, idx as int);
            assert(inorder(t0, 0)[offset(t0, idx as int) + k] == inorder(t0, idx as int)[k]);
            assert(inorder(t0, idx as int)[k] == e);
        }
        self.size = self.size - 1;
        e
    }

    /// The number of entries.
    pub fn size(&self) -> (r: usize)
        requires
            self.wf(),
        ensures
            r == self@.len(),
    {
        self.size
    }

    /// The number of slots.
    pub fn capacity(&self) -> (r: usize)
        ensures
            r == self.data@.len(),
    {
        self.data.len()
    }
}

/// No two entries of `s` share a key.
pub open spec fn distinct_keys<K, V>(s: Seq<(K, V)>) -> bool {
    forall|a: int, b: int| 0 <= a < b < s.len() ==> (#[trigger] s[a]).0 != (#[trigger] s[b]).0
}

/// Search order at every occupied slot: the key of the left child orders at or
/// before the slot's key, and the key of the right child at or after it. Where
/// all keys differ, the left child's key is strictly before.
pub proof fn lemma_node_order<K: Key, V: Copy>(tree: &TreeRepr<K, V>, i: int)
    requires
        tree.wf(),
        i >= 0,
        tree.spec_present(i),
    ensures
        tree.spec_present(2 * i + 1) ==> tree.spec_entry(2 * i + 1).0.le_spec(tree.spec_entry(i).0),
        tree.spec_present(2 * i + 2) ==> tree.spec_entry(i).0.le_spec(tree.spec_entry(2 * i + 2).0),
        tree.spec_present(2 * i + 1) && distinct_keys(tree@) ==> tree.spec_entry(2 * i + 1).0 != tree.spec_entry(i).0,
{
    let t = tree.data@;
    lemma_bst_at(t, i);
    lemma_unfold(t, i);
    let l = inorder(t, 2 * i + 1);
    let r = inorder(t, 2 * i + 2);
    if present(t, 2 * i + 1) {
        lemma_inorder_unfold(t, 2 * i + 1);
        let a = inorder(t, 2 * (2 * i + 1) + 1).len();
        assert(l[a as int] == entry(t, 2 * i + 1));
        if distinct_keys(tree@) {
            lemma_offset(t, i);
            let s = inorder(t, i);
            assert(s[a as int] == entry(t, 2 * i + 1));
            assert(s[l.len() as int] == entry(t, i));
            assert(tree@[offset(t, i) + a] == s[a as int]);
            assert(tree@[offset(t, i) + l.len()] == s[l.len() as int]);
        }
    }
    if present(t, 2 * i + 2) {
        lemma_inorder_unfold(t, 2 * i + 2);
        let b = inorder(t, 2 * (2 * i + 2) + 1).len();
        assert(r[b as int] == entry(t, 2 * i + 2));
    }
}

/// No orphans: the parent of every occupied non-root slot is occupied.
pub proof fn lemma_no_orphans<K: Key, V: Copy>(tree: &TreeRepr<K, V>, i: int)
    requires
        tree.wf(),
        i > 0,
        tree.spec_present(i),
    ensures
        tree.spec_present((i - 1) / 2),
{
    assert(tree.data@[i] is Some);
}

/// The entry count equals the number of occupied slots.
pub proof fn lemma_size_is_popcount<K: Key, V: Copy>(tree: &TreeRepr<K, V>)
    requires
        tree.wf(),
    ensures
        tree.size == popcount(tree.data@),
{
    lemma_popcount(tree.data@);
}

/// What holds after the first move of a hole repair, for the recursive repair of
/// the slot the moved entry left.
proof fn lemma_fill_pre<K: Key, V>(t0: Seq<Option<(K, V)>>, t1: Seq<Option<(K, V)>>, h: int, c: int, m: int, from_left: bool)
    requires
        h >= 0,
        c == if from_left { 2 * h + 1 } else { 2 * h + 2 },
        from_left ==> right_spine(t0, c, m) && !present(t0, 2 * m + 2),
        !from_left ==> left_spine(t0, c, m) && !present(t0, 2 * m + 1) && !present(t0, 2 * h + 1),
        in_sub(c, m),
        in_sub(h, m),
        m > h,
        !present(t0, h),
        bst(t0, c),
        integrity_except(t0, h),
        h == 0 || present(t0, (h - 1) / 2),
        t1 == t0.update(h, t0[m]).update(m, None),
        m < t0.len(),
    ensures
        !present(t1, m),
        bst(t1, 2 * m + 1),
        bst(t1, 2 * m + 2),
        pair_ordered(inorder(t1, 2 * m + 1), inorder(t1, 2 * m + 2)),
        integrity_except(t1, m),
        present(t1, (m - 1) / 2),
        forall|j: int| j != h && j != m ==> slot(t1, j) == slot(t0, j),
{
    lemma_bst_spine(t0, c, m);
    lemma_bst_unfold(t0, m);
    lemma_in_sub_child(m, m);
    assert(in_sub(h, h));
    assert forall|j: int| in_sub(2 * m + 1, j) implies slot(t1, j) == slot(t0, j) by {
        lemma_in_sub_child(m, j);
        if j == h {
            lemma_in_sub_trans(h, m, 2 * m + 1);
        }
    }
    assert forall|j: int| in_sub(2 * m + 2, j) implies slot(t1, j) == slot(t0, j) by {
        lemma_in_sub_child(m, j);
    }
    lemma_frame(t1, t0, 2 * m + 1);
    lemma_frame(t1, t0, 2 * m + 2);
    lemma_inorder_unfold(t1, 2 * m + 1);
    lemma_inorder_unfold(t1, 2 * m + 2);
    if from_left {
        lemma_inorder_unfold(t0, 2 * m + 2);
    } else {
        lemma_inorder_unfold(t0, 2 * m + 1);
    }
    assert forall|j: int| 0 < j < t1.len() && (#[trigger] t1[j]) is Some && (j - 1) / 2 != m implies t1[(j - 1) / 2] is Some by {
        if j == h {
            assert(t0[(j - 1) / 2] is Some);
        } else {
            assert(t0[j] is Some);
            if (j - 1) / 2 != h {
                assert(t0[(j - 1) / 2] is Some);
            }
        }
    }
    let p = (m - 1) / 2;
    if m != c {
        if from_left {
            assert(right_spine(t0, c, p));
        } else {
            assert(left_spine(t0, c, p));
        }
        lemma_spine_in_sub(t0, c, p);
        assert(present(t0, p));
        assert(p != h);
    }
}

/// After the repair below a hole filled from the left subtree: the hole's
/// subtree holds both old subtrees in order.
proof fn lemma_fill_post_left<K: Key, V>(t0: Seq<Option<(K, V)>>, t1: Seq<Option<(K, V)>>, t2: Seq<Option<(K, V)>>, h: int, m: int)
    requires
        h >= 0,
        right_spine(t0, 2 * h + 1, m),
        !present(t0, 2 * m + 2),
        entry(t0, m) == inorder(t0, 2 * h + 1).last(),
        in_sub(2 * h + 1, m),
        in_sub(h, m),
        m > h,
        !present(t0, h),
        bst(t0, 2 * h + 1),
        bst(t0, 2 * h + 2),
        pair_ordered(inorder(t0, 2 * h + 1), inorder(t0, 2 * h + 2)),
        t1 == t0.update(h, t0[m]).update(m, None),
        m < t0.len(),
        h < t0.len(),
        t2.len() == t1.len(),
        inorder(t2, m) == inorder(t1, 2 * m + 1) + inorder(t1, 2 * m + 2),
        bst(t2, m),
        forall|j: int| !in_sub(m, j) ==> slot(t2, j) == slot(t1, j),
        forall|j: int| j != h && j != m ==> slot(t1, j) == slot(t0, j),
    ensures
        inorder(t2, h) == inorder(t0, 2 * h + 1) + inorder(t0, 2 * h + 2),
        bst(t2, h),
        forall|j: int| !in_sub(h, j) ==> slot(t2, j) == slot(t0, j),
        present(t2, h),
        inorder(t2, 2 * h + 2) == inorder(t0, 2 * h + 2),
{
    let l = 2 * h + 1;
    let a = inorder(t0, l);
    let b = inorder(t0, 2 * h + 2);
    lemma_in_sub_child(h, h);
    assert(in_sub(h, h));
    lemma_bst_spine(t0, l, m);
    lemma_unfold(t0, m);
    assert forall|j: int| in_sub(2 * m + 1, j) implies slot(t1, j) == slot(t0, j) by {
        lemma_in_sub_child(m, j);
        if j == h {
            lemma_in_sub_trans(h, m, 2 * m + 1);
        }
    }
    assert forall|j: int| in_sub(2 * m + 2, j) implies slot(t1, j) == slot(t0, j) by {
        lemma_in_sub_child(m, j);
    }
    lemma_frame(t1, t0, 2 * m + 1);
    lemma_frame(t1, t0, 2 * m + 2);
    lemma_inorder_unfold(t0, 2 * m + 2);
    assert(inorder(t2, m) =~= inorder(t0, m).drop_last());
    assert forall|j: int| in_sub(l, j) && !in_sub(m, j) implies slot(t2, j) == slot(t0, j) by {
        lemma_in_sub_child(h, j);
    }
    lemma_right_spine_drop(t0, t2, l, m);
    assert forall|j: int| in_sub(2 * h + 2, j) implies slot(t2, j) == slot(t0, j) by {
        lemma_in_sub_child(h, j);
        if in_sub(m, j) {
            lemma_in_sub_trans(l, m, j);
        }
    }
    lemma_frame(t2, t0, 2 * h + 2);
    assert(!in_sub(m, h));
    assert(slot(t2, h) == slot(t0, m));
    lemma_unfold(t2, h);
    lemma_bst_sorted(t0, l);
    lemma_key_order::<K>();
    assert(a.drop_last() + seq![a.last()] + b =~= a + b);
    assert forall|i: int| 0 <= i < a.drop_last().len() implies (#[trigger] a.drop_last()[i]).0.le_spec(a.last().0) by {
        assert(a.drop_last()[i] == a[i]);
    }
    assert forall|i: int| 0 <= i < b.len() implies a.last().0.le_spec((#[trigger] b[i]).0) by {
        assert(a[a.len() - 1].0.le_spec(b[i].0));
    }
    assert forall|j: int| !in_sub(h, j) implies slot(t2, j) == slot(t0, j) by {
        if in_sub(m, j) {
            lemma_in_sub_trans(h, m, j);
        }
    }
}

/// After the repair below a hole filled from the right subtree (the left one
/// being empty): the hole's subtree holds the old right subtree.
proof fn lemma_fill_post_right<K: Key, V>(t0: Seq<Option<(K, V)>>, t1: Seq<Option<(K, V)>>, t2: Seq<Option<(K, V)>>, h: int, m: int)
    requires
        h >= 0,
        left_spine(t0, 2 * h + 2, m),
        !present(t0, 2 * m + 1),
        !present(t0, 2 * h + 1),
        entry(t0, m) == inorder(t0, 2 * h + 2)[0],
        in_sub(2 * h + 2, m),
        in_sub(h, m),
        m > h,
        !present(t0, h),
        bst(t0, 2 * h + 2),
        t1 == t0.update(h, t0[m]).update(m, None),
        m < t0.len(),
        h < t0.len(),
        t2.len() == t1.len(),
        inorder(t2, m) == inorder(t1, 2 * m + 1) + inorder(t1, 2 * m + 2),
        bst(t2, m),
        forall|j: int| !in_sub(m, j) ==> slot(t2, j) == slot(t1, j),
        forall|j: int| j != h && j != m ==> slot(t1, j) == slot(t0, j),
    ensures
        inorder(t2, h) == inorder(t0, 2 * h + 1) + inorder(t0, 2 * h + 2),
        bst(t2, h),
        forall|j: int| !in_sub(h, j) ==> slot(t2, j) == slot(t0, j),
        present(t2, h),
        inorder(t2, 2 * h + 2) == inorder(t0, 2 * h + 2).drop_first(),
{
    let r = 2 * h + 2;
    let b = inorder(t0, r);
    lemma_in_sub_child(h, h);
    assert(in_sub(h, h));
    lemma_bst_spine(t0, r, m);
    lemma_unfold(t0, m);
    assert forall|j: int| in_sub(2 * m + 1, j) implies slot(t1, j) == slot(t0, j) by {
        lemma_in_sub_child(m, j);
    }
    assert forall|j: int| in_sub(2 * m + 2, j) implies slot(t1, j) == slot(t0, j) by {
        lemma_in_sub_child(m, j);
        if j == h {
            lemma_in_sub_trans(h, m, 2 * m + 2);
        }
    }
    lemma_frame(t1, t0, 2 * m + 1);
    lemma_frame(t1, t0, 2 * m + 2);
    lemma_inorder_unfold(t0, 2 * m + 1);
    assert(inorder(t2, m) =~= inorder(t0, m).drop_first());
    assert forall|j: int| in_sub(r, j) && !in_sub(m, j) implies slot(t2, j) == slot(t0, j) by {
        lemma_in_sub_child(h, j);
    }
    lemma_left_spine_drop(t0, t2, r, m);
    assert forall|j: int| in_sub(2 * h + 1, j) implies slot(t2, j) == slot(t0, j) by {
        lemma_in_sub_child(h, j);
        if in_sub(m, j) {
            lemma_in_sub_trans(r, m, j);
        }
    }
    lemma_frame(t2, t0, 2 * h + 1);
    lemma_unfold(t0, 2 * h + 1);
    assert(!in_sub(m, h));
    assert(slot(t2, h) == slot(t0, m));
    lemma_unfold(t2, h);
    lemma_bst_sorted(t0, r);
    lemma_key_order::<K>();
    assert(Seq::<(K, V)>::empty() + seq![b[0]] + b.drop_first() =~= inorder(t0, 2 * h + 1) + b);
    assert forall|i: int| 0 <= i < b.drop_first().len() implies b[0].0.le_spec((#[trigger] b.drop_first()[i]).0) by {
        assert(b.drop_first()[i] == b[i + 1]);
    }
    assert forall|j: int| !in_sub(h, j) implies slot(t2, j) == slot(t0, j) by {
        if in_sub(m, j) {
            lemma_in_sub_trans(h, m, j);
        }
    }
}

/// The 1-based number of the nearest enclosing subtree of the 1-based slot `j`
/// whose root is a left child, or 0 when `j` lies on the root's right spine.
pub fn left_enclosing(j: usize) -> (r: usize)
    ensures
        r == left_enclosing_spec(j as int),
{
    let mut cur = j;
    while cur % 2 == 1
        invariant
            left_enclosing_spec(cur as int) == left_enclosing_spec(j as int),
        decreases cur,
    {
        cur = cur / 2;
    }
    cur
}

/// The 1-based number of the nearest enclosing subtree of the 1-based slot
/// `j >= 1` whose root is a right child, or 1 when `j` lies on the root's left spine.
pub fn right_enclosing(j: usize) -> (r: usize)
    requires
        j >= 1,
    ensures
        r == right_enclosing_spec(j as int),
{
    let mut cur = j;
    while cur > 1 && cur % 2 == 0
        invariant
            cur >= 1,
            right_enclosing_spec(cur as int) == right_enclosing_spec(j as int),
        decreases cur,
    {
        cur = cur / 2;
    }
    cur
}

/// Where a present slot's entry stands in the whole sequence.
proof fn lemma_position<K, V>(t: Seq<Option<(K, V)>>, i: int)
    requires
        integrity(t),
        i >= 0,
        present(t, i),
    ensures
        0 <= position(t, i) < inorder(t, 0).len(),
        inorder(t, 0)[position(t, i)] == entry(t, i),
{
    lemma_offset(t, i);
    lemma_inorder_unfold(t, i);
    let k = inorder(t, 2 * i + 1).len() as int;
    assert(inorder(t, i)[k] == entry(t, i));
}

/// The successor of a slot with a right subtree is the start of that subtree.
proof fn lemma_succ_below<K, V>(t: Seq<Option<(K, V)>>, idx: int, r: int)
    requires
        integrity(t),
        idx >= 0,
        present(t, idx),
        left_spine(t, 2 * idx + 2, r),
        !present(t, 2 * r + 1),
    ensures
        present(t, r),
        position(t, r) == position(t, idx) + 1,
        inorder(t, 0)[position(t, idx) + 1] == entry(t, r),
{
    lemma_spine_in_sub(t, 2 * idx + 2, r);
    lemma_spine_start(t, 2 * idx + 2, r);
    lemma_inorder_unfold(t, 2 * r + 1);
    lemma_position(t, r);
}

/// A slot on the root's right spine without a right child holds the last entry.
proof fn lemma_succ_last<K, V>(t: Seq<Option<(K, V)>>, idx: int)
    requires
        idx >= 0,
        right_spine(t, 0, idx),
        !present(t, 2 * idx + 2),
    ensures
        position(t, idx) + 1 == inorder(t, 0).len(),
{
    lemma_spine_end(t, 0, idx);
    lemma_inorder_unfold(t, idx);
    lemma_inorder_unfold(t, 2 * idx + 2);
}

/// The successor of the last slot of a left child's right spine is its parent.
proof fn lemma_succ_above<K, V>(t: Seq<Option<(K, V)>>, idx: int, a: int)
    requires
        integrity(t),
        idx >= 0,
        a >= 1,
        a % 2 == 1,
        right_spine(t, a, idx),
        !present(t, 2 * idx + 2),
    ensures
        present(t, (a - 1) / 2),
        position(t, (a - 1) / 2) == position(t, idx) + 1,
        inorder(t, 0)[position(t, idx) + 1] == entry(t, (a - 1) / 2),
{
    let p = (a - 1) / 2;
    lemma_spine_end(t, a, idx);
    lemma_spine_in_sub(t, a, idx);
    assert(a == 2 * p + 1);
    assert(t[a] is Some);
    assert(present(t, p));
    lemma_inorder_unfold(t, idx);
    lemma_inorder_unfold(t, 2 * idx + 2);
    lemma_position(t, p);
}

// Where the slot entry of a subtree stands in its sequence.
proof fn lemma_node_split<K: Key, V>(t: Seq<Option<(K, V)>>, idx: int, lp: Seq<(K, V)>, rest: Seq<(K, V)>, c: int, x: int)
    requires
        idx >= 0,
        present(t, idx),
        0 <= c,
        x == 0 || x == 1,
        c + x <= rest.len(),
        inorder(t, idx) == lp + rest.skip(c),
        inorder(t, 2 * idx + 2) == rest.skip(c + x),
        x == 1 ==> inorder(t, 2 * idx + 1) == lp,
        x == 0 ==> lp.len() > 0,
    ensures
        inorder(t, 2 * idx + 1) + seq![entry(t, idx)] == lp + rest.skip(c).take(x),
        x == 1 ==> entry(t, idx) == rest[c],
        x == 0 ==> entry(t, idx) == lp.last(),
{
    lemma_inorder_unfold(t, idx);
    let l = inorder(t, 2 * idx + 1);
    let s = inorder(t, idx);
    assert(s == l + seq![entry(t, idx)] + rest.skip(c + x));
    assert(rest.skip(c) =~= rest.skip(c).take(x) + rest.skip(c + x));
    assert(l + seq![entry(t, idx)] =~= lp + rest.skip(c).take(x)) by {
        assert(s.len() == lp.len() + rest.skip(c).len());
        assert forall|i: int| 0 <= i < l.len() + 1 implies (l + seq![entry(t, idx)])[i] == (lp + rest.skip(c).take(x))[i] by {
            assert(s[i] == (l + seq![entry(t, idx)])[i]);
            assert(s[i] == (lp + rest.skip(c))[i]);
        }
    }
    if x == 1 {
        assert((lp + rest.skip(c).take(x))[lp.len() as int] == rest[c]);
    } else {
        assert((lp + rest.skip(c).take(x))[lp.len() - 1] == lp.last());
    }
}

/// The facts a hole repair needs after the entry at `idx` was taken out.
proof fn lemma_take_pre<K: Key, V>(tb: Seq<Option<(K, V)>>, t1: Seq<Option<(K, V)>>, idx: int)
    requires
        idx >= 0,
        0 <= idx < tb.len(),
        present(tb, idx),
        integrity(tb),
        bst(tb, idx),
        t1 == tb.update(idx, None),
    ensures
        !present(t1, idx),
        bst(t1, 2 * idx + 1),
        bst(t1, 2 * idx + 2),
        inorder(t1, 2 * idx + 1) == inorder(tb, 2 * idx + 1),
        inorder(t1, 2 * idx + 2) == inorder(tb, 2 * idx + 2),
        pair_ordered(inorder(t1, 2 * idx + 1), inorder(t1, 2 * idx + 2)),
        integrity_except(t1, idx),
        idx > 0 ==> present(tb, (idx - 1) / 2),
{
    lemma_unfold(tb, idx);
    lemma_key_order::<K>();
    let e = entry(tb, idx);
    let a = inorder(tb, 2 * idx + 1);
    let b = inorder(tb, 2 * idx + 2);
    assert forall|i: int, j: int| 0 <= i < a.len() && 0 <= j < b.len() implies (#[trigger] a[i]).0.le_spec((#[trigger] b[j]).0) by {
        assert(a[i].0.le_spec(e.0));
        assert(e.0.le_spec(b[j].0));
    }
    lemma_in_sub_child(idx, idx);
    assert forall|j: int| in_sub(2 * idx + 1, j) implies slot(t1, j) == slot(tb, j) by {
        lemma_in_sub_child(idx, j);
    }
    assert forall|j: int| in_sub(2 * idx + 2, j) implies slot(t1, j) == slot(tb, j) by {
        lemma_in_sub_child(idx, j);
    }
    lemma_frame(t1, tb, 2 * idx + 1);
    lemma_frame(t1, tb, 2 * idx + 2);
    if idx > 0 {
        assert(tb[idx] is Some);
    }
}

/// One round of taking the slot entry and repairing the slot keeps the loop's facts.
proof fn lemma_loop_step<K: Key, V>(
    t0: Seq<Option<(K, V)>>,
    tb: Seq<Option<(K, V)>>,
    t1: Seq<Option<(K, V)>>,
    t2: Seq<Option<(K, V)>>,
    idx: int,
    lp: Seq<(K, V)>,
    rest: Seq<(K, V)>,
    c: int,
)
    requires
        idx >= 0,
        0 <= c < rest.len(),
        present(tb, idx),
        entry(tb, idx) == rest[c],
        inorder(tb, 2 * idx + 1) == lp,
        inorder(tb, 2 * idx + 2) == rest.skip(c + 1),
        t1 == tb.update(idx, None),
        idx < tb.len(),
        inorder(t1, 2 * idx + 1) == inorder(tb, 2 * idx + 1),
        inorder(t1, 2 * idx + 2) == inorder(tb, 2 * idx + 2),
        forall|j: int| !in_sub(idx, j) ==> slot(tb, j) == slot(t0, j),
        inorder(t2, idx) == inorder(t1, 2 * idx + 1) + inorder(t1, 2 * idx + 2),
        forall|j: int| !in_sub(idx, j) ==> slot(t2, j) == slot(t1, j),
        inorder(t1, 2 * idx + 1).len() > 0 ==> present(t2, idx) && inorder(t2, 2 * idx + 2) == inorder(t1, 2 * idx + 2),
        inorder(t1, 2 * idx + 1).len() == 0 && inorder(t1, 2 * idx + 2).len() > 0 ==> present(t2, idx)
            && inorder(t2, 2 * idx + 2) == inorder(t1, 2 * idx + 2).drop_first(),
        inorder(t1, 2 * idx + 1).len() == 0 && inorder(t1, 2 * idx + 2).len() == 0 ==> !present(t2, idx),
    ensures
        forall|j: int| !in_sub(idx, j) ==> slot(t2, j) == slot(t0, j),
        inorder(t2, idx) == lp + rest.skip(c + 1),
        !present(t2, idx) ==> lp.len() == 0 && c + 1 == rest.len(),
        present(t2, idx) ==> {
            let x = if lp.len() > 0 { 0int } else { 1int };
            &&& c + 1 + x <= rest.len()
            &&& inorder(t2, 2 * idx + 2) == rest.skip(c + 1 + x)
            &&& inorder(t2, 2 * idx + 1) + seq![entry(t2, idx)] == lp + rest.skip(c + 1).take(x)
            &&& (x == 1 ==> inorder(t2, 2 * idx + 1) == lp && entry(t2, idx) == rest[c + 1])
            &&& (x == 0 ==> lp.len() > 0 && entry(t2, idx) == lp.last())
        },
{
    assert forall|j: int| !in_sub(idx, j) implies slot(t2, j) == slot(t0, j) by {
        assert(in_sub(idx, idx));
        if j == idx {
        } else {
            assert(slot(t1, j) == slot(tb, j));
        }
    }
    let r1 = rest.skip(c + 1);
    lemma_after_take(t2, idx, lp, r1);
    assert(r1.skip(0) =~= r1);
    if present(t2, idx) {
        let x = if lp.len() > 0 { 0int } else { 1int };
        if x == 1 {
            assert(r1.skip(1) =~= rest.skip(c + 2));
        }
        lemma_node_split(t2, idx, lp, rest, c + 1, x);
    }
}

/// Regroups appended pieces of output.
proof fn lemma_out_assoc<A>(o: Seq<A>, a: Seq<A>, b: Seq<A>, c: Seq<A>)
    ensures
        o + a + b + c == o + (a + (b + (Seq::<A>::empty() + c))),
{
    assert(o + a + b + c =~= o + (a + (b + (Seq::<A>::empty() + c))));
}

/// Reads the new slot entry and left subtree off a finished hole repair.
proof fn lemma_after_take<K: Key, V>(t2: Seq<Option<(K, V)>>, idx: int, lp: Seq<(K, V)>, rest: Seq<(K, V)>)
    requires
        idx >= 0,
        inorder(t2, idx) == lp + rest,
        lp.len() > 0 ==> present(t2, idx) && inorder(t2, 2 * idx + 2) == rest,
        lp.len() == 0 && rest.len() > 0 ==> present(t2, idx) && inorder(t2, 2 * idx + 2) == rest.drop_first(),
        lp.len() == 0 && rest.len() == 0 ==> !present(t2, idx),
    ensures
        !present(t2, idx) ==> lp.len() == 0 && rest.len() == 0,
        present(t2, idx) && lp.len() > 0 ==> inorder(t2, 2 * idx + 2) == rest.skip(0),
        present(t2, idx) && lp.len() == 0 ==> rest.len() > 0 && inorder(t2, 2 * idx + 2) == rest.skip(1)
            && inorder(t2, 2 * idx + 1) == lp,
{
    lemma_inorder_unfold(t2, idx);
    assert(rest.skip(0) == rest);
    if present(t2, idx) && lp.len() == 0 {
        assert(rest.drop_first() =~= rest.skip(1));
        assert(inorder(t2, 2 * idx + 1).len() == 0);
        assert(inorder(t2, 2 * idx + 1) =~= lp);
    }
}

/// Entries that the driver and the filter both take.
pub open spec fn chosen_by<K: Key, V, D: TraversalDriver<K>, F: ItemFilter<K>>(drv: D, flt: F) -> spec_fn((K, V)) -> bool {
    |e: (K, V)| drv.selects(e.0) && flt.accepts(e.0)
}

/// Entries that the driver or the filter leaves.
pub open spec fn kept_by<K: Key, V, D: TraversalDriver<K>, F: ItemFilter<K>>(drv: D, flt: F) -> spec_fn((K, V)) -> bool {
    |e: (K, V)| !(drv.selects(e.0) && flt.accepts(e.0))
}

/// The entries of `s` that a bulk deletion with `drv` and `flt` removes, in order.
#[verifier::opaque]
pub open spec fn chosen_of<K: Key, V, D: TraversalDriver<K>, F: ItemFilter<K>>(s: Seq<(K, V)>, drv: D, flt: F) -> Seq<(K, V)> {
    s.filter(chosen_by::<K, V, D, F>(drv, flt))
}

/// The entries of `s` that a bulk deletion with `drv` and `flt` keeps, in order.
#[verifier::opaque]
pub open spec fn kept_of<K: Key, V, D: TraversalDriver<K>, F: ItemFilter<K>>(s: Seq<(K, V)>, drv: D, flt: F) -> Seq<(K, V)> {
    s.filter(kept_by::<K, V, D, F>(drv, flt))
}

proof fn lemma_of_empty<K: Key, V, D: TraversalDriver<K>, F: ItemFilter<K>>(drv: D, flt: F)
    ensures
        chosen_of(Seq::<(K, V)>::empty(), drv, flt) == Seq::<(K, V)>::empty(),
        kept_of(Seq::<(K, V)>::empty(), drv, flt) == Seq::<(K, V)>::empty(),
{
    reveal(chosen_of);
    reveal(kept_of);
    reveal(Seq::filter);
}

/// What is kept stays unselected and within any bound the whole sequence keeps.
proof fn lemma_kept_facts<K: Key, V, D: TraversalDriver<K>, F: ItemFilter<K>>(drv: D, flt: F, s: Seq<(K, V)>, k: K)
    ensures
        forall|i: int| 0 <= i < kept_of(s, drv, flt).len()
            ==> !(drv.selects((#[trigger] kept_of(s, drv, flt)[i]).0) && flt.accepts(kept_of(s, drv, flt)[i].0)),
        all_le(s, k) ==> all_le(kept_of(s, drv, flt), k),
        all_ge(s, k) ==> all_ge(kept_of(s, drv, flt), k),
        chosen_of(s, drv, flt).len() + kept_of(s, drv, flt).len() == s.len(),
{
    reveal(chosen_of);
    reveal(kept_of);
    let p = chosen_by::<K, V, D, F>(drv, flt);
    let np = kept_by::<K, V, D, F>(drv, flt);
    assert forall|i: int| 0 <= i < s.filter(np).len() implies !(drv.selects((#[trigger] s.filter(np)[i]).0) && flt.accepts(s.filter(np)[i].0)) by {
        s.lemma_filter_pred(np, i);
    }
    if all_le(s, k) {
        lemma_filter_all(s, np, |y: (K, V)| y.0.le_spec(k));
    }
    if all_ge(s, k) {
        lemma_filter_all(s, np, |y: (K, V)| k.le_spec(y.0));
    }
    lemma_filter_split_len(s, p, np);
}

/// Left of a key at which the driver closes the left side, nothing is selected.
proof fn lemma_skip_left<K: Key, V, D: TraversalDriver<K>, F: ItemFilter<K>>(drv: D, flt: F, k: K, l0: Seq<(K, V)>)
    requires
        !drv.spec_left(k),
        all_le(l0, k),
    ensures
        chosen_of(l0, drv, flt) == Seq::<(K, V)>::empty(),
        kept_of(l0, drv, flt) == l0,
{
    reveal(chosen_of);
    reveal(kept_of);
    let p = chosen_by::<K, V, D, F>(drv, flt);
    let np = kept_by::<K, V, D, F>(drv, flt);
    assert forall|i: int| 0 <= i < l0.len() implies !p(#[trigger] l0[i]) && np(l0[i]) by {
        drv.lemma_decide(k, l0[i].0);
    }
    lemma_filter_none(l0, p);
    lemma_filter_every(l0, np);
}

/// Right of a key at which the driver closes the right side (and not the left),
/// nothing is selected; no entry was taken at such a slot.
proof fn lemma_skip_right<K: Key, V, D: TraversalDriver<K>, F: ItemFilter<K>>(
    drv: D,
    flt: F,
    k: K,
    rest: Seq<(K, V)>,
    c: int,
    x: int,
    r0: Seq<(K, V)>,
)
    requires
        drv.spec_left(k),
        !drv.spec_right(k),
        all_ge(r0, k),
        rest.len() > 0,
        rest[0].0 == k,
        rest.skip(1) == r0,
        0 <= c <= rest.len(),
        forall|i: int| 0 <= i < c ==> drv.selects((#[trigger] rest[i]).0) && flt.accepts(rest[i].0),
        c == 0 ==> x == 1,
    ensures
        c == 0,
        x == 1,
        chosen_of(rest.skip(c + x), drv, flt) == Seq::<(K, V)>::empty(),
        kept_of(rest.skip(c + x), drv, flt) == rest.skip(c + x),
{
    drv.lemma_decide(k, k);
    if c > 0 {
        assert(drv.selects(rest[0].0));
    }
    reveal(chosen_of);
    reveal(kept_of);
    let p = chosen_by::<K, V, D, F>(drv, flt);
    let np = kept_by::<K, V, D, F>(drv, flt);
    assert forall|i: int| 0 <= i < r0.len() implies !p(#[trigger] r0[i]) && np(r0[i]) by {
        drv.lemma_decide(k, r0[i].0);
    }
    lemma_filter_none(r0, p);
    lemma_filter_every(r0, np);
}

/// After the left subtree was filtered: the slot entry and right subtree stay.
proof fn lemma_after_left<K: Key, V>(t0: Seq<Option<(K, V)>>, t1: Seq<Option<(K, V)>>, idx: int, lp: Seq<(K, V)>)
    requires
        idx >= 0,
        present(t0, idx),
        bst(t0, idx),
        inorder(t1, 2 * idx + 1) == lp,
        all_le(lp, entry(t0, idx).0),
        bst(t1, 2 * idx + 1),
        forall|j: int| !in_sub(2 * idx + 1, j) ==> slot(t1, j) == slot(t0, j),
    ensures
        present(t1, idx),
        entry(t1, idx) == entry(t0, idx),
        inorder(t1, 2 * idx + 2) == inorder(t0, 2 * idx + 2),
        inorder(t1, idx) == lp + seq![entry(t0, idx)] + inorder(t0, 2 * idx + 2),
        bst(t1, idx),
        forall|j: int| !in_sub(idx, j) ==> slot(t1, j) == slot(t0, j),
{
    lemma_in_sub_child(idx, idx);
    assert forall|j: int| in_sub(2 * idx + 2, j) implies slot(t1, j) == slot(t0, j) by {
        lemma_in_sub_child(idx, j);
    }
    lemma_frame(t1, t0, 2 * idx + 2);
    lemma_unfold(t0, idx);
    lemma_unfold(t1, idx);
    assert forall|j: int| !in_sub(idx, j) implies slot(t1, j) == slot(t0, j) by {
        lemma_in_sub_child(idx, j);
    }
}

/// After the right subtree was filtered: the slot entry and left subtree stay.
proof fn lemma_after_right<K: Key, V>(t3: Seq<Option<(K, V)>>, t4: Seq<Option<(K, V)>>, idx: int, rf: Seq<(K, V)>)
    requires
        idx >= 0,
        present(t3, idx),
        bst(t3, idx),
        inorder(t4, 2 * idx + 2) == rf,
        all_ge(rf, entry(t3, idx).0),
        bst(t4, 2 * idx + 2),
        forall|j: int| !in_sub(2 * idx + 2, j) ==> slot(t4, j) == slot(t3, j),
    ensures
        present(t4, idx),
        entry(t4, idx) == entry(t3, idx),
        inorder(t4, 2 * idx + 1) == inorder(t3, 2 * idx + 1),
        bst(t4, idx),
        forall|j: int| !in_sub(idx, j) ==> slot(t4, j) == slot(t3, j),
{
    lemma_in_sub_child(idx, idx);
    assert forall|j: int| in_sub(2 * idx + 1, j) implies slot(t4, j) == slot(t3, j) by {
        lemma_in_sub_child(idx, j);
    }
    lemma_frame(t4, t3, 2 * idx + 1);
    lemma_unfold(t3, idx);
    lemma_unfold(t4, idx);
    assert forall|j: int| !in_sub(idx, j) implies slot(t4, j) == slot(t3, j) by {
        lemma_in_sub_child(idx, j);
    }
}

/// Assembles the slot's final sequence and frame after both sides were handled.
proof fn lemma_finish<K: Key, V>(
    t0: Seq<Option<(K, V)>>,
    t3: Seq<Option<(K, V)>>,
    t4: Seq<Option<(K, V)>>,
    idx: int,
    lp: Seq<(K, V)>,
    mid: Seq<(K, V)>,
    krr: Seq<(K, V)>,
)
    requires
        idx >= 0,
        present(t4, idx),
        entry(t4, idx) == entry(t3, idx),
        inorder(t4, 2 * idx + 1) == inorder(t3, 2 * idx + 1),
        inorder(t4, 2 * idx + 2) == krr,
        inorder(t3, 2 * idx + 1) + seq![entry(t3, idx)] == lp + mid,
        forall|j: int| !in_sub(idx, j) ==> slot(t4, j) == slot(t3, j),
        forall|j: int| !in_sub(idx, j) ==> slot(t3, j) == slot(t0, j),
    ensures
        inorder(t4, idx) == lp + (mid + krr),
        forall|j: int| !in_sub(idx, j) ==> slot(t4, j) == slot(t0, j),
{
    lemma_inorder_unfold(t4, idx);
    assert(inorder(t4, idx) =~= (inorder(t3, 2 * idx + 1) + seq![entry(t3, idx)]) + krr);
    assert(lp + (mid + krr) =~= (lp + mid) + krr);
}

/// How the kept and chosen parts of a subtree split around the entries taken at its slot.
proof fn lemma_compose<K: Key, V, D: TraversalDriver<K>, F: ItemFilter<K>>(
    drv: D,
    flt: F,
    l0: Seq<(K, V)>,
    rest: Seq<(K, V)>,
    c: int,
    x: int,
    node: (K, V),
)
    requires
        0 <= c,
        x == 0 || x == 1,
        c + x <= rest.len(),
        forall|i: int| 0 <= i < c ==> drv.selects((#[trigger] rest[i]).0) && flt.accepts(rest[i].0),
        x == 1 ==> rest[c] == node && !(drv.selects(node.0) && flt.accepts(node.0)),
    ensures
        kept_of(l0 + rest, drv, flt) == kept_of(l0, drv, flt) + (rest.skip(c).take(x) + kept_of(rest.skip(c + x), drv, flt)),
        chosen_of(l0 + rest, drv, flt) == chosen_of(l0, drv, flt) + (rest.take(c) + (Seq::<(K, V)>::empty() + chosen_of(rest.skip(c + x), drv, flt))),
{
    reveal(chosen_of);
    reveal(kept_of);
    let p = chosen_by::<K, V, D, F>(drv, flt);
    let np = kept_by::<K, V, D, F>(drv, flt);
    Seq::filter_distributes_over_add(l0, rest, p);
    Seq::filter_distributes_over_add(l0, rest, np);
    let mid = rest.skip(c).take(x);
    let rr = rest.skip(c + x);
    assert(rest =~= rest.take(c) + (mid + rr));
    Seq::filter_distributes_over_add(rest.take(c), mid + rr, p);
    Seq::filter_distributes_over_add(rest.take(c), mid + rr, np);
    Seq::filter_distributes_over_add(mid, rr, p);
    Seq::filter_distributes_over_add(mid, rr, np);
    assert forall|i: int| 0 <= i < rest.take(c).len() implies p(#[trigger] rest.take(c)[i]) && !np(rest.take(c)[i]) by {
        assert(rest.take(c)[i] == rest[i]);
    }
    lemma_filter_every(rest.take(c), p);
    lemma_filter_none(rest.take(c), np);
    assert forall|i: int| 0 <= i < mid.len() implies np(#[trigger] mid[i]) && !p(mid[i]) by {
        assert(mid[i] == rest[c]);
    }
    lemma_filter_every(mid, np);
    lemma_filter_none(mid, p);
}

/// When every entry at and right of the slot was taken.
proof fn lemma_compose_all<K: Key, V, D: TraversalDriver<K>, F: ItemFilter<K>>(drv: D, flt: F, l0: Seq<(K, V)>, rest: Seq<(K, V)>)
    requires
        forall|i: int| 0 <= i < rest.len() ==> drv.selects((#[trigger] rest[i]).0) && flt.accepts(rest[i].0),
    ensures
        kept_of(l0 + rest, drv, flt) == kept_of(l0, drv, flt),
        chosen_of(l0 + rest, drv, flt) == chosen_of(l0, drv, flt) + rest,
{
    reveal(chosen_of);
    reveal(kept_of);
    let p = chosen_by::<K, V, D, F>(drv, flt);
    let np = kept_by::<K, V, D, F>(drv, flt);
    Seq::filter_distributes_over_add(l0, rest, p);
    Seq::filter_distributes_over_add(l0, rest, np);
    lemma_filter_every(rest, p);
    assert forall|i: int| 0 <= i < rest.len() implies !np(#[trigger] rest[i]) by {
    }
    lemma_filter_none(rest, np);
    assert(l0.filter(np) + Seq::<(K, V)>::empty() =~= l0.filter(np));
}

/// After the left subtree was written, the slot and the right subtree are unchanged.
proof fn lemma_fill_mid<K: Key, V>(t0: Seq<Option<(K, V)>>, t1: Seq<Option<(K, V)>>, idx: int)
    requires
        idx >= 0,
        forall|j: int| !in_sub(2 * idx + 1, j) ==> slot(t1, j) == slot(t0, j),
    ensures
        slot(t1, idx) == slot(t0, idx),
        inorder(t1, 2 * idx + 2) == inorder(t0, 2 * idx + 2),
{
    lemma_in_sub_child(idx, idx);
    assert forall|j: int| in_sub(2 * idx + 2, j) implies slot(t1, j) == slot(t0, j) by {
        lemma_in_sub_child(idx, j);
    }
    lemma_frame_seq(t1, t0, 2 * idx + 2);
}

/// Writing the slot itself leaves both subtrees unchanged.
proof fn lemma_fill_mid2<K: Key, V>(t0: Seq<Option<(K, V)>>, t1: Seq<Option<(K, V)>>, t2: Seq<Option<(K, V)>>, idx: int)
    requires
        idx >= 0,
        0 <= idx < t1.len(),
        t2.len() == t1.len(),
        forall|j: int| j != idx ==> slot(t2, j) == slot(t1, j),
        inorder(t1, 2 * idx + 2) == inorder(t0, 2 * idx + 2),
    ensures
        inorder(t2, 2 * idx + 2) == inorder(t0, 2 * idx + 2),
        inorder(t2, 2 * idx + 1) == inorder(t1, 2 * idx + 1),
        bst(t2, 2 * idx + 1) == bst(t1, 2 * idx + 1),
{
    lemma_in_sub_child(idx, idx);
    lemma_frame_seq(t2, t1, 2 * idx + 2);
    lemma_frame(t2, t1, 2 * idx + 1);
}

/// Joins the written left subtree, slot and right subtree.
proof fn lemma_fill_join<K: Key, V>(
    t0: Seq<Option<(K, V)>>,
    t1: Seq<Option<(K, V)>>,
    t2: Seq<Option<(K, V)>>,
    t3: Seq<Option<(K, V)>>,
    s: Seq<(K, V)>,
    c: int,
    c1: int,
    c2: int,
    idx: int,
)
    requires
        idx >= 0,
        0 <= c <= c1 < c2 <= s.len(),
        sorted_by_key(s),
        inorder(t1, 2 * idx + 1) == s.subrange(c, c1),
        bst(t1, 2 * idx + 1),
        forall|j: int| !in_sub(2 * idx + 1, j) ==> slot(t1, j) == slot(t0, j),
        0 <= idx < t1.len(),
        slot(t2, idx) == Some(s[c1]),
        forall|j: int| j != idx ==> slot(t2, j) == slot(t1, j),
        inorder(t2, 2 * idx + 1) == inorder(t1, 2 * idx + 1),
        bst(t2, 2 * idx + 1) == bst(t1, 2 * idx + 1),
        inorder(t3, 2 * idx + 2) == s.subrange(c1 + 1, c2),
        bst(t3, 2 * idx + 2),
        forall|j: int| !in_sub(2 * idx + 2, j) ==> slot(t3, j) == slot(t2, j),
    ensures
        inorder(t3, idx) == s.subrange(c, c2),
        bst(t3, idx),
        forall|j: int| !in_sub(idx, j) ==> slot(t3, j) == slot(t0, j),
{
    lemma_in_sub_child(idx, idx);
    assert forall|j: int| in_sub(2 * idx + 1, j) implies slot(t3, j) == slot(t2, j) by {
        lemma_in_sub_child(idx, j);
    }
    lemma_frame(t3, t2, 2 * idx + 1);
    assert(slot(t3, idx) == Some(s[c1]));
    lemma_unfold(t3, idx);
    assert(s.subrange(c, c2) =~= s.subrange(c, c1) + seq![s[c1]] + s.subrange(c1 + 1, c2));
    lemma_key_order::<K>();
    assert forall|j: int| !in_sub(idx, j) implies slot(t3, j) == slot(t0, j) by {
        lemma_in_sub_child(idx, j);
    }
}

/// Sorts entries by key with an insertion sort; equal keys keep their order.
pub fn sort_entries<K: Key, V: Copy>(items: &Vec<(K, V)>) -> (r: Vec<(K, V)>)
    ensures
        stable_sorted(r@, items@),
        r@.to_multiset() == items@.to_multiset(),
        r@.len() == items@.len(),
{
    broadcast use vstd::seq_lib::group_to_multiset_ensures;
    let mut out: Vec<(K, V)> = Vec::new();
    let mut i: usize = 0;
    while i < items.len()
        invariant
            i <= items@.len(),
            sorted_by_key(out@),
            out@.to_multiset() == items@.take(i as int).to_multiset(),
            forall|k: K| #[trigger] with_key(out@, k) == with_key(items@.take(i as int), k),
        decreases items@.len() - i,
    {
        let e = items[i];
        let mut pos: usize = 0;
        proof {
            lemma_key_order::<K>();
        }
        while pos < out.len() && out[pos].0.le_key(&e.0)
            invariant
                pos <= out@.len(),
                forall|j: int| 0 <= j < pos ==> (#[trigger] out@[j]).0.le_spec(e.0),
            decreases out@.len() - pos,
        {
            pos = pos + 1;
        }
        let ghost before = out@;
        proof {
            lemma_key_order::<K>();
            if pos < before.len() {
                assert(e.0.le_spec(before[pos as int].0));
                assert forall|j: int| pos <= j < before.len() implies e.0.le_spec((#[trigger] before[j]).0) by {
                    if j > pos {
                        assert(before[pos as int].0.le_spec(before[j].0));
                    }
                }
            }
        }
        out.insert(pos, e);
        proof {
            lemma_key_order::<K>();
            let s = out@;
            assert(s == before.insert(pos as int, e));
            assert forall|a: int, b: int| 0 <= a < b < s.len() implies (#[trigger] s[a]).0.le_spec((#[trigger] s[b]).0) by {
                if a < pos && b < pos {
                    assert(s[a] == before[a] && s[b] == before[b]);
                } else if a < pos && b == pos {
                    assert(s[a] == before[a]);
                } else if a < pos {
                    assert(s[a] == before[a] && s[b] == before[b - 1]);
                    assert(before[a].0.le_spec(e.0));
                } else if a == pos {
                    assert(s[b] == before[b - 1]);
                } else {
                    assert(s[a] == before[a - 1] && s[b] == before[b - 1]);
                }
            }
            assert(items@.take(i + 1) == items@.take(i as int).push(e));
            vstd::seq_lib::to_multiset_insert(before, pos as int, e);
            vstd::seq_lib::to_multiset_build(items@.take(i as int), e);
            assert forall|j: int| pos <= j < before.len() implies (#[trigger] before[j]).0 != e.0 by {
                if before[j].0 == e.0 {
                    assert(before[pos as int].0.le_spec(before[j].0));
                }
            }
            assert forall|k: K| #[trigger] with_key(out@, k) == with_key(items@.take(i + 1), k) by {
                assert(with_key(before, k) == with_key(items@.take(i as int), k));
                lemma_insert_with_key(before, pos as int, e, k);
                before.lemma_filter_push(e, key_is::<K, V>(k));
                items@.take(i as int).lemma_filter_push(e, key_is::<K, V>(k));
            }
        }
        i = i + 1;
    }
    assert(items@.take(items@.len() as int) =~= items@);
    proof {
        vstd::seq_lib::to_multiset_len(out@);
        vstd::seq_lib::to_multiset_len(items@);
    }
    out
}

} // verus!
