//! The mathematical model of an implicit tree: a sequence of optional
//! entries indexed in heap order, read through its in-order sequence.
use vstd::prelude::*;
use crate::base::{Key, lemma_key_order};

verus! {

/// The entry at heap index `i`, or `None` for an empty or out-of-range slot.
pub open spec fn slot<K, V>(t: Seq<Option<(K, V)>>, i: int) -> Option<(K, V)> {
    if 0 <= i < t.len() {
        t[i]
    } else {
        None
    }
}

pub open spec fn present<K, V>(t: Seq<Option<(K, V)>>, i: int) -> bool {
    slot(t, i) is Some
}

pub open spec fn entry<K, V>(t: Seq<Option<(K, V)>>, i: int) -> (K, V) {
    slot(t, i)->Some_0
}

/// Distance measure used to recurse down the heap.
pub open spec fn depth_measure<K, V>(t: Seq<Option<(K, V)>>, i: int) -> nat {
    if 0 <= i < t.len() {
        (t.len() - i) as nat
    } else {
        0
    }
}

/// The entries of the subtree rooted at `i`, in order.
#[verifier::opaque]
pub open spec fn inorder<K, V>(t: Seq<Option<(K, V)>>, i: int) -> Seq<(K, V)>
    decreases depth_measure(t, i),
{
    if i >= 0 && present(t, i) {
        inorder(t, 2 * i + 1) + seq![entry(t, i)] + inorder(t, 2 * i + 2)
    } else {
        Seq::empty()
    }
}

/// Every key of `s` orders at or before `k`.
pub open spec fn all_le<K: Key, V>(s: Seq<(K, V)>, k: K) -> bool {
    forall|j: int| 0 <= j < s.len() ==> (#[trigger] s[j]).0.le_spec(k)
}

/// Every key of `s` orders at or after `k`.
pub open spec fn all_ge<K: Key, V>(s: Seq<(K, V)>, k: K) -> bool {
    forall|j: int| 0 <= j < s.len() ==> k.le_spec((#[trigger] s[j]).0)
}

/// The search-tree order of the subtree rooted at `i`: keys on the left order
/// at or before the node's key, keys on the right at or after it.
#[verifier::opaque]
pub open spec fn bst<K: Key, V>(t: Seq<Option<(K, V)>>, i: int) -> bool
    decreases depth_measure(t, i),
{
    if i >= 0 && present(t, i) {
        &&& bst(t, 2 * i + 1)
        &&& bst(t, 2 * i + 2)
        &&& all_le(inorder(t, 2 * i + 1), entry(t, i).0)
        &&& all_ge(inorder(t, 2 * i + 2), entry(t, i).0)
    } else {
        true
    }
}

/// No orphans: the parent of every present non-root slot is present.
pub open spec fn integrity<K, V>(t: Seq<Option<(K, V)>>) -> bool {
    forall|j: int| 0 < j < t.len() && (#[trigger] t[j]) is Some ==> t[(j - 1) / 2] is Some
}

/// Keys of `s` in non-decreasing order.
pub open spec fn sorted_by_key<K: Key, V>(s: Seq<(K, V)>) -> bool {
    forall|a: int, b: int| 0 <= a < b < s.len() ==> (#[trigger] s[a]).0.le_spec((#[trigger] s[b]).0)
}

pub proof fn lemma_inorder_unfold<K, V>(t: Seq<Option<(K, V)>>, i: int)
    ensures
        inorder(t, i) == if i >= 0 && present(t, i) {
            inorder(t, 2 * i + 1) + seq![entry(t, i)] + inorder(t, 2 * i + 2)
        } else {
            Seq::empty()
        },
{
    reveal(inorder);
}

pub proof fn lemma_bst_unfold<K: Key, V>(t: Seq<Option<(K, V)>>, i: int)
    ensures
        bst(t, i) == if i >= 0 && present(t, i) {
            &&& bst(t, 2 * i + 1)
            &&& bst(t, 2 * i + 2)
            &&& all_le(inorder(t, 2 * i + 1), entry(t, i).0)
            &&& all_ge(inorder(t, 2 * i + 2), entry(t, i).0)
        } else {
            true
        },
{
    reveal(bst);
}

/// Unfolds both the sequence and the order of the subtree at `i`.
pub proof fn lemma_unfold<K: Key, V>(t: Seq<Option<(K, V)>>, i: int)
    ensures
        inorder(t, i) == if i >= 0 && present(t, i) {
            inorder(t, 2 * i + 1) + seq![entry(t, i)] + inorder(t, 2 * i + 2)
        } else {
            Seq::empty()
        },
        bst(t, i) == if i >= 0 && present(t, i) {
            &&& bst(t, 2 * i + 1)
            &&& bst(t, 2 * i + 2)
            &&& all_le(inorder(t, 2 * i + 1), entry(t, i).0)
            &&& all_ge(inorder(t, 2 * i + 2), entry(t, i).0)
        } else {
            true
        },
{
    lemma_inorder_unfold(t, i);
    lemma_bst_unfold(t, i);
}

pub proof fn lemma_in_sub_root(j: int)
    requires
        j >= 0,
    ensures
        in_sub(0, j),
    decreases j,
{
    if j > 0 {
        lemma_in_sub_root((j - 1) / 2);
    }
}

/// `p` is a power of two.
pub open spec fn is_pow2(p: int) -> bool
    decreases p,
{
    if p <= 0 {
        false
    } else if p == 1 {
        true
    } else {
        p % 2 == 0 && is_pow2(p / 2)
    }
}

/// Of two powers of two, the smaller is at most half the larger.
pub proof fn lemma_pow2_lt(x: int, p: int)
    requires
        is_pow2(x),
        is_pow2(p),
        x < p,
    ensures
        2 * x <= p,
    decreases x,
{
    if x > 1 {
        lemma_pow2_lt(x / 2, p / 2);
    }
}

/// A tree with no present slot is empty and ordered.
pub proof fn lemma_empty_tree<K: Key, V>(t: Seq<Option<(K, V)>>)
    requires
        forall|j: int| 0 <= j < t.len() ==> (#[trigger] t[j]) is None,
    ensures
        inorder(t, 0) == Seq::<(K, V)>::empty(),
        bst(t, 0),
        integrity(t),
{
    lemma_unfold(t, 0);
}

/// A filter that rejects every element yields nothing.
pub proof fn lemma_filter_none<A>(s: Seq<A>, f: spec_fn(A) -> bool)
    requires
        forall|i: int| 0 <= i < s.len() ==> !f(#[trigger] s[i]),
    ensures
        s.filter(f) == Seq::<A>::empty(),
    decreases s.len(),
{
    reveal(Seq::filter);
    if s.len() > 0 {
        lemma_filter_none(s.drop_last(), f);
    }
}

/// Filtering a node's sequence filters its two sides and the node itself.
pub proof fn lemma_filter_three<A>(l: Seq<A>, e: A, r: Seq<A>, f: spec_fn(A) -> bool)
    ensures
        (l + seq![e] + r).filter(f) == l.filter(f) + (if f(e) {
            seq![e]
        } else {
            Seq::<A>::empty()
        }) + r.filter(f),
{
    Seq::filter_distributes_over_add(l + seq![e], r, f);
    Seq::filter_distributes_over_add(l, seq![e], f);
    Seq::<A>::empty().lemma_filter_push(e, f);
    assert(Seq::<A>::empty().push(e) == seq![e]);
    reveal(Seq::filter);
    assert(Seq::<A>::empty().filter(f) == Seq::<A>::empty());
}

/// Every ancestor of a present slot is present.
pub proof fn lemma_ancestor_present<K, V>(t: Seq<Option<(K, V)>>, i: int, j: int)
    requires
        integrity(t),
        in_sub(i, j),
        present(t, j),
    ensures
        present(t, i),
    decreases j - i,
{
    if j != i {
        let p = (j - 1) / 2;
        assert(t[j] is Some);
        assert(in_sub(i, p));
        lemma_ancestor_present(t, i, p);
    }
}

/// The order property of the whole tree holds at every present slot.
pub proof fn lemma_bst_at<K: Key, V>(t: Seq<Option<(K, V)>>, j: int)
    requires
        integrity(t),
        bst(t, 0),
        present(t, j),
        j >= 0,
    ensures
        bst(t, j),
    decreases j,
{
    if j > 0 {
        let p = (j - 1) / 2;
        assert(t[j] is Some);
        lemma_bst_at(t, p);
        lemma_bst_unfold(t, p);
    }
}

/// Where the sequence of the subtree at `j` starts inside the whole sequence.
pub open spec fn offset<K, V>(t: Seq<Option<(K, V)>>, j: int) -> int
    decreases j,
{
    if j <= 0 {
        0
    } else {
        let p = (j - 1) / 2;
        if j == 2 * p + 1 {
            offset(t, p)
        } else {
            offset(t, p) + inorder(t, 2 * p + 1).len() + 1
        }
    }
}

/// The sequence of a present subtree is a contiguous piece of the whole sequence.
pub proof fn lemma_offset<K, V>(t: Seq<Option<(K, V)>>, j: int)
    requires
        integrity(t),
        present(t, j),
        j >= 0,
    ensures
        0 <= offset(t, j),
        offset(t, j) + inorder(t, j).len() <= inorder(t, 0).len(),
        forall|k: int| 0 <= k < inorder(t, j).len() ==> inorder(t, 0)[offset(t, j) + k] == #[trigger] inorder(t, j)[k],
    decreases j,
{
    if j > 0 {
        let p = (j - 1) / 2;
        assert(t[j] is Some);
        lemma_offset(t, p);
        lemma_inorder_unfold(t, p);
        let l = inorder(t, 2 * p + 1);
        let pp = inorder(t, p);
        if j == 2 * p + 1 {
            assert forall|k: int| 0 <= k < inorder(t, j).len() implies inorder(t, 0)[offset(t, j) + k] == #[trigger] inorder(t, j)[k] by {
                assert(pp[k] == l[k]);
            }
        } else {
            assert forall|k: int| 0 <= k < inorder(t, j).len() implies inorder(t, 0)[offset(t, j) + k] == #[trigger] inorder(t, j)[k] by {
                assert(pp[l.len() + 1 + k] == inorder(t, j)[k]);
            }
        }
    }
}

/// The number of occupied slots.
pub open spec fn popcount<K, V>(t: Seq<Option<(K, V)>>) -> nat {
    t.filter(|o: Option<(K, V)>| o is Some).len()
}

/// Emptying a present slot without present children shortens every enclosing
/// subtree's sequence by one.
proof fn lemma_remove_leaf<K, V>(t: Seq<Option<(K, V)>>, u: Seq<Option<(K, V)>>, m: int, i: int)
    requires
        integrity(t),
        present(t, m),
        !present(t, 2 * m + 1),
        !present(t, 2 * m + 2),
        forall|j: int| j != m ==> slot(u, j) == slot(t, j),
        !present(u, m),
        i >= 0,
    ensures
        inorder(t, i).len() == inorder(u, i).len() + if in_sub(i, m) {
            1int
        } else {
            0int
        },
    decreases depth_measure(t, i),
{
    lemma_inorder_unfold(t, i);
    lemma_inorder_unfold(u, i);
    if !in_sub(i, m) {
        assert forall|j: int| in_sub(i, j) implies slot(t, j) == slot(u, j) by {
        }
        lemma_frame_seq(t, u, i);
    } else if i == m {
        lemma_inorder_unfold(t, 2 * m + 1);
        lemma_inorder_unfold(t, 2 * m + 2);
    } else {
        lemma_ancestor_present(t, i, m);
        lemma_in_sub_child(i, m);
        lemma_remove_leaf(t, u, m, 2 * i + 1);
        lemma_remove_leaf(t, u, m, 2 * i + 2);
        assert(m > i);
        assert(in_sub(2 * i + 1, m) || in_sub(2 * i + 2, m)) by {
            lemma_in_sub_split(i, m);
        }
    }
}

/// A slot strictly below `i` lies below one of its children.
pub proof fn lemma_in_sub_split(i: int, m: int)
    requires
        in_sub(i, m),
        m != i,
        i >= 0,
    ensures
        in_sub(2 * i + 1, m) || in_sub(2 * i + 2, m),
    decreases m,
{
    let p = (m - 1) / 2;
    if p == i {
        assert(in_sub(m, m));
    } else {
        lemma_in_sub_split(i, p);
    }
}

/// The in-order sequence depends only on the slots of the subtree.
pub proof fn lemma_frame_seq<K, V>(t1: Seq<Option<(K, V)>>, t2: Seq<Option<(K, V)>>, i: int)
    requires
        i >= 0,
        forall|j: int| in_sub(i, j) ==> slot(t1, j) == slot(t2, j),
    ensures
        inorder(t1, i) == inorder(t2, i),
    decreases depth_measure(t1, i) + depth_measure(t2, i),
{
    assert(in_sub(i, i));
    lemma_inorder_unfold(t1, i);
    lemma_inorder_unfold(t2, i);
    if present(t1, i) {
        assert forall|j: int| in_sub(2 * i + 1, j) implies slot(t1, j) == slot(t2, j) by {
            lemma_in_sub_child(i, j);
        }
        assert forall|j: int| in_sub(2 * i + 2, j) implies slot(t1, j) == slot(t2, j) by {
            lemma_in_sub_child(i, j);
        }
        lemma_frame_seq(t1, t2, 2 * i + 1);
        lemma_frame_seq(t1, t2, 2 * i + 2);
    }
}

/// Without orphans, the tree's sequence has one entry per occupied slot.
pub proof fn lemma_popcount<K, V>(t: Seq<Option<(K, V)>>)
    requires
        integrity(t),
    ensures
        inorder(t, 0).len() == popcount(t),
    decreases t.len(),
{
    let f = |o: Option<(K, V)>| o is Some;
    if t.len() == 0 {
        lemma_inorder_unfold(t, 0);
        reveal(Seq::filter);
    } else {
        let m = t.len() - 1;
        let u = t.drop_last();
        t.drop_last().lemma_filter_push(t.last(), f);
        assert(u.push(t.last()) == t);
        assert(integrity(u)) by {
            assert forall|j: int| 0 < j < u.len() && (#[trigger] u[j]) is Some implies u[(j - 1) / 2] is Some by {
                assert(t[j] is Some);
            }
        }
        lemma_popcount(u);
        if t[m] is Some {
            lemma_remove_leaf(t, u, m, 0);
            lemma_in_sub_root(m);
        } else {
            assert forall|j: int| in_sub(0, j) implies slot(t, j) == slot(u, j) by {
            }
            lemma_frame_seq(t, u, 0);
        }
    }
}

/// `m` is reached from the present slot `a` through present right children only.
pub open spec fn right_spine<K, V>(t: Seq<Option<(K, V)>>, a: int, m: int) -> bool
    decreases m,
{
    present(t, m) && a >= 0 && (m == a || (m > a && m % 2 == 0 && right_spine(t, a, (m - 1) / 2)))
}

/// `m` is reached from the present slot `a` through present left children only.
pub open spec fn left_spine<K, V>(t: Seq<Option<(K, V)>>, a: int, m: int) -> bool
    decreases m,
{
    present(t, m) && a >= 0 && (m == a || (m > a && m % 2 == 1 && left_spine(t, a, (m - 1) / 2)))
}

pub proof fn lemma_spine_in_sub<K, V>(t: Seq<Option<(K, V)>>, a: int, m: int)
    requires
        right_spine(t, a, m) || left_spine(t, a, m),
    ensures
        in_sub(a, m),
        present(t, a),
    decreases m,
{
    if m != a {
        lemma_spine_in_sub(t, a, (m - 1) / 2);
        lemma_in_sub_child(a, (m - 1) / 2);
        let p = (m - 1) / 2;
        assert(in_sub(a, p));
    }
}

/// The order property at the top of a spine holds all along it.
pub proof fn lemma_bst_spine<K: Key, V>(t: Seq<Option<(K, V)>>, a: int, m: int)
    requires
        right_spine(t, a, m) || left_spine(t, a, m),
        bst(t, a),
    ensures
        bst(t, m),
    decreases m,
{
    if m != a {
        let p = (m - 1) / 2;
        if right_spine(t, a, m) {
            assert(right_spine(t, a, p));
        } else {
            assert(left_spine(t, a, p));
        }
        lemma_bst_spine(t, a, p);
        lemma_bst_unfold(t, p);
        assert(m == 2 * p + 1 || m == 2 * p + 2);
        assert(present(t, p));
    }
}

/// Dropping the last entry of the subtree at the end of a right spine drops the
/// last entry of the subtree at its top, and keeps the order.
pub proof fn lemma_right_spine_drop<K: Key, V>(t: Seq<Option<(K, V)>>, u: Seq<Option<(K, V)>>, a: int, m: int)
    requires
        right_spine(t, a, m),
        bst(t, a),
        forall|j: int| in_sub(a, j) && !in_sub(m, j) ==> slot(u, j) == slot(t, j),
        inorder(t, m).len() > 0,
        inorder(u, m) == inorder(t, m).drop_last(),
        bst(u, m),
    ensures
        inorder(t, a).len() > 0,
        inorder(u, a) == inorder(t, a).drop_last(),
        bst(u, a),
    decreases m,
{
    if m != a {
        let p = (m - 1) / 2;
        assert(m == 2 * p + 2);
        lemma_spine_in_sub(t, a, p);
        lemma_bst_spine(t, a, p);
        lemma_in_sub_child(p, p);
        assert forall|j: int| in_sub(2 * p + 1, j) implies slot(u, j) == slot(t, j) by {
            lemma_in_sub_child(p, j);
            lemma_in_sub_trans(a, p, j);
        }
        lemma_frame(u, t, 2 * p + 1);
        assert(in_sub(p, p));
        lemma_in_sub_trans(a, p, p);
        assert(slot(u, p) == slot(t, p)) by {
            assert(!in_sub(m, p));
        }
        lemma_unfold(t, p);
        lemma_unfold(u, p);
        let l = inorder(t, 2 * p + 1);
        let e = entry(t, p);
        let r = inorder(t, m);
        assert(right_spine(t, a, p));
        assert(present(t, p));
        assert(present(u, p));
        assert(inorder(u, 2 * p + 1) == l);
        assert(entry(u, p) == e);
        assert(inorder(u, p) == l + seq![e] + r.drop_last());
        assert(inorder(t, p) == l + seq![e] + r);
        assert((l + seq![e] + r).drop_last() =~= l + seq![e] + r.drop_last());
        assert forall|j: int| in_sub(a, j) && !in_sub(p, j) implies slot(u, j) == slot(t, j) by {
            if in_sub(m, j) {
                lemma_in_sub_trans_child(p, m, j);
            }
        }
        lemma_right_spine_drop(t, u, a, p);
    }
}

/// Dropping the first entry of the subtree at the end of a left spine drops the
/// first entry of the subtree at its top, and keeps the order.
pub proof fn lemma_left_spine_drop<K: Key, V>(t: Seq<Option<(K, V)>>, u: Seq<Option<(K, V)>>, a: int, m: int)
    requires
        left_spine(t, a, m),
        bst(t, a),
        forall|j: int| in_sub(a, j) && !in_sub(m, j) ==> slot(u, j) == slot(t, j),
        inorder(t, m).len() > 0,
        inorder(u, m) == inorder(t, m).drop_first(),
        bst(u, m),
    ensures
        inorder(t, a).len() > 0,
        inorder(u, a) == inorder(t, a).drop_first(),
        bst(u, a),
    decreases m,
{
    if m != a {
        let p = (m - 1) / 2;
        assert(m == 2 * p + 1);
        lemma_spine_in_sub(t, a, p);
        lemma_bst_spine(t, a, p);
        lemma_in_sub_child(p, p);
        assert forall|j: int| in_sub(2 * p + 2, j) implies slot(u, j) == slot(t, j) by {
            lemma_in_sub_child(p, j);
            lemma_in_sub_trans(a, p, j);
        }
        lemma_frame(u, t, 2 * p + 2);
        assert(in_sub(p, p));
        lemma_in_sub_trans(a, p, p);
        assert(slot(u, p) == slot(t, p)) by {
            assert(!in_sub(m, p));
        }
        lemma_unfold(t, p);
        lemma_unfold(u, p);
        let l = inorder(t, m);
        let e = entry(t, p);
        let r = inorder(t, 2 * p + 2);
        assert(left_spine(t, a, p));
        assert(present(t, p));
        assert(present(u, p));
        assert(inorder(u, 2 * p + 2) == r);
        assert(entry(u, p) == e);
        assert(inorder(u, p) == l.drop_first() + seq![e] + r);
        assert(inorder(t, p) == l + seq![e] + r);
        assert((l + seq![e] + r).drop_first() =~= l.drop_first() + seq![e] + r);
        assert forall|j: int| in_sub(a, j) && !in_sub(p, j) implies slot(u, j) == slot(t, j) by {
            if in_sub(m, j) {
                lemma_in_sub_trans_child(p, m, j);
            }
        }
        lemma_left_spine_drop(t, u, a, p);
    }
}

/// Subtrees nest.
pub proof fn lemma_in_sub_trans(a: int, p: int, j: int)
    requires
        in_sub(a, p),
        in_sub(p, j),
    ensures
        in_sub(a, j),
    decreases j,
{
    if j != p {
        lemma_in_sub_trans(a, p, (j - 1) / 2);
    }
}

/// A slot below a child of `p` lies below `p`.
pub proof fn lemma_in_sub_trans_child(p: int, m: int, j: int)
    requires
        p >= 0,
        m == 2 * p + 1 || m == 2 * p + 2,
        in_sub(m, j),
    ensures
        in_sub(p, j),
{
    lemma_in_sub_child(p, j);
}

/// Every key of `a` orders at or before every key of `b`.
pub open spec fn pair_ordered<K: Key, V>(a: Seq<(K, V)>, b: Seq<(K, V)>) -> bool {
    forall|i: int, j: int| 0 <= i < a.len() && 0 <= j < b.len() ==> (#[trigger] a[i]).0.le_spec((#[trigger] b[j]).0)
}

/// No orphans, except possibly the children of the empty slot `h`.
pub open spec fn integrity_except<K, V>(t: Seq<Option<(K, V)>>, h: int) -> bool {
    forall|j: int| 0 < j < t.len() && (#[trigger] t[j]) is Some && (j - 1) / 2 != h ==> t[(j - 1) / 2] is Some
}

/// `after` is `before` without one entry, which is `(k, v)`.
pub open spec fn removes_one<K, V>(before: Seq<(K, V)>, after: Seq<(K, V)>, k: K, v: V) -> bool {
    exists|i: int| 0 <= i < before.len() && before[i] == (k, v) && after == before.remove(i)
}

/// Removing one entry inside the subtree at `j` removes it from the whole tree,
/// at the matching position, and keeps the order.
pub proof fn lemma_remove_up<K: Key, V>(t: Seq<Option<(K, V)>>, u: Seq<Option<(K, V)>>, j: int, k: int)
    requires
        integrity(t),
        bst(t, 0),
        j >= 0,
        present(t, j),
        forall|x: int| !in_sub(j, x) ==> slot(u, x) == slot(t, x),
        0 <= k < inorder(t, j).len(),
        inorder(u, j) == inorder(t, j).remove(k),
        bst(u, j),
    ensures
        inorder(u, 0) == inorder(t, 0).remove(offset(t, j) + k),
        bst(u, 0),
    decreases j,
{
    if j > 0 {
        let p = (j - 1) / 2;
        assert(t[j] is Some);
        assert(present(t, p));
        lemma_bst_at(t, p);
        lemma_in_sub_child(p, p);
        assert(in_sub(p, p));
        lemma_unfold(t, p);
        lemma_unfold(u, p);
        lemma_key_order::<K>();
        let e = entry(t, p);
        if j == 2 * p + 1 {
            assert forall|x: int| in_sub(2 * p + 2, x) implies slot(u, x) == slot(t, x) by {
                lemma_in_sub_child(p, x);
            }
            lemma_frame(u, t, 2 * p + 2);
            let l = inorder(t, j);
            let r = inorder(t, 2 * p + 2);
            assert(inorder(u, p) =~= inorder(t, p).remove(k));
            assert forall|i: int| 0 <= i < inorder(u, j).len() implies (#[trigger] inorder(u, j)[i]).0.le_spec(e.0) by {
                if i < k {
                    assert(inorder(u, j)[i] == l[i]);
                } else {
                    assert(inorder(u, j)[i] == l[i + 1]);
                }
            }
            assert forall|x: int| !in_sub(p, x) implies slot(u, x) == slot(t, x) by {
                lemma_in_sub_child(p, x);
            }
            lemma_remove_up(t, u, p, k);
        } else {
            assert forall|x: int| in_sub(2 * p + 1, x) implies slot(u, x) == slot(t, x) by {
                lemma_in_sub_child(p, x);
            }
            lemma_frame(u, t, 2 * p + 1);
            let l = inorder(t, 2 * p + 1);
            let r = inorder(t, j);
            let k2 = l.len() + 1 + k;
            assert(inorder(u, p) =~= inorder(t, p).remove(k2));
            assert forall|i: int| 0 <= i < inorder(u, j).len() implies e.0.le_spec((#[trigger] inorder(u, j)[i]).0) by {
                if i < k {
                    assert(inorder(u, j)[i] == r[i]);
                } else {
                    assert(inorder(u, j)[i] == r[i + 1]);
                }
            }
            assert forall|x: int| !in_sub(p, x) implies slot(u, x) == slot(t, x) by {
                lemma_in_sub_child(p, x);
            }
            lemma_remove_up(t, u, p, k2);
        }
    }
}

/// The position of slot `i`'s entry in the whole in-order sequence.
pub open spec fn position<K, V>(t: Seq<Option<(K, V)>>, i: int) -> int {
    offset(t, i) + inorder(t, 2 * i + 1).len()
}

/// For a 1-based slot number `j`: the nearest enclosing subtree (`j` itself
/// included) whose root is a left child, or 0 when there is none.
pub open spec fn left_enclosing_spec(j: int) -> int
    decreases j,
{
    if j <= 0 {
        0
    } else if j % 2 == 0 {
        j
    } else {
        left_enclosing_spec(j / 2)
    }
}

/// For a 1-based slot number `j >= 1`: the nearest enclosing subtree (`j`
/// itself included) whose root is a right child, or the root 1.
pub open spec fn right_enclosing_spec(j: int) -> int
    decreases j,
{
    if j <= 1 {
        j
    } else if j % 2 == 1 {
        j
    } else {
        right_enclosing_spec(j / 2)
    }
}

/// Along a right spine every subtree ends where the top one ends.
pub proof fn lemma_spine_end<K, V>(t: Seq<Option<(K, V)>>, a: int, m: int)
    requires
        right_spine(t, a, m),
    ensures
        offset(t, m) + inorder(t, m).len() == offset(t, a) + inorder(t, a).len(),
    decreases m,
{
    if m != a {
        let p = (m - 1) / 2;
        assert(right_spine(t, a, p));
        assert(present(t, p));
        lemma_inorder_unfold(t, p);
        lemma_spine_end(t, a, p);
    }
}

/// Along a left spine every subtree starts where the top one starts.
pub proof fn lemma_spine_start<K, V>(t: Seq<Option<(K, V)>>, a: int, m: int)
    requires
        left_spine(t, a, m),
    ensures
        offset(t, m) == offset(t, a),
    decreases m,
{
    if m != a {
        let p = (m - 1) / 2;
        assert(left_spine(t, a, p));
        lemma_spine_start(t, a, p);
    }
}

/// The enclosing left-child subtree of a present slot reaches it through right
/// children only; without one, the slot lies on the root's right spine.
pub proof fn lemma_enclosing<K, V>(t: Seq<Option<(K, V)>>, idx: int)
    requires
        integrity(t),
        idx >= 0,
        present(t, idx),
    ensures
        left_enclosing_spec(idx + 1) >= 0,
        left_enclosing_spec(idx + 1) == 0 ==> right_spine(t, 0, idx),
        left_enclosing_spec(idx + 1) > 0 ==> left_enclosing_spec(idx + 1) - 1 >= 1
            && (left_enclosing_spec(idx + 1) - 1) % 2 == 1
            && right_spine(t, left_enclosing_spec(idx + 1) - 1, idx),
    decreases idx,
{
    let j = idx + 1;
    if j % 2 == 0 {
        assert(left_enclosing_spec(j) == j);
    } else if j == 1 {
        assert(left_enclosing_spec(0) == 0);
    } else {
        let p = (idx - 1) / 2;
        assert(idx == 2 * p + 2);
        assert(j / 2 == p + 1);
        assert(t[idx] is Some);
        assert(left_enclosing_spec(j) == left_enclosing_spec(p + 1));
        lemma_enclosing(t, p);
        if left_enclosing_spec(p + 1) == 0 {
            lemma_spine_in_sub(t, 0, p);
            assert(right_spine(t, 0, idx));
        } else {
            let a = left_enclosing_spec(p + 1) - 1;
            lemma_spine_in_sub(t, a, p);
            assert(right_spine(t, a, idx));
        }
    }
}

/// A filter keeps a property that every element has.
pub proof fn lemma_filter_all<A>(s: Seq<A>, f: spec_fn(A) -> bool, g: spec_fn(A) -> bool)
    requires
        forall|i: int| 0 <= i < s.len() ==> g(#[trigger] s[i]),
    ensures
        forall|i: int| 0 <= i < s.filter(f).len() ==> g(#[trigger] s.filter(f)[i]),
    decreases s.len(),
{
    reveal(Seq::filter);
    if s.len() > 0 {
        lemma_filter_all(s.drop_last(), f, g);
        let r = s.drop_last().filter(f);
        if f(s.last()) {
            assert forall|i: int| 0 <= i < r.push(s.last()).len() implies g(#[trigger] r.push(s.last())[i]) by {
                if i < r.len() {
                    assert(r.push(s.last())[i] == r[i]);
                }
            }
        }
    }
}

/// A filter that accepts every element keeps the sequence.
pub proof fn lemma_filter_every<A>(s: Seq<A>, f: spec_fn(A) -> bool)
    requires
        forall|i: int| 0 <= i < s.len() ==> f(#[trigger] s[i]),
    ensures
        s.filter(f) == s,
    decreases s.len(),
{
    reveal(Seq::filter);
    if s.len() > 0 {
        lemma_filter_every(s.drop_last(), f);
        assert(s.drop_last().push(s.last()) == s);
    }
}

/// A filter and its complement split a sequence's length.
pub proof fn lemma_filter_split_len<A>(s: Seq<A>, f: spec_fn(A) -> bool, g: spec_fn(A) -> bool)
    requires
        forall|a: A| #[trigger] g(a) == !f(a),
    ensures
        s.filter(f).len() + s.filter(g).len() == s.len(),
    decreases s.len(),
{
    reveal(Seq::filter);
    if s.len() > 0 {
        lemma_filter_split_len(s.drop_last(), f, g);
        assert(g(s.last()) == !f(s.last()));
    }
}

/// The slot that a search for `q` from slot `i` stops at: the first slot on the
/// path whose key is `q`, or the empty slot where `q` would be placed; the path
/// goes left when `q` orders before the slot's key, right otherwise.
pub open spec fn search_slot<K: Key, V>(t: Seq<Option<(K, V)>>, q: K, i: int) -> int
    decreases depth_measure(t, i),
{
    if i >= 0 && present(t, i) && entry(t, i).0 != q {
        if q.le_spec(entry(t, i).0) {
            search_slot(t, q, 2 * i + 1)
        } else {
            search_slot(t, q, 2 * i + 2)
        }
    } else {
        i
    }
}

/// The largest power of two not above `n` (1 for `n <= 1`).
pub open spec fn pow2_floor(n: int) -> int
    decreases n,
{
    if n <= 1 {
        1
    } else {
        2 * pow2_floor(n / 2)
    }
}

/// The root position among `n` sorted entries for a nearly-complete tree.
pub open spec fn root_position(n: int) -> int {
    let x = pow2_floor(n);
    if x / 2 <= n - x + 1 {
        x - 1
    } else {
        n - x / 2
    }
}

/// A power of two `x` with `x <= n < 2x` is the largest one not above `n`.
pub proof fn lemma_pow2_floor(x: int, n: int)
    requires
        is_pow2(x),
        x <= n,
        n < 2 * x,
    ensures
        x == pow2_floor(n),
    decreases n,
{
    if n >= 2 {
        assert(x != 1);
        assert(x % 2 == 0 && is_pow2(x / 2));
        lemma_pow2_floor(x / 2, n / 2);
    }
}

/// The occupied slots of the subtree rooted at `i`, in pre-order.
pub open spec fn preorder<K, V>(t: Seq<Option<(K, V)>>, i: int) -> Seq<int>
    decreases depth_measure(t, i),
{
    if i >= 0 && present(t, i) {
        seq![i] + preorder(t, 2 * i + 1) + preorder(t, 2 * i + 2)
    } else {
        Seq::empty()
    }
}

/// Holds for the entries with key `k`.
pub open spec fn key_is<K, V>(k: K) -> spec_fn((K, V)) -> bool {
    |e: (K, V)| e.0 == k
}

/// The entries of `s` with key `k`, in their order in `s`.
pub open spec fn with_key<K, V>(s: Seq<(K, V)>, k: K) -> Seq<(K, V)> {
    s.filter(key_is::<K, V>(k))
}

/// `r` is `s` sorted by key, entries with equal keys keeping their order in `s`.
pub open spec fn stable_sorted<K: Key, V>(r: Seq<(K, V)>, s: Seq<(K, V)>) -> bool {
    &&& sorted_by_key(r)
    &&& forall|k: K| #[trigger] with_key(r, k) == with_key(s, k)
}

/// Inserting `e` before entries whose keys all differ from its own appends it to
/// its key's entries.
pub proof fn lemma_insert_with_key<K, V>(s: Seq<(K, V)>, pos: int, e: (K, V), k: K)
    requires
        0 <= pos <= s.len(),
        forall|j: int| pos <= j < s.len() ==> (#[trigger] s[j]).0 != e.0,
    ensures
        with_key(s.insert(pos, e), k) == with_key(s.push(e), k),
{
    let f = key_is::<K, V>(k);
    let a = s.take(pos);
    let b = s.skip(pos);
    assert(s.insert(pos, e) =~= a + (seq![e] + b));
    assert(s =~= a + b);
    Seq::filter_distributes_over_add(a, seq![e] + b, f);
    Seq::filter_distributes_over_add(seq![e], b, f);
    Seq::filter_distributes_over_add(a, b, f);
    s.lemma_filter_push(e, f);
    Seq::<(K, V)>::empty().lemma_filter_push(e, f);
    assert(Seq::<(K, V)>::empty().push(e) =~= seq![e]);
    reveal(Seq::filter);
    if k == e.0 {
        assert forall|j: int| 0 <= j < b.len() implies !f(#[trigger] b[j]) by {
            assert(b[j] == s[pos + j]);
        }
        lemma_filter_none(b, f);
        assert(a.filter(f) + (seq![e] + Seq::<(K, V)>::empty()) =~= (a.filter(f) + Seq::<(K, V)>::empty()).push(e));
    } else {
        assert(a.filter(f) + (Seq::<(K, V)>::empty() + b.filter(f)) =~= a.filter(f) + b.filter(f));
    }
}

/// `j` lies in the subtree rooted at `i`.
pub open spec fn in_sub(i: int, j: int) -> bool
    decreases j,
{
    if j < i || i < 0 {
        false
    } else if j == i {
        true
    } else {
        in_sub(i, (j - 1) / 2)
    }
}

pub proof fn lemma_in_sub_child(i: int, j: int)
    requires
        i >= 0,
    ensures
        in_sub(2 * i + 1, j) ==> in_sub(i, j),
        in_sub(2 * i + 2, j) ==> in_sub(i, j),
        !(in_sub(2 * i + 1, j) && in_sub(2 * i + 2, j)),
        !in_sub(2 * i + 1, i),
        !in_sub(2 * i + 2, i),
    decreases j,
{
    if j > 2 * i + 2 {
        lemma_in_sub_child(i, (j - 1) / 2);
    } else if j == 2 * i + 1 || j == 2 * i + 2 {
        assert((j - 1) / 2 == i);
        assert(in_sub(i, i));
        assert(in_sub(i, j));
        assert(!in_sub(2 * i + 1, i));
        assert(!in_sub(2 * i + 1, (j - 1) / 2));
    }
}

/// Subtrees with matching slots have the same in-order sequence and order property.
pub proof fn lemma_frame<K: Key, V>(t1: Seq<Option<(K, V)>>, t2: Seq<Option<(K, V)>>, i: int)
    requires
        i >= 0,
        forall|j: int| in_sub(i, j) ==> slot(t1, j) == slot(t2, j),
    ensures
        inorder(t1, i) == inorder(t2, i),
        bst(t1, i) == bst(t2, i),
    decreases depth_measure(t1, i) + depth_measure(t2, i),
{
    assert(in_sub(i, i));
    lemma_unfold(t1, i);
    lemma_unfold(t2, i);
    if present(t1, i) {
        assert forall|j: int| in_sub(2 * i + 1, j) implies slot(t1, j) == slot(t2, j) by {
            lemma_in_sub_child(i, j);
        }
        assert forall|j: int| in_sub(2 * i + 2, j) implies slot(t1, j) == slot(t2, j) by {
            lemma_in_sub_child(i, j);
        }
        lemma_frame(t1, t2, 2 * i + 1);
        lemma_frame(t1, t2, 2 * i + 2);
    }
}

/// The in-order sequence of an ordered subtree is sorted.
pub proof fn lemma_bst_sorted<K: Key, V>(t: Seq<Option<(K, V)>>, i: int)
    requires
        i >= 0,
        bst(t, i),
    ensures
        sorted_by_key(inorder(t, i)),
    decreases depth_measure(t, i),
{
    lemma_unfold(t, i);
    if present(t, i) {
        lemma_bst_sorted(t, 2 * i + 1);
        lemma_bst_sorted(t, 2 * i + 2);
        lemma_key_order::<K>();
        let l = inorder(t, 2 * i + 1);
        let r = inorder(t, 2 * i + 2);
        let k = entry(t, i);
        let s = l + seq![k] + r;
        assert(s == inorder(t, i));
        assert forall|a: int, b: int| 0 <= a < b < s.len() implies (#[trigger] s[a]).0.le_spec(
            (#[trigger] s[b]).0,
        ) by {
            if b < l.len() {
            } else if a < l.len() && b == l.len() {
                assert(l[a].0.le_spec(k.0));
            } else if a < l.len() {
                assert(l[a].0.le_spec(k.0));
                assert(k.0.le_spec(r[b - l.len() - 1].0));
            } else if a == l.len() {
                assert(k.0.le_spec(r[b - l.len() - 1].0));
            } else {
            }
        }
    }
}

/// Some entry of `s` has key `k`.
pub open spec fn has_key<K, V>(s: Seq<(K, V)>, k: K) -> bool {
    exists|j: int| 0 <= j < s.len() && (#[trigger] s[j]).0 == k
}

/// A present slot of the subtree rooted at `i` appears in its in-order sequence.
pub proof fn lemma_slot_in_view<K, V>(t: Seq<Option<(K, V)>>, i: int, j: int)
    requires
        i >= 0,
        in_sub(i, j),
        present(t, j),
        integrity(t),
    ensures
        inorder(t, i).contains(entry(t, j)),
{
    let l = inorder(t, 2 * j + 1);
    lemma_inorder_unfold(t, j);
    assert(inorder(t, j)[l.len() as int] == entry(t, j));
    lemma_sub_seq_in(t, i, j, entry(t, j));
}

/// The in-order sequence of a subtree is contained in that of every enclosing subtree.
pub proof fn lemma_sub_seq_in<K, V>(t: Seq<Option<(K, V)>>, i: int, p: int, e: (K, V))
    requires
        i >= 0,
        in_sub(i, p),
        integrity(t),
        inorder(t, p).contains(e),
    ensures
        inorder(t, i).contains(e),
    decreases p - i,
{
    if p != i {
        let q = (p - 1) / 2;
        assert(in_sub(i, q));
        lemma_inorder_unfold(t, p);
        assert(present(t, p));
        assert(t[p] is Some);
        assert(present(t, q));
        lemma_inorder_unfold(t, p);
        lemma_inorder_unfold(t, q);
        let a = inorder(t, q);
        let l = inorder(t, 2 * q + 1);
        let r = inorder(t, 2 * q + 2);
        assert(a == l + seq![entry(t, q)] + r);
        let k = choose|k: int| 0 <= k < inorder(t, p).len() && inorder(t, p)[k] == e;
        if p == 2 * q + 1 {
            assert(a[k] == e);
        } else {
            assert(a[l.len() + 1 + k] == e);
        }
        lemma_sub_seq_in(t, i, q, e);
    }
}

} // verus!
