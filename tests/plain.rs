use std::ops::Range;

use teardown_tree::base::{lefti, righti, ItemFilter};
use teardown_tree::external_api::{TeardownTreeMap, TeardownTreeRefill, TeardownTreeSet};
use teardown_tree::plain_tree::PlTree;
use teardown_tree::repr::{left_enclosing, right_enclosing, TreeRepr};

type Tree = PlTree<usize, ()>;

fn mk_tree(items: Vec<usize>) -> Tree {
    Tree::with_sorted(items.into_iter().map(|x| (x, ())).collect())
}

fn mk_prebuilt(items: &[usize]) -> Vec<Option<(usize, ())>> {
    items.iter().map(|&x| if x == 0 { None } else { Some((x, ())) }).collect()
}

fn keys(out: &Vec<(usize, ())>) -> Vec<usize> {
    out.iter().map(|e| e.0).collect()
}

/// Checks the search-tree order of the subtree at `idx`; returns its smallest and largest key.
fn check_bst_rec(tree: &Tree, idx: usize) -> Option<(usize, usize)> {
    let node = tree.repr.node_opt(idx)?;
    let key = node.0;
    let left = check_bst_rec(tree, lefti(idx));
    let right = check_bst_rec(tree, righti(idx));
    let min = match left {
        Some((lmin, lmax)) => {
            assert!(lmax <= key, "left subtree of {} holds {}", key, lmax);
            lmin
        }
        None => key,
    };
    let max = match right {
        Some((rmin, rmax)) => {
            assert!(key <= rmin, "right subtree of {} holds {}", key, rmin);
            rmax
        }
        None => key,
    };
    Some((min, max))
}

fn check_bst(tree: &Tree) {
    check_bst_rec(tree, 0);
}

fn check_integrity(tree: &Tree) {
    let data = &tree.repr.data;
    let mut occupied = 0;
    for i in 0..data.len() {
        if data[i].is_some() {
            if i != 0 {
                assert!(data[(i - 1) / 2].is_some(), "slot {} has no parent", i);
            }
            occupied += 1;
        }
    }
    assert_eq!(occupied, tree.size());
}

fn delete_range_check(n: usize, range: Range<usize>, output: &Vec<(usize, ())>, tree_mod: &Tree) {
    // a key equal to the start of the range is always deleted, also when the range is empty
    let expected: Vec<usize> = if range.start == range.end && range.start >= 1 && range.start <= n {
        vec![range.start]
    } else {
        (std::cmp::max(1, range.start)..std::cmp::min(n + 1, range.end)).collect()
    };
    assert_eq!(keys(output), expected);
    assert!(tree_mod.size() + output.len() == n);
    check_bst(tree_mod);
    check_integrity(tree_mod);
}

fn delete_range_exhaustive_with_tree(tree: Tree) {
    let n = tree.size();
    let mut output = Vec::with_capacity(n);
    for i in 0..n + 2 {
        for j in i..n + 2 {
            let mut tree_mod = tree.clone();
            output.truncate(0);
            tree_mod.delete_range(i..j, &mut output);
            delete_range_check(n, i..j, &output, &tree_mod);
        }
    }
}

fn delete_single_exhaustive_with_tree(tree: Tree) {
    let n = tree.size();
    let mut output = Vec::with_capacity(n);
    for i in 1..n + 1 {
        output.truncate(0);
        let mut tree_mod = tree.clone();
        let deleted = tree_mod.delete(&i);
        assert!(deleted.is_some());
        output.push((i, ()));
        delete_range_check(n, i..i + 1, &output, &tree_mod);
    }
}

fn delete_range_n(n: usize) {
    let tree = mk_tree((1..n + 1).collect());
    delete_range_exhaustive_with_tree(tree);
}

struct TreeRangeInfo {
    range: Range<usize>,
    root_idx: usize,
}

fn test_exhaustive_n(n: usize, check: &dyn Fn(Tree)) {
    let mut stack = vec![TreeRangeInfo { range: 1..n + 1, root_idx: 0 }];
    let mut items: Vec<usize> = vec![0; 1 << n];
    test_exhaustive_rec(&mut stack, &mut items, check);
}

fn test_exhaustive_rec(stack: &mut Vec<TreeRangeInfo>, items: &mut Vec<usize>, check: &dyn Fn(Tree)) {
    if stack.is_empty() {
        let tree = Tree::with_nodes(mk_prebuilt(items));
        check(tree);
    } else {
        let info = stack.pop().unwrap();
        let (l, r) = (lefti(info.root_idx), righti(info.root_idx));
        for i in info.range.clone() {
            items[info.root_idx] = i;
            let mut pushed = 0;
            if info.range.start < i {
                stack.push(TreeRangeInfo { range: info.range.start..i, root_idx: l });
                pushed += 1;
            }
            if i + 1 < info.range.end {
                stack.push(TreeRangeInfo { range: i + 1..info.range.end, root_idx: r });
                pushed += 1;
            }
            test_exhaustive_rec(stack, items, check);
            for _ in 0..pushed {
                stack.pop();
            }
        }
        items[info.root_idx] = 0;
        stack.push(info);
    }
}

fn test_prebuilt(items: &[usize], range: Range<usize>) {
    let mut tree_mod = Tree::with_nodes(mk_prebuilt(items));
    let n = items.iter().filter(|&&x| x != 0).count();
    let mut output = Vec::with_capacity(tree_mod.size());
    tree_mod.delete_range(range.clone(), &mut output);
    delete_range_check(n, range, &output, &tree_mod);
}

#[test]
fn build() {
    mk_tree(vec![1]);
    mk_tree(vec![1, 2]);
    mk_tree(vec![1, 2, 3]);
    mk_tree(vec![1, 2, 3, 4]);
    mk_tree(vec![1, 2, 3, 4, 5]);
}

#[test]
fn delete_range1() {
    delete_range_n(1);
}

#[test]
fn delete_range2() {
    delete_range_n(1);
}

#[test]
fn delete_range3() {
    delete_range_n(1);
}

#[test]
fn delete_range4() {
    delete_range_n(4);
}

#[test]
fn delete_range_prebuilt() {
    test_prebuilt(&[1], 1..2);
    test_prebuilt(&[1], 1..1);
    test_prebuilt(&[1, 0, 2], 1..1);
    test_prebuilt(&[1, 0, 2], 2..2);
    test_prebuilt(&[3, 2, 0, 1], 1..3);
    test_prebuilt(&[3, 2, 4, 1], 1..3);
    test_prebuilt(&[3, 1, 4, 0, 2], 2..4);
    test_prebuilt(&[4, 2, 0, 1, 3], 3..4);
    test_prebuilt(&[4, 3, 0, 2, 0, 0, 0, 1], 1..1);
    test_prebuilt(&[4, 3, 0, 2, 0, 0, 0, 1], 2..2);
    test_prebuilt(&[4, 3, 0, 2, 0, 0, 0, 1], 3..3);
    test_prebuilt(&[4, 3, 0, 2, 0, 0, 0, 1], 4..4);
    test_prebuilt(&[1, 0, 3, 0, 0, 2, 4], 1..2);
    test_prebuilt(&[1, 0, 2, 0, 0, 0, 3, 0, 0, 0, 0, 0, 0, 0, 4], 1..1);
    test_prebuilt(&[1, 0, 2, 0, 0, 0, 3, 0, 0, 0, 0, 0, 0, 0, 4], 2..2);
    test_prebuilt(&[1, 0, 2, 0, 0, 0, 3, 0, 0, 0, 0, 0, 0, 0, 4], 3..3);
    test_prebuilt(&[1, 0, 2, 0, 0, 0, 3, 0, 0, 0, 0, 0, 0, 0, 4], 4..4);
    test_prebuilt(&[1, 0, 4, 0, 0, 2, 0, 0, 0, 0, 0, 0, 3], 1..4);
    test_prebuilt(&[6, 4, 0, 1, 5, 0, 0, 0, 2, 0, 0, 0, 0, 0, 0, 0, 0, 0, 3], 4..6);
    test_prebuilt(&[1, 0, 2, 0, 0, 0, 4, 0, 0, 0, 0, 0, 0, 3], 1..1);
    test_prebuilt(
        &[1, 0, 2, 0, 0, 0, 3, 0, 0, 0, 0, 0, 0, 0, 5, 0, 0, 0, 0, 0, 0, 0, 0, 0, 0, 0, 0, 0, 0, 4],
        1..2,
    );
}

#[test]
fn delete_range_exhaustive() {
    for i in 1..8 {
        test_exhaustive_n(i, &|tree| delete_range_exhaustive_with_tree(tree));
    }
}

#[test]
fn delete_single_exhaustive() {
    for i in 1..8 {
        test_exhaustive_n(i, &|tree| delete_single_exhaustive_with_tree(tree));
    }
}

// ---- scenarios and properties of the plain tree ----

fn five() -> Tree {
    mk_tree(vec![1, 2, 3, 4, 5])
}

#[test]
fn delete_range_middle() {
    let mut t = five();
    let mut out = Vec::new();
    t.delete_range(2..5, &mut out);
    assert_eq!(keys(&out), vec![2, 3, 4]);
    assert_eq!(keys(&t.to_vec()), vec![1, 5]);
    check_bst(&t);
    check_integrity(&t);
}

#[test]
fn delete_range_everything() {
    let mut t = five();
    let mut out = Vec::new();
    t.delete_range(0..10, &mut out);
    assert_eq!(keys(&out), vec![1, 2, 3, 4, 5]);
    assert_eq!(t.size(), 0);
    assert!(t.to_vec().is_empty());
}

#[test]
fn delete_range_empty_range_takes_start() {
    let mut t = five();
    let mut out = Vec::new();
    t.delete_range(3..3, &mut out);
    assert_eq!(keys(&out), vec![3]);
    assert_eq!(keys(&t.to_vec()), vec![1, 2, 4, 5]);
}

#[test]
fn delete_range_hundred() {
    let mut t = mk_tree((1..=100).collect());
    let mut out = Vec::new();
    t.delete_range(25..75, &mut out);
    assert_eq!(out.len(), 50);
    assert_eq!(keys(&out), (25..75).collect::<Vec<_>>());
    assert_eq!(t.size(), 50);
    check_bst(&t);
    check_integrity(&t);
}

#[test]
fn refill_cycle() {
    let n = 37;
    let master = mk_tree((1..=n).collect());
    let mut copy = master.clone();
    for _ in 0..5 {
        let mut out = Vec::new();
        copy.delete_range(0..n + 1, &mut out);
        assert_eq!(out.len(), n);
        assert_eq!(copy.size(), 0);
        copy.refill(&master);
        assert_eq!(copy.repr.data, master.repr.data);
        assert_eq!(copy.size(), master.size());
        assert_eq!(keys(&copy.to_vec()), (1..=n).collect::<Vec<_>>());
    }
}

#[test]
fn clear_then_refill() {
    let master = mk_tree(vec![2, 4, 6, 8]);
    let mut t = master.clone();
    t.clear();
    assert_eq!(t.size(), 0);
    t.refill(&master);
    assert_eq!(t.repr.data, master.repr.data);
    assert_eq!(keys(&t.to_vec()), vec![2, 4, 6, 8]);
}

#[test]
fn new_sorts_items() {
    let t: PlTree<u64, u64> = PlTree::new(vec![(5, 50), (1, 10), (3, 30), (1, 11), (4, 40)]);
    assert_eq!(t.to_vec(), vec![(1, 10), (1, 11), (3, 30), (4, 40), (5, 50)]);
    check_layout(&t.repr);
}

#[test]
fn new_empty() {
    let t: PlTree<u64, u64> = PlTree::new(vec![]);
    assert_eq!(t.size(), 0);
    assert!(!t.contains(&1));
}

fn check_layout(repr: &TreeRepr<u64, u64>) {
    let present = repr.data.iter().filter(|s| s.is_some()).count();
    assert_eq!(present, repr.size);
}

#[test]
fn build_select_root_values() {
    assert_eq!(TreeRepr::<u64, ()>::build_select_root(1), 0);
    assert_eq!(TreeRepr::<u64, ()>::build_select_root(2), 1);
    assert_eq!(TreeRepr::<u64, ()>::build_select_root(3), 1);
    assert_eq!(TreeRepr::<u64, ()>::build_select_root(4), 2);
    assert_eq!(TreeRepr::<u64, ()>::build_select_root(5), 3);
    assert_eq!(TreeRepr::<u64, ()>::build_select_root(6), 3);
    assert_eq!(TreeRepr::<u64, ()>::build_select_root(7), 3);
}

#[test]
fn nearly_complete_layout() {
    let t = mk_tree((1..=10).collect());
    assert_eq!(t.repr.data.len(), 10);
    assert!(t.repr.data.iter().all(|s| s.is_some()));
    check_bst(&t);
}

#[test]
fn find_and_delete() {
    let mut t: PlTree<u64, u64> = PlTree::with_sorted(vec![(1, 10), (2, 20), (2, 21), (3, 30)]);
    assert_eq!(t.find(&3), Some(&30));
    assert_eq!(t.find(&7), None);
    assert!(t.contains(&2));
    let v = t.delete(&2).unwrap();
    assert!(v == 20 || v == 21);
    let rest = t.to_vec();
    assert_eq!(rest.iter().map(|e| e.0).collect::<Vec<_>>(), vec![1, 2, 3]);
    assert!(rest.contains(&(2, 41 - v)));
    assert_eq!(t.delete(&9), None);
    assert_eq!(t.size(), 3);
}

#[test]
fn query_range_keeps_tree() {
    let t = five();
    let mut sink = Vec::new();
    t.query_range(2..4, &mut sink);
    assert_eq!(keys(&sink), vec![2, 3]);
    let mut sink2 = Vec::new();
    t.query_range(4..4, &mut sink2);
    assert_eq!(keys(&sink2), vec![4]);
    assert_eq!(t.size(), 5);
}

#[test]
fn delete_range_ref_takes_start() {
    let mut t = five();
    let mut out = Vec::new();
    t.delete_range_ref(&3..&3, &mut out);
    assert_eq!(keys(&out), vec![3]);
    t.delete_range_ref(&1..&3, &mut out);
    assert_eq!(keys(&out), vec![3, 1, 2]);
    assert_eq!(keys(&t.to_vec()), vec![4, 5]);
}

struct Even;

impl ItemFilter<usize> for Even {
    fn accepts(&self, key: usize) -> bool {
        key % 2 == 0
    }

    fn accept(&self, key: &usize) -> bool {
        key % 2 == 0
    }

    fn is_noop() -> bool {
        false
    }
}

#[test]
fn filter_range_keeps_rejected() {
    let mut t = mk_tree((1..=10).collect());
    let mut out = Vec::new();
    t.filter_range(3..9, Even, &mut out);
    assert_eq!(keys(&out), vec![4, 6, 8]);
    assert_eq!(keys(&t.to_vec()), vec![1, 2, 3, 5, 7, 9, 10]);
    assert_eq!(out.len() + t.size(), 10);
    check_bst(&t);
    check_integrity(&t);
    let mut out2 = Vec::new();
    t.filter_range_ref(&1..&11, Even, &mut out2);
    assert_eq!(keys(&out2), vec![2, 10]);
}

#[test]
fn map_facade() {
    let mut m: TeardownTreeMap<u64, char> = TeardownTreeMap::new(vec![(3, 'c'), (1, 'a'), (2, 'b')]);
    assert!(m.contains_key(&2));
    assert!(!m.is_empty());
    let mut out = Vec::new();
    m.delete_range(2..3, &mut out);
    assert_eq!(out, vec![(2, 'b')]);
    assert_eq!(m.delete(&3), Some('c'));
    assert_eq!(m.size(), 1);
    let master = m.clone();
    m.clear();
    assert!(m.is_empty());
    m.refill(&master);
    assert_eq!(m.to_vec(), vec![(1, 'a')]);
}

#[test]
fn set_facade() {
    let mut s: TeardownTreeSet<u64> = TeardownTreeSet::new(vec![5, 3, 9, 1, 7]);
    assert_eq!(s.to_vec(), vec![1, 3, 5, 7, 9]);
    assert!(s.contains(&7));
    assert!(!s.contains(&4));
    let mut q = Vec::new();
    s.query_range(3..8, &mut q);
    assert_eq!(q, vec![3, 5, 7]);
    let mut out = Vec::new();
    s.delete_range(4..9, &mut out);
    assert_eq!(out, vec![5, 7]);
    assert!(s.delete(&9));
    assert!(!s.delete(&9));
    assert_eq!(s.to_vec(), vec![1, 3]);
    let mut out2 = Vec::new();
    s.delete_range_ref(&0..&2, &mut out2);
    assert_eq!(out2, vec![1]);
    assert_eq!(s.size(), 1);
}

#[test]
fn enclosing_arithmetic() {
    assert_eq!(left_enclosing(1), 0);
    assert_eq!(left_enclosing(2), 2);
    assert_eq!(left_enclosing(3), 0);
    assert_eq!(left_enclosing(5), 2);
    assert_eq!(left_enclosing(7), 0);
    assert_eq!(left_enclosing(11), 2);
    assert_eq!(right_enclosing(1), 1);
    assert_eq!(right_enclosing(2), 1);
    assert_eq!(right_enclosing(4), 1);
    assert_eq!(right_enclosing(6), 3);
    assert_eq!(right_enclosing(12), 3);
}

#[test]
fn succ_walks_in_order() {
    let t = mk_tree((1..=10).collect());
    let mut idx = t.repr.find_min(0);
    let mut seen = Vec::new();
    while idx < t.repr.capacity() {
        seen.push(t.repr.key(idx).clone());
        idx = t.repr.succ(idx);
    }
    assert_eq!(seen, (1..=10).collect::<Vec<_>>());
    assert_eq!(idx, t.repr.capacity());
}

#[test]
fn popcount_matches_size_after_deletes() {
    let mut t = mk_tree((1..=30).collect());
    for k in [7usize, 3, 19, 30, 1, 15] {
        assert!(t.delete(&k).is_some());
        let occupied = t.repr.data.iter().filter(|s| s.is_some()).count();
        assert_eq!(occupied, t.size());
        check_bst(&t);
        check_integrity(&t);
    }
    assert_eq!(t.size(), 24);
}

#[test]
fn index_of_follows_search_path() {
    let empty: Tree = mk_tree(vec![]);
    assert_eq!(empty.repr.index_of(&5), 0);
    let t = mk_tree((1..=7).collect());
    // the root holds 4; 3 lies left of it, under 2
    assert_eq!(t.repr.index_of(&4), 0);
    let i = t.repr.index_of(&3);
    assert_eq!(t.repr.key(i), &3);
    // 8 is missing: the search ends in the empty right child of 7
    let j = t.repr.index_of(&8);
    assert!(t.repr.is_nil(j));
    assert_eq!(j, 2 * t.repr.index_of(&7) + 2);
}

#[test]
fn with_sorted_fills_every_slot() {
    for n in 0..20usize {
        let t = mk_tree((1..=n).collect());
        assert_eq!(t.repr.data.len(), n);
        assert!(t.repr.data.iter().all(|s| s.is_some()));
        assert_eq!(keys(&t.to_vec()), (1..=n).collect::<Vec<_>>());
        check_bst(&t);
    }
}

#[test]
fn preorder_and_reverse_traversals() {
    let t = mk_tree(vec![1, 2, 3]);
    let mut slots = Vec::new();
    t.repr.traverse_preorder(0, &mut slots);
    assert_eq!(slots, vec![0, 1, 2]);
    let mut rev = Vec::new();
    t.repr.traverse_inorder_rev(0, &mut rev);
    assert_eq!(keys(&rev), vec![3, 2, 1]);
}

#[test]
fn filter_range_ref_takes_start() {
    let mut t = mk_tree((1..=6).collect());
    let mut out = Vec::new();
    t.filter_range_ref(&4..&4, Even, &mut out);
    assert_eq!(keys(&out), vec![4]);
    let mut s: TeardownTreeSet<u64> = TeardownTreeSet::new(vec![1, 2, 3]);
    let mut out2 = Vec::new();
    s.delete_range_ref(&2..&2, &mut out2);
    assert_eq!(out2, vec![2]);
}

#[test]
fn root_matches_build_select_root() {
    for n in 1..40usize {
        let t = mk_tree((1..=n).collect());
        let r = TreeRepr::<u64, ()>::build_select_root(n);
        assert_eq!(*t.repr.key(0), r + 1);
    }
}
