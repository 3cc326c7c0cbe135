use std::ops::Range;

use teardown_tree::base::{lefti, righti};
use teardown_tree::external_api::{IntervalTeardownTreeMap, IntervalTeardownTreeSet, TeardownTreeRefill};
use teardown_tree::interval::KeyInterval;
use teardown_tree::interval_tree::IvTree;

type Iv = KeyInterval;
type Tree = IvTree<()>;

fn iv(a: u64, b: u64) -> Iv {
    KeyInterval::new(a, b)
}

fn intervals(out: &Vec<(Iv, ())>) -> Vec<(u64, u64)> {
    out.iter().map(|e| (e.0.a, e.0.b)).collect()
}

fn le(x: &Iv, y: &Iv) -> bool {
    x.a < y.a || (x.a == y.a && x.b <= y.b)
}

/// Checks the order and the recorded end maxima of the subtree at `idx`; returns
/// its smallest and largest interval and its largest end point.
fn check_rec(tree: &Tree, idx: usize) -> Option<(Iv, Iv, u64)> {
    let node = tree.repr.node_opt(idx)?;
    let key = node.0;
    let left = check_rec(tree, lefti(idx));
    let right = check_rec(tree, righti(idx));
    let mut maxb = key.b;
    let min = match left {
        Some((lmin, lmax, lb)) => {
            assert!(le(&lmax, &key));
            maxb = maxb.max(lb);
            lmin
        }
        None => key,
    };
    let max = match right {
        Some((rmin, rmax, rb)) => {
            assert!(le(&key, &rmin));
            maxb = maxb.max(rb);
            rmax
        }
        None => key,
    };
    assert_eq!(tree.maxb[idx], maxb);
    Some((min, max, maxb))
}

fn check_integrity(tree: &Tree) {
    let data = &tree.repr.data;
    let mut occupied = 0;
    for i in 0..data.len() {
        if data[i].is_some() {
            if i != 0 {
                assert!(data[(i - 1) / 2].is_some());
            }
            occupied += 1;
        }
    }
    assert_eq!(occupied, tree.size());
}

fn test_interval_tree(xs: Vec<Range<u64>>, rm: Range<u64>) -> bool {
    let mut items = xs
        .into_iter()
        .map(|r| if r.start <= r.end { iv(r.start, r.end) } else { iv(r.end, r.start) })
        .map(|x| (x, ()))
        .collect::<Vec<_>>();
    items.sort();
    let tree = Tree::with_sorted(items);
    let rm = if rm.start <= rm.end { iv(rm.start, rm.end) } else { iv(rm.end, rm.start) };
    check_tree(tree, rm)
}

fn check_tree(mut tree: Tree, rm: Iv) -> bool {
    let orig = tree.clone();
    let mut output = Vec::with_capacity(tree.size());
    tree.delete_overlap(&rm, &mut output);

    check_rec(&tree, 0);
    check_integrity(&tree);
    for x in output.iter() {
        assert!(rm.intersects(&x.0));
    }
    for x in tree.to_vec().iter() {
        assert!(!x.0.intersects(&rm));
    }
    for i in 1..output.len() {
        assert!(le(&output[i - 1].0, &output[i].0));
    }
    assert!(output.len() + tree.size() == orig.size());
    true
}

#[test]
fn prebuilt() {
    test_interval_tree(vec![0..0], 0..0);
    test_interval_tree(vec![0..0, 0..0, 0..1], 0..1);

    test_interval_tree(vec![1..1, 0..0, 0..0, 0..0], 0..1);
    test_interval_tree(vec![0..0, 1..1, 0..0, 0..0], 0..1);
    test_interval_tree(vec![0..0, 0..0, 1..1, 0..0], 0..1);
    test_interval_tree(vec![0..0, 0..0, 0..0, 1..1], 0..1);
    test_interval_tree(vec![1..1, 1..1, 1..1, 1..1], 0..1);

    test_interval_tree(vec![0..2, 1..2, 1..1, 1..2], 1..2);
    test_interval_tree(vec![0..2, 0..2, 2..0, 1..2, 0..2, 1..2, 0..2, 0..2, 1..0, 1..2], 1..2);
    test_interval_tree(vec![0..2, 1..1, 0..2, 0..2, 1..2, 1..2, 1..2, 0..2, 1..2, 0..2], 1..2);
}

fn three() -> Tree {
    Tree::with_sorted(vec![(iv(0, 2), ()), (iv(1, 3), ()), (iv(4, 5), ())])
}

#[test]
fn delete_overlap_endpoints() {
    let mut t = three();
    let mut out = Vec::new();
    t.delete_overlap(&iv(2, 4), &mut out);
    assert_eq!(intervals(&out), vec![(1, 3)]);
    assert_eq!(intervals(&t.to_vec()), vec![(0, 2), (4, 5)]);
    check_rec(&t, 0);
}

#[test]
fn overlap_point_rule() {
    assert!(iv(3, 3).intersects(&iv(3, 9)));
    assert!(!iv(0, 2).intersects(&iv(2, 4)));
    assert!(iv(1, 3).intersects(&iv(2, 4)));
}

#[test]
fn query_overlap_prunes_and_keeps() {
    let items: Vec<(Iv, u64)> = (0..20u64).map(|i| (iv(i, i + 2), i)).collect();
    let t: IvTree<u64> = IvTree::with_sorted(items);
    let mut sink = Vec::new();
    t.query_overlap(&iv(10, 12), &mut sink);
    let got: Vec<u64> = sink.iter().map(|e| e.1).collect();
    assert_eq!(got, vec![9, 10, 11]);
    assert_eq!(t.size(), 20);
}

#[test]
fn maxb_after_build_and_delete() {
    let mut t: IvTree<u64> = IvTree::new(vec![(iv(5, 6), 0), (iv(1, 100), 1), (iv(3, 4), 2), (iv(8, 9), 3)]);
    assert_eq!(t.maxb[0], 100);
    assert_eq!(t.delete(&iv(1, 100)), Some(1));
    assert_eq!(t.maxb[0], 9);
    assert_eq!(t.delete(&iv(1, 100)), None);
    assert!(t.contains(&iv(3, 4)));
}

#[test]
fn interval_map_and_set() {
    let mut m: IntervalTeardownTreeMap<u32> = IntervalTeardownTreeMap::new(vec![(iv(4, 5), 3), (iv(0, 2), 1), (iv(1, 3), 2)]);
    let mut out = Vec::new();
    m.delete_overlap(&iv(2, 4), &mut out);
    assert_eq!(out, vec![(iv(1, 3), 2)]);
    assert_eq!(m.size(), 2);
    assert!(m.contains_key(&iv(4, 5)));

    let master = IntervalTeardownTreeSet::new(vec![iv(4, 5), iv(0, 2), iv(1, 3)]);
    let mut s = master.clone();
    let mut q = Vec::new();
    s.query_overlap(&iv(0, 1), &mut q);
    assert_eq!(q, vec![iv(0, 2)]);
    let mut removed = Vec::new();
    s.delete_overlap(&iv(0, 10), &mut removed);
    assert_eq!(removed, vec![iv(0, 2), iv(1, 3), iv(4, 5)]);
    assert!(s.is_empty());
    s.refill(&master);
    assert_eq!(s.to_vec(), vec![iv(0, 2), iv(1, 3), iv(4, 5)]);
    assert!(s.delete(&iv(1, 3)));
    assert!(!s.contains(&iv(1, 3)));
}
