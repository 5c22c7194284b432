//! Unit-level tests of the tree: splitting, merging, bulk loading, and
//! iteration, on small fan-outs that force a tall tree.

use index_db::BPlusTree;
use index_db::Bound;
use index_db::Iter;

/// Every entry an iterator yields from the front, cloned out.
fn drain<K: Ord + Clone, V: Clone>(mut it: Iter<'_, K, V>) -> Vec<(K, V)> {
    let mut out = Vec::new();
    while let Some((k, v)) = it.next() {
        out.push((k.clone(), v.clone()));
    }
    out
}

/// Every key an iterator yields from the front.
fn keys_of<K: Ord + Clone, V>(mut it: Iter<'_, K, V>) -> Vec<K> {
    let mut out = Vec::new();
    while let Some((k, _)) = it.next() {
        out.push(k.clone());
    }
    out
}

/// Every key an iterator yields from the back.
fn keys_rev<K: Ord + Clone, V>(mut it: Iter<'_, K, V>) -> Vec<K> {
    let mut out = Vec::new();
    while let Some((k, _)) = it.next_back() {
        out.push(k.clone());
    }
    out
}

/// The tree's observable shape: a full scan is strictly ascending, yields
/// exactly `len` entries, and agrees with point lookups.
fn check_tree<K: Ord + Clone + std::fmt::Debug, V: Clone + PartialEq + std::fmt::Debug>(tree: &BPlusTree<K, V>) {
    let all = drain(tree.iter());
    assert_eq!(all.len(), tree.len(), "scan length differs from len()");
    for w in all.windows(2) {
        assert!(w[0].0 < w[1].0, "scan not strictly ascending");
    }
    for (k, v) in &all {
        assert_eq!(tree.get(k), Some(v), "scan entry disagrees with get");
    }
    assert!(tree.height() >= 1);
}

#[test]
fn test_get_empty_returns_none() {
    let tree: BPlusTree<u32, u32> = BPlusTree::new();
    assert_eq!(tree.get(&0), None);
    assert!(tree.is_empty());
    assert_eq!(tree.height(), 1);
}

#[test]
fn test_insert_duplicate_key_replaces_value() {
    let mut tree = BPlusTree::new();
    assert_eq!(tree.insert(1_u32, "a"), None);
    assert_eq!(tree.insert(1, "b"), Some("a"));
    assert_eq!(tree.get(&1), Some(&"b"));
    assert_eq!(tree.len(), 1);
}

#[test]
fn test_insert_many_splits_and_stays_balanced() {
    let mut tree = BPlusTree::with_order(4);
    for k in 0..256_u32 {
        assert_eq!(tree.insert(k, k * 10), None);
    }
    check_tree(&tree);
    assert!(tree.height() > 1, "tree should have split into multiple levels");
    for k in 0..256_u32 {
        assert_eq!(tree.get(&k), Some(&(k * 10)));
    }
    assert_eq!(tree.get(&256), None);
}

#[test]
fn test_insert_reverse_order_keeps_keys_sorted() {
    let mut tree = BPlusTree::with_order(3);
    for k in (0..100_u32).rev() {
        assert_eq!(tree.insert(k, k), None);
    }
    let keys = keys_of(tree.iter());
    assert_eq!(keys.len(), 100);
    assert!(keys.windows(2).all(|w| w[0] < w[1]), "leaf order broken");
}

#[test]
fn test_remove_absent_key_returns_none() {
    let mut tree = BPlusTree::new();
    assert_eq!(tree.insert(1_u32, "a"), None);
    assert_eq!(tree.remove(&2), None);
    assert_eq!(tree.len(), 1);
}

#[test]
fn test_remove_present_key_returns_value() {
    let mut tree = BPlusTree::new();
    assert_eq!(tree.insert(1_u32, "a"), None);
    assert_eq!(tree.insert(2, "b"), None);
    assert_eq!(tree.remove(&1), Some("a"));
    assert_eq!(tree.get(&1), None);
    assert_eq!(tree.get(&2), Some(&"b"));
    assert_eq!(tree.len(), 1);
}

#[test]
fn test_remove_all_empties_tree_and_collapses_root() {
    let mut tree = BPlusTree::with_order(4);
    for k in 0..200_u32 {
        let _ = tree.insert(k, k);
    }
    assert!(tree.height() > 1);
    for k in (0..200_u32).step_by(2) {
        assert_eq!(tree.remove(&k), Some(k));
    }
    for k in (1..200_u32).step_by(2) {
        assert_eq!(tree.remove(&k), Some(k));
    }
    assert!(tree.is_empty());
    assert_eq!(tree.height(), 1, "root should collapse back to a leaf");
}

#[test]
fn test_remove_keeps_tree_balanced() {
    let mut tree = BPlusTree::with_order(3);
    for k in 0..500_u32 {
        let _ = tree.insert(k, k);
    }
    for k in (0..500_u32).filter(|k| k % 3 == 0) {
        assert_eq!(tree.remove(&k), Some(k));
    }
    check_tree(&tree);
    for k in 0..500_u32 {
        assert_eq!(tree.get(&k), if k % 3 == 0 { None } else { Some(&k) });
    }
}

#[test]
fn test_bulk_load_builds_balanced_tree() {
    for &n in &[0_u32, 1, 2, 5, 63, 64, 65, 1_000] {
        let tree = BPlusTree::from_sorted_with_order((0..n).map(|k| (k, k * 2)).collect(), 5);
        assert_eq!(tree.len(), n as usize);
        if n > 0 {
            check_tree(&tree);
        }
        for k in 0..n {
            assert_eq!(tree.get(&k), Some(&(k * 2)));
        }
        let keys = keys_of(tree.iter());
        assert_eq!(keys, (0..n).collect::<Vec<_>>());
    }
}

#[test]
fn test_bulk_load_unsorted_falls_back() {
    let tree = BPlusTree::from_sorted_with_order(vec![(3_u32, 3), (1, 1), (2, 2), (1, 9)], 4);
    assert_eq!(tree.len(), 3);
    assert_eq!(tree.get(&1), Some(&9)); // last write wins on the fallback path
    let keys = keys_of(tree.iter());
    assert_eq!(keys, vec![1, 2, 3]);
}

#[test]
fn test_iter_empty_yields_nothing() {
    let tree: BPlusTree<u32, u32> = BPlusTree::new();
    assert_eq!(drain(tree.iter()).len(), 0);
    assert_eq!(tree.iter().next_back(), None);
    assert_eq!(drain(tree.range(Bound::Unbounded, Bound::Unbounded)).len(), 0);
}

#[test]
fn test_iter_forward_and_reverse() {
    let mut tree = BPlusTree::with_order(4);
    for k in 0..50_u32 {
        let _ = tree.insert(k, k * 10);
    }
    let fwd = drain(tree.iter());
    let expected: Vec<_> = (0..50_u32).map(|k| (k, k * 10)).collect();
    assert_eq!(fwd, expected);

    let rev = keys_rev(tree.iter());
    let expected_rev: Vec<_> = (0..50_u32).rev().collect();
    assert_eq!(rev, expected_rev);
}

#[test]
fn test_iter_from_both_ends_meets_in_middle() {
    let mut tree = BPlusTree::with_order(3);
    for k in 0..9_u32 {
        let _ = tree.insert(k, k);
    }
    let mut it = tree.iter();
    let mut seq = Vec::new();
    let mut take_front = true;
    loop {
        let item = if take_front { it.next() } else { it.next_back() };
        match item {
            Some((&k, _)) => seq.push(k),
            None => break,
        }
        take_front = !take_front;
    }
    assert_eq!(seq, vec![0, 8, 1, 7, 2, 6, 3, 5, 4]);
}

#[test]
fn test_range_bounds() {
    let mut tree = BPlusTree::with_order(4);
    for k in 0..20_u32 {
        let _ = tree.insert(k, k);
    }
    assert_eq!(keys_of(tree.range(Bound::Included(&5), Bound::Excluded(&10))), vec![5, 6, 7, 8, 9]);
    assert_eq!(keys_of(tree.range(Bound::Included(&5), Bound::Included(&10))), vec![5, 6, 7, 8, 9, 10]);
    assert_eq!(keys_of(tree.range(Bound::Unbounded, Bound::Excluded(&3))), vec![0, 1, 2]);
    assert_eq!(keys_of(tree.range(Bound::Included(&17), Bound::Unbounded)), vec![17, 18, 19]);
    assert_eq!(keys_of(tree.range(Bound::Included(&100), Bound::Excluded(&200))), Vec::<u32>::new());
    let mut sparse = BPlusTree::with_order(3);
    for k in [0_u32, 10, 20, 30, 40] {
        let _ = sparse.insert(k, k);
    }
    assert_eq!(keys_of(sparse.range(Bound::Included(&5), Bound::Excluded(&35))), vec![10, 20, 30]);
}
