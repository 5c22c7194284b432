//! Integration tests for the public [`BPlusTree`] surface, exercised the way a
//! consumer would: only public API.

use index_db::BPlusTree;
use index_db::Bound;
use index_db::Iter;

/// Every key an iterator yields from the front.
fn forward_keys<K: Ord + Clone, V>(mut it: Iter<'_, K, V>) -> Vec<K> {
    let mut out = Vec::new();
    while let Some((k, _)) = it.next() {
        out.push(k.clone());
    }
    out
}

/// Every key an iterator yields from the back.
fn backward_keys<K: Ord + Clone, V>(mut it: Iter<'_, K, V>) -> Vec<K> {
    let mut out = Vec::new();
    while let Some((k, _)) = it.next_back() {
        out.push(k.clone());
    }
    out
}

#[test]
fn empty_tree_has_no_entries() {
    let tree: BPlusTree<u64, u64> = BPlusTree::new();
    assert!(tree.is_empty());
    assert_eq!(tree.len(), 0);
    assert_eq!(tree.get(&0), None);
    assert!(!tree.contains_key(&0));
    assert_eq!(tree.height(), 1);
}

#[test]
fn default_matches_new() {
    let tree: BPlusTree<u64, u64> = BPlusTree::default();
    assert!(tree.is_empty());
}

#[test]
fn insert_returns_previous_value_on_overwrite() {
    let mut tree = BPlusTree::new();
    assert_eq!(tree.insert("alpha", 1), None);
    assert_eq!(tree.insert("alpha", 2), Some(1));
    assert_eq!(tree.get(&"alpha"), Some(&2));
    assert_eq!(tree.len(), 1);
}

#[test]
fn lookups_find_every_inserted_key() {
    let mut tree = BPlusTree::new();
    for k in 0..10_000_u32 {
        assert_eq!(tree.insert(k, k.wrapping_mul(3)), None);
    }
    assert_eq!(tree.len(), 10_000);
    for k in 0..10_000_u32 {
        assert_eq!(tree.get(&k), Some(&k.wrapping_mul(3)));
    }
    assert_eq!(tree.get(&10_000), None);
    // Ten thousand keys are enough to grow the tree past a single leaf.
    assert!(tree.height() >= 2);
}

#[test]
fn clear_empties_the_tree() {
    let mut tree = BPlusTree::new();
    for k in 0..1_000_u32 {
        let _previous = tree.insert(k, k);
    }
    tree.clear();
    assert!(tree.is_empty());
    assert_eq!(tree.get(&0), None);
    assert_eq!(tree.height(), 1);
    // The tree is usable again after clearing.
    assert_eq!(tree.insert(5, 5), None);
    assert_eq!(tree.get(&5), Some(&5));
}

#[test]
fn string_keys_order_correctly() {
    let mut tree = BPlusTree::new();
    let words = ["pear", "apple", "fig", "cherry", "date", "banana"];
    for (i, w) in words.iter().enumerate() {
        assert_eq!(tree.insert(w.to_string(), i), None);
    }
    assert_eq!(tree.get(&"cherry".to_string()), Some(&3));
    assert_eq!(tree.get(&"kiwi".to_string()), None);
    assert_eq!(tree.len(), words.len());
}

#[test]
fn remove_returns_value_and_shrinks() {
    let mut tree = BPlusTree::new();
    for k in 0..1_000_u32 {
        let _previous = tree.insert(k, k * 2);
    }
    for k in 0..1_000_u32 {
        assert_eq!(tree.remove(&k), Some(k * 2));
    }
    assert!(tree.is_empty());
    assert_eq!(tree.remove(&0), None);
    assert_eq!(tree.height(), 1);
}

#[test]
fn iterate_in_order() {
    let mut tree = BPlusTree::new();
    for k in [40_u32, 10, 30, 20, 50] {
        let _previous = tree.insert(k, k);
    }
    let keys = forward_keys(tree.iter());
    assert_eq!(keys, vec![10, 20, 30, 40, 50]);

    // A second iterator over the same tree yields the same keys.
    let again = forward_keys(tree.iter());
    assert_eq!(again, keys);

    let reversed = backward_keys(tree.iter());
    assert_eq!(reversed, vec![50, 40, 30, 20, 10]);
}

#[test]
fn range_scan_matches_expected() {
    let mut tree = BPlusTree::new();
    for k in 0..100_u32 {
        let _previous = tree.insert(k, k);
    }
    let window = forward_keys(tree.range(Bound::Included(&20), Bound::Excluded(&30)));
    assert_eq!(window, (20..30).collect::<Vec<_>>());

    let inclusive = forward_keys(tree.range(Bound::Included(&95), Bound::Included(&99)));
    assert_eq!(inclusive, vec![95, 96, 97, 98, 99]);

    let empty = forward_keys(tree.range(Bound::Included(&200), Bound::Excluded(&300)));
    assert!(empty.is_empty());
}
