//! The library's laws checked on concrete values, edge cases of the bounds and
//! fan-out, and long deterministic workloads checked against `BTreeMap`.

use std::collections::BTreeMap;

use index_db::BPlusTree;
use index_db::Bound;
use index_db::Iter;

/// Every entry an iterator yields from the front.
fn front_all(mut it: Iter<'_, u32, u32>) -> Vec<(u32, u32)> {
    let mut out = Vec::new();
    while let Some((&k, &v)) = it.next() {
        out.push((k, v));
    }
    out
}

/// Every entry an iterator yields from the back.
fn back_all(mut it: Iter<'_, u32, u32>) -> Vec<(u32, u32)> {
    let mut out = Vec::new();
    while let Some((&k, &v)) = it.next_back() {
        out.push((k, v));
    }
    out
}

/// A deterministic stream of numbers (SplitMix64).
struct Stream(u64);

impl Stream {
    fn below(&mut self, n: u64) -> u64 {
        self.0 = self.0.wrapping_add(0x9E37_79B9_7F4A_7C15);
        let mut z = self.0;
        z = (z ^ (z >> 30)).wrapping_mul(0xBF58_476D_1CE4_E5B9);
        z = (z ^ (z >> 27)).wrapping_mul(0x94D0_49BB_1331_11EB);
        (z ^ (z >> 31)) % n
    }
}

#[test]
fn read_after_insert_gives_value_and_leaves_others() {
    let mut tree = BPlusTree::with_order(3);
    for k in 0..40_u32 {
        let _ = tree.insert(k, k + 1);
    }
    assert_eq!(tree.insert(17, 999), Some(18));
    assert_eq!(tree.get(&17), Some(&999));
    for k in (0..40_u32).filter(|&k| k != 17) {
        assert_eq!(tree.get(&k), Some(&(k + 1)));
    }
    assert_eq!(tree.get(&40), None);
}

#[test]
fn read_after_remove_is_absent_and_leaves_others() {
    let mut tree = BPlusTree::with_order(4);
    for k in 0..40_u32 {
        let _ = tree.insert(k, k * 3);
    }
    assert_eq!(tree.remove(&21), Some(63));
    assert!(!tree.contains_key(&21));
    for k in (0..40_u32).filter(|&k| k != 21) {
        assert_eq!(tree.get(&k), Some(&(k * 3)));
    }
}

#[test]
fn len_counts_new_keys_only() {
    let mut tree = BPlusTree::new();
    let _ = tree.insert(1_u32, 1_u32);
    let _ = tree.insert(2, 2);
    assert_eq!(tree.len(), 2);
    let _ = tree.insert(1, 10);
    assert_eq!(tree.len(), 2);
    assert_eq!(tree.remove(&7), None);
    assert_eq!(tree.len(), 2);
    assert_eq!(tree.remove(&2), Some(2));
    assert_eq!(tree.len(), 1);
}

#[test]
fn insert_then_remove_restores_listing() {
    let mut tree = BPlusTree::with_order(3);
    for k in (0..60_u32).map(|k| k * 2) {
        let _ = tree.insert(k, k);
    }
    let before = front_all(tree.iter());
    assert_eq!(tree.insert(33, 7), None);
    assert_eq!(tree.remove(&33), Some(7));
    assert_eq!(front_all(tree.iter()), before);

    // Putting back what a removal returned restores the map too.
    let v = tree.remove(&40).unwrap();
    assert_eq!(tree.insert(40, v), None);
    assert_eq!(front_all(tree.iter()), before);
}

#[test]
fn listing_is_sorted_and_matches_lookups() {
    let mut tree = BPlusTree::with_order(5);
    let mut s = Stream(7);
    for _ in 0..500 {
        let k = s.below(1_000) as u32;
        let _ = tree.insert(k, k ^ 0x55);
    }
    let all = front_all(tree.iter());
    assert_eq!(all.len(), tree.len());
    for w in all.windows(2) {
        assert!(w[0].0 < w[1].0);
    }
    for (k, v) in all {
        assert_eq!(tree.get(&k), Some(&v));
    }
}

#[test]
fn emptied_tree_is_one_level() {
    let mut tree = BPlusTree::with_order(3);
    for k in 0..300_u32 {
        let _ = tree.insert(k, k);
    }
    assert!(tree.height() > 2);
    for k in (0..300_u32).rev() {
        assert_eq!(tree.remove(&k), Some(k));
    }
    assert_eq!(tree.len(), 0);
    assert_eq!(tree.height(), 1);
    assert_eq!(tree.iter().next(), None);
}

#[test]
fn height_is_logarithmic_in_size() {
    // Fan-out 3 (m = 2): a tree `h` levels tall holds at least
    // 2 * 2^(h - 2) * 1 entries and at most 2 * 3^(h - 1).
    let mut tree = BPlusTree::with_order(3);
    for k in 0..1_000_u32 {
        let _ = tree.insert(k, k);
    }
    let h = tree.height() as u32;
    assert!(h >= 2);
    assert!(2 * 2_usize.pow(h - 2) <= tree.len());
    assert!(tree.len() <= 2 * 3_usize.pow(h - 1));

    // Default fan-out 64 (m = 32): at least 2 * 32^(h - 2) * 31 entries and
    // at most 63 * 64^(h - 1).
    let mut wide = BPlusTree::new();
    for k in 0..100_000_u32 {
        let _ = wide.insert(k, k);
    }
    let h = wide.height() as u32;
    assert!(h >= 2 && h <= 5);
    assert!(2 * 32_usize.pow(h - 2) * 31 <= wide.len());
    assert!(wide.len() <= 63 * 64_usize.pow(h - 1));
}

#[test]
fn bulk_load_is_as_short_as_possible() {
    // 63 * 64 = 4032 entries fit in two levels at fan-out 64; one more needs three.
    let fits: Vec<(u32, u32)> = (0..4_032_u32).map(|k| (k, k)).collect();
    assert_eq!(BPlusTree::from_sorted(fits).height(), 2);
    let over: Vec<(u32, u32)> = (0..4_033_u32).map(|k| (k, k)).collect();
    assert_eq!(BPlusTree::from_sorted(over).height(), 3);
    // 63 entries fit in one leaf.
    let leaf: Vec<(u32, u32)> = (0..63_u32).map(|k| (k, k)).collect();
    assert_eq!(BPlusTree::from_sorted(leaf).height(), 1);
}

#[test]
fn replacing_or_removing_absent_keys_keeps_height() {
    let mut tree = BPlusTree::with_order(3);
    for k in 0..200_u32 {
        let _ = tree.insert(k, k);
    }
    let h = tree.height();
    for k in 0..200_u32 {
        assert_eq!(tree.insert(k, k + 1), Some(k));
        assert_eq!(tree.height(), h);
    }
    for k in 200..400_u32 {
        assert_eq!(tree.remove(&k), None);
        assert_eq!(tree.height(), h);
    }
}

#[test]
fn unbounded_range_is_the_full_listing() {
    let mut tree = BPlusTree::with_order(4);
    for k in [9_u32, 3, 7, 1, 5] {
        let _ = tree.insert(k, k * k);
    }
    assert_eq!(front_all(tree.range(Bound::Unbounded, Bound::Unbounded)), front_all(tree.iter()));
    assert_eq!(back_all(tree.range(Bound::Unbounded, Bound::Unbounded)), back_all(tree.iter()));
}

#[test]
fn range_yields_exactly_keys_in_bounds() {
    let mut tree = BPlusTree::with_order(3);
    for k in (0..50_u32).map(|k| k * 3) {
        let _ = tree.insert(k, k + 100);
    }
    // Excluded lower bound on a present key, included upper bound on an
    // absent one.
    let got = front_all(tree.range(Bound::Excluded(&30), Bound::Included(&50)));
    assert_eq!(got, vec![(33, 133), (36, 136), (39, 139), (42, 142), (45, 145), (48, 148)]);
    // Excluded on both sides, walked from the back.
    let got = back_all(tree.range(Bound::Excluded(&0), Bound::Excluded(&12)));
    assert_eq!(got, vec![(9, 109), (6, 106), (3, 103)]);
    // A range whose bounds cross is empty.
    assert_eq!(front_all(tree.range(Bound::Included(&90), Bound::Included(&30))), vec![]);
    // A single-key range.
    assert_eq!(front_all(tree.range(Bound::Included(&90), Bound::Included(&90))), vec![(90, 190)]);
    // A range between two adjacent keys is empty.
    assert_eq!(front_all(tree.range(Bound::Excluded(&90), Bound::Excluded(&93))), vec![]);
    // Ranges below and above every key are empty.
    assert_eq!(front_all(tree.range(Bound::Unbounded, Bound::Excluded(&0))), vec![]);
    assert_eq!(front_all(tree.range(Bound::Excluded(&147), Bound::Unbounded)), vec![]);
}

#[test]
fn iterator_stays_exhausted() {
    let mut tree = BPlusTree::new();
    let _ = tree.insert(1_u32, 1_u32);
    let mut it = tree.iter();
    assert_eq!(it.next(), Some((&1, &1)));
    assert_eq!(it.next(), None);
    assert_eq!(it.next_back(), None);
    assert_eq!(it.next(), None);
}

#[test]
fn small_fanout_is_raised_to_three() {
    for order in 0..3_usize {
        let mut tree = BPlusTree::with_order(order);
        for k in 0..100_u32 {
            let _ = tree.insert(k, k);
        }
        assert_eq!(tree.len(), 100);
        assert_eq!(front_all(tree.iter()), (0..100_u32).map(|k| (k, k)).collect::<Vec<_>>());
    }
}

#[test]
fn bulk_load_with_adjacent_duplicates_falls_back() {
    let tree = BPlusTree::from_sorted(vec![(1_u32, 10_u32), (1, 11), (2, 20)]);
    assert_eq!(tree.len(), 2);
    assert_eq!(tree.get(&1), Some(&11));
    assert_eq!(front_all(tree.iter()), vec![(1, 11), (2, 20)]);
}

#[test]
fn bulk_load_keeps_every_entry() {
    let entries: Vec<(u32, u32)> = (0..2_000_u32).map(|k| (k * 5, k)).collect();
    let tree = BPlusTree::from_sorted_with_order(entries.clone(), 3);
    assert_eq!(front_all(tree.iter()), entries);
    assert_eq!(back_all(tree.iter()), entries.iter().rev().copied().collect::<Vec<_>>());
}

#[test]
fn default_tree_accepts_entries() {
    let mut tree: BPlusTree<u32, u32> = BPlusTree::default();
    assert_eq!(tree.height(), 1);
    let _ = tree.insert(3, 4);
    assert_eq!(tree.get(&3), Some(&4));
}

#[test]
fn random_inserts_track_reference_map() {
    for order in 3..8_usize {
        let mut s = Stream(order as u64);
        let mut tree = BPlusTree::with_order(order);
        let mut reference = BTreeMap::new();
        for _ in 0..400 {
            let k = s.below(200) as u32;
            let v = s.below(1_000_000) as u32;
            assert_eq!(tree.insert(k, v), reference.insert(k, v));
        }
        assert_eq!(tree.len(), reference.len());
        for k in 0..200_u32 {
            assert_eq!(tree.get(&k), reference.get(&k));
            assert_eq!(tree.contains_key(&k), reference.contains_key(&k));
        }
        let want: Vec<_> = reference.iter().map(|(&k, &v)| (k, v)).collect();
        assert_eq!(front_all(tree.iter()), want);
    }
}

#[test]
fn random_ranges_track_reference_map() {
    for order in 3..8_usize {
        let mut s = Stream(100 + order as u64);
        let mut tree = BPlusTree::with_order(order);
        let mut reference = BTreeMap::new();
        for _ in 0..300 {
            let k = s.below(200) as u32;
            let _ = tree.insert(k, k.wrapping_mul(7));
            let _ = reference.insert(k, k.wrapping_mul(7));
        }
        for _ in 0..50 {
            let a = s.below(200) as u32;
            let b = s.below(200) as u32;
            let (lo, hi) = (a.min(b), a.max(b));
            let got = front_all(tree.range(Bound::Included(&lo), Bound::Excluded(&hi)));
            let want: Vec<_> = reference.range(lo..hi).map(|(&k, &v)| (k, v)).collect();
            assert_eq!(got, want);
            let got = back_all(tree.range(Bound::Included(&lo), Bound::Included(&hi)));
            let want: Vec<_> = reference.range(lo..=hi).rev().map(|(&k, &v)| (k, v)).collect();
            assert_eq!(got, want);
        }
    }
}

#[test]
fn random_removes_track_reference_map() {
    for order in 3..8_usize {
        let mut s = Stream(200 + order as u64);
        let mut tree = BPlusTree::with_order(order);
        let mut reference = BTreeMap::new();
        for _ in 0..600 {
            let k = s.below(150) as u32;
            if s.below(2) == 0 {
                assert_eq!(tree.insert(k, k), reference.insert(k, k));
            } else {
                assert_eq!(tree.remove(&k), reference.remove(&k));
            }
            assert_eq!(tree.len(), reference.len());
        }
        let want: Vec<_> = reference.iter().map(|(&k, &v)| (k, v)).collect();
        assert_eq!(front_all(tree.iter()), want);
    }
}

#[test]
fn same_contents_iterate_the_same_regardless_of_history() {
    let sorted: Vec<(u32, u32)> = (0..500_u32).map(|k| (k, k + 1)).collect();
    let bulk = BPlusTree::from_sorted_with_order(sorted.clone(), 4);
    let mut built = BPlusTree::with_order(7);
    for &(k, v) in sorted.iter().rev() {
        let _ = built.insert(k, v);
    }
    for k in 500..600_u32 {
        let _ = built.insert(k, 0);
    }
    for k in 500..600_u32 {
        let _ = built.remove(&k);
    }
    assert_eq!(front_all(bulk.iter()), front_all(built.iter()));
    assert_eq!(front_all(bulk.iter()), sorted);
}
