use bplus::bplustree::BPlusTree;

/// A small deterministic generator, so that the key orders below vary
/// without any outside crate.
fn scramble(n: u32, seed: u32) -> Vec<u32> {
    let mut keys: Vec<u32> = (0..n).map(|i| i * 3 + 1).collect();
    let mut state = seed.wrapping_mul(2_654_435_761).wrapping_add(1);
    for i in (1..keys.len()).rev() {
        state = state.wrapping_mul(1_103_515_245).wrapping_add(12_345);
        let j = (state as usize) % (i + 1);
        keys.swap(i, j);
    }
    keys
}

#[test]
fn round_trip_every_key_found_and_no_other() {
    for degree in 3..8 {
        let keys = scramble(200, degree as u32);
        let tree = BPlusTree::new(keys.clone(), degree);
        for k in &keys {
            assert_eq!(tree.get(k), Some(k));
        }
        for k in 0..700u32 {
            if k % 3 != 1 {
                assert_eq!(tree.get(&k), None);
            }
        }
    }
}

#[test]
fn inserting_a_key_twice_changes_nothing() {
    let mut tree = BPlusTree::new(vec![5, 1, 9], 4);
    tree.insert(9);
    tree.insert(9);
    assert_eq!(tree.get(&9), Some(&9));
    assert_eq!(tree.remove(&9), Some(9));
    assert_eq!(tree.get(&9), None);
    assert_eq!(tree.remove(&9), None);
    assert_eq!(tree.get(&5), Some(&5));
    assert_eq!(tree.get(&1), Some(&1));
}

#[test]
fn removing_an_absent_key_changes_nothing() {
    let keys = scramble(60, 11);
    let mut tree = BPlusTree::new(keys.clone(), 5);
    assert_eq!(tree.remove(&2), None);
    assert_eq!(tree.remove(&2), None);
    assert_eq!(tree.remove(&100_000), None);
    for k in &keys {
        assert_eq!(tree.get(k), Some(k));
    }
}

#[test]
fn removal_drops_only_the_removed_key() {
    for degree in 3..7 {
        let keys = scramble(120, 40 + degree as u32);
        let order = scramble(120, 90 + degree as u32);
        let mut tree = BPlusTree::new(keys.clone(), degree);
        for (n, k) in order.iter().enumerate() {
            assert_eq!(tree.remove(k), Some(*k));
            assert_eq!(tree.get(k), None);
            for later in &order[n + 1..] {
                assert_eq!(tree.get(later), Some(later));
            }
        }
        assert_eq!(tree.get(&keys[0]), None);
    }
}

#[test]
fn empty_tree_after_removing_everything_takes_keys_again() {
    let mut tree = BPlusTree::new(vec![3, 1, 2], 3);
    assert_eq!(tree.remove(&1), Some(1));
    assert_eq!(tree.remove(&2), Some(2));
    assert_eq!(tree.remove(&3), Some(3));
    assert_eq!(tree.get(&3), None);
    assert_eq!(tree.remove(&3), None);
    tree.insert(3);
    assert_eq!(tree.get(&3), Some(&3));
}

#[test]
fn a_removed_routing_key_can_be_inserted_again() {
    let mut tree = BPlusTree::new((1..30).collect(), 4);
    for k in 1..30u32 {
        assert_eq!(tree.remove(&k), Some(k));
        tree.insert(k);
        assert_eq!(tree.get(&k), Some(&k));
    }
}

#[test]
fn degree_below_three_is_raised_to_three() {
    let keys: Vec<u32> = (0..50).collect();
    let mut tree = BPlusTree::new(keys.clone(), 2);
    for k in &keys {
        assert_eq!(tree.get(k), Some(k));
    }
    for k in &keys {
        assert_eq!(tree.remove(k), Some(*k));
    }
    let tree = BPlusTree::new(keys.clone(), 0);
    assert_eq!(tree.get(&49), Some(&49));
}

#[test]
fn largest_keys_are_stored() {
    let keys = vec![u32::MAX, 0, u32::MAX - 1, 1];
    let mut tree = BPlusTree::new(keys.clone(), 3);
    for k in &keys {
        assert_eq!(tree.get(k), Some(k));
    }
    assert_eq!(tree.remove(&u32::MAX), Some(u32::MAX));
    assert_eq!(tree.get(&u32::MAX), None);
    assert_eq!(tree.get(&(u32::MAX - 1)), Some(&(u32::MAX - 1)));
}

#[test]
fn split_on_insert_keeps_both_halves() {
    let mut tree = BPlusTree::new(vec![7, 10, 15], 4);
    tree.insert(8);
    assert_eq!(tree.get(&8), Some(&8));
    assert_eq!(tree.get(&18), None);
}

#[test]
fn deep_split_keeps_every_key() {
    let mut tree = BPlusTree::new((1..82).collect(), 4);
    tree.insert(82);
    assert_eq!(tree.get(&82), Some(&82));
    for k in 1..82u32 {
        assert_eq!(tree.get(&k), Some(&k));
    }
}

#[test]
fn borrow_from_right_sibling_on_delete() {
    let keys = vec![15, 25, 35, 5, 45, 20, 30, 55, 40];
    let mut tree = BPlusTree::new(keys.clone(), 3);
    assert_eq!(tree.remove(&5), Some(5));
    assert_eq!(tree.get(&5), None);
    let rest: Vec<u32> = keys.into_iter().filter(|&k| k != 5).collect();
    assert_eq!(rest.len(), 8);
    for k in &rest {
        assert_eq!(tree.get(k), Some(k));
    }
}

#[test]
fn merges_cascade_on_delete() {
    let mut tree = BPlusTree::new((1..20).collect(), 4);
    assert_eq!(tree.remove(&1), Some(1));
    assert_eq!(tree.remove(&2), Some(2));
    assert_eq!(tree.remove(&3), Some(3));
    for k in 1..4u32 {
        assert_eq!(tree.get(&k), None);
    }
    for k in 4..20u32 {
        assert_eq!(tree.get(&k), Some(&k));
    }
}

#[test]
fn split_copies_the_separator_up() {
    let mut tree = BPlusTree::new(vec![7, 10, 15], 4);
    assert_eq!(tree.level(0), vec![vec![7, 10, 15]]);
    assert_eq!(tree.level(1), Vec::<Vec<u32>>::new());
    tree.insert(8);
    assert_eq!(tree.level(0), vec![vec![10]]);
    assert_eq!(tree.level(1), vec![vec![7, 8], vec![10, 15]]);
    assert_eq!(tree.level(2), Vec::<Vec<u32>>::new());
}

#[test]
fn leaves_stay_at_one_depth() {
    for degree in 3..7 {
        let mut tree = BPlusTree::new(scramble(300, degree as u32), degree);
        for k in scramble(300, 7 * degree as u32).iter().take(250) {
            tree.remove(k);
        }
        let mut depth = 0;
        while !tree.level(depth + 1).is_empty() {
            depth += 1;
        }
        let mut stored = 0;
        for keys in tree.level(depth) {
            assert!(!keys.is_empty());
            stored += keys.len();
        }
        assert_eq!(stored, 50);
        for d in 1..=depth {
            for keys in tree.level(d) {
                assert!(keys.len() >= (degree - 1) / 2);
                assert!(keys.len() <= degree - 1);
            }
        }
    }
}

#[test]
fn empty_tree_has_no_levels() {
    let tree = BPlusTree::new(vec![], 3);
    assert_eq!(tree.level(0), Vec::<Vec<u32>>::new());
}

#[test]
fn internal_split_moves_the_middle_key_up() {
    let tree = BPlusTree::new(vec![1, 2, 3, 4, 5], 3);
    assert_eq!(tree.level(0), vec![vec![3]]);
    assert_eq!(tree.level(1), vec![vec![2], vec![4]]);
    assert_eq!(tree.level(2), vec![vec![1], vec![2], vec![3], vec![4, 5]]);
}

#[test]
fn inserting_a_stored_key_leaves_the_layout_alone() {
    let mut tree = BPlusTree::new((1..40).collect(), 4);
    let before: Vec<Vec<Vec<u32>>> = (0..5).map(|d| tree.level(d)).collect();
    for k in [1, 17, 39, 20] {
        tree.insert(k);
    }
    let after: Vec<Vec<Vec<u32>>> = (0..5).map(|d| tree.level(d)).collect();
    assert_eq!(before, after);
}
