use bplus::btree::BTree;

#[test]
fn btree_basics() {
    let mut tree = BTree::new();
    tree.insert(2);
    tree.insert(7);
    tree.insert(8);
    tree.insert(9);
    tree.insert(4);
    tree.insert(6);
    tree.insert(1);
    tree.insert(5);
    tree.insert(3);
    tree.insert(10);
    tree.insert(11);
    tree.insert(14);
    tree.insert(16);
    tree.insert(17);
    tree.insert(18);
    tree.insert(19);
    tree.insert(20);
    tree.insert(21);
    tree.insert(22);
    tree.insert(23);
    tree.insert(24);
    tree.insert(25);
    tree.insert(30);
    tree.insert(31);
    tree.insert(32);
    tree.insert(33);
    tree.insert(34);
    tree.insert(35);

    assert_eq!(tree.get(&2), Some(&2));
    assert_eq!(tree.get(&7), Some(&7));
    assert_eq!(tree.get(&8), Some(&8));
    assert_eq!(tree.get(&9), Some(&9));
    assert_eq!(tree.get(&5), Some(&5));
    assert_eq!(tree.get(&10), Some(&10));
    assert_eq!(tree.get(&4), Some(&4));
    assert_eq!(tree.get(&12), None);

    assert_eq!(tree.get(&5), Some(&5));

    assert_eq!(tree.remove(&11), Some(11));
}

#[test]
fn delete_key_on_root_node_with_internal_nodes() {
    let mut tree = BTree::new();
    tree.insert(2);
    tree.insert(7);
    tree.insert(8);
    tree.insert(9);
    tree.insert(4);
    tree.insert(6);
    tree.insert(1);
    tree.insert(5);
    tree.insert(3);
    tree.insert(10);
    tree.insert(11);
    tree.insert(14);

    assert_eq!(tree.remove(&7), Some(7));
}

#[test]
fn btree_delete_key_on_root_node() {
    let mut tree = BTree::new();
    tree.insert(2);
    tree.insert(7);
    tree.insert(8);

    assert_eq!(tree.remove(&7), Some(7));
    assert_eq!(tree.remove(&8), Some(8));
    assert_eq!(tree.remove(&1), None);
    assert_eq!(tree.remove(&8), None);
}

#[test]
fn delete_leaf_on_two_leaf_node() {
    let mut tree = BTree::new();
    tree.insert(2);
    tree.insert(7);
    tree.insert(8);
    tree.insert(9);
    tree.insert(4);

    assert_eq!(tree.remove(&4), Some(4));
    assert_eq!(tree.remove(&9), Some(9));
    assert_eq!(tree.remove(&5), None);
}

#[test]
fn delete_key_on_internal_node_case_a() {
    let mut tree = BTree::new();
    tree.insert(2);
    tree.insert(7);
    tree.insert(8);
    tree.insert(9);
    tree.insert(4);
    tree.insert(6);
    tree.insert(1);

    assert_eq!(tree.remove(&4), Some(4));
}

#[test]
fn delete_key_on_internal_node_case_b() {
    let mut tree = BTree::new();
    tree.insert(2);
    tree.insert(7);
    tree.insert(8);
    tree.insert(9);
    tree.insert(4);
    tree.insert(6);
    tree.insert(1);
    tree.insert(5);

    assert_eq!(tree.remove(&2), Some(2));

    assert_eq!(tree.remove(&4), Some(4));
}

#[test]
fn delete_key_on_internal_node_case_c() {
    let mut tree = BTree::new();
    tree.insert(2);
    tree.insert(7);
    tree.insert(8);
    tree.insert(9);
    tree.insert(4);
    tree.insert(6);
    tree.insert(1);
    tree.insert(5);

    assert_eq!(tree.remove(&2), Some(2));
    assert_eq!(tree.remove(&5), Some(5));

    assert_eq!(tree.remove(&4), Some(4));
}

#[test]
fn btree_keeps_every_other_key_through_removals() {
    let keys: Vec<u32> = (0..150).map(|i| (i * 37) % 151).collect();
    let mut tree = BTree::new();
    for k in &keys {
        tree.insert(*k);
    }
    tree.insert(keys[3]);
    for k in &keys {
        assert_eq!(tree.get(k), Some(k));
    }
    assert_eq!(tree.get(&1000), None);
    for (n, k) in keys.iter().enumerate() {
        assert_eq!(tree.remove(k), Some(*k));
        assert_eq!(tree.get(k), None);
        assert_eq!(tree.remove(k), None);
        for later in &keys[n + 1..] {
            assert_eq!(tree.get(later), Some(later));
        }
    }
}

#[test]
fn btree_empty_tree_finds_nothing() {
    let mut tree = BTree::new();
    assert_eq!(tree.get(&0), None);
    assert_eq!(tree.remove(&0), None);
    tree.insert(u32::MAX);
    assert_eq!(tree.get(&u32::MAX), Some(&u32::MAX));
}

#[test]
fn btree_full_root_splits_around_its_middle_key() {
    let mut tree = BTree::new();
    tree.insert(2);
    tree.insert(7);
    tree.insert(8);
    assert_eq!(tree.level(0), vec![vec![2, 7, 8]]);
    tree.insert(9);
    assert_eq!(tree.level(0), vec![vec![7]]);
    assert_eq!(tree.level(1), vec![vec![2], vec![8, 9]]);
    assert_eq!(tree.level(2), Vec::<Vec<u32>>::new());
}

#[test]
fn btree_internal_key_is_replaced_by_its_predecessor() {
    let mut tree = BTree::new();
    for k in [2, 7, 8, 9, 4, 6, 1] {
        tree.insert(k);
    }
    assert_eq!(tree.level(0), vec![vec![4, 7]]);
    assert_eq!(tree.remove(&4), Some(4));
    assert_eq!(tree.level(0), vec![vec![2, 7]]);
    assert_eq!(tree.level(1), vec![vec![1], vec![6], vec![8, 9]]);
}
