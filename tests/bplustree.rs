use bplus::bplustree::BPlusTree;

#[test]
fn get_on_empty_tree() {
    let tree = BPlusTree::new(vec![], 4);
    assert_eq!(tree.get(&2), None);
}

#[test]
fn insert_on_root_node() {
    let mut tree = BPlusTree::new(vec![], 4);

    tree.insert(1);
    tree.insert(2);
    tree.insert(3);

    assert_eq!(tree.get(&1), Some(&1));
    assert_eq!(tree.get(&2), Some(&2));
    assert_eq!(tree.get(&3), Some(&3));
}

#[test]
fn insert_and_split_on_root_node() {
    let mut tree = BPlusTree::new(vec![7, 10, 15], 4);
    tree.insert(8);

    assert_eq!(tree.get(&8), Some(&8));
    assert_eq!(tree.get(&18), None);
}

#[test]
fn insert_on_leaf_node() {
    let mut tree = BPlusTree::new(vec![7, 10, 15, 8], 4);
    tree.insert(11);
    assert_eq!(tree.get(&11), Some(&11));
}

#[test]
fn insert_and_split_on_leaf_node() {
    let mut tree = BPlusTree::new(vec![7, 10, 15, 8, 11], 4);

    tree.insert(12);
    assert_eq!(tree.get(&12), Some(&12));
    assert_eq!(tree.get(&7), Some(&7));
    assert_eq!(tree.get(&8), Some(&8));
}

#[test]
fn insert_and_split_recursively_on_level_3_leaf_node() {
    let vec = vec![7, 10, 15, 8, 11, 12, 19, 25, 30];
    let mut tree = BPlusTree::new(vec.clone(), 4);

    tree.insert(49);
    assert_eq!(tree.get(&49), Some(&49));

    for v in vec {
        assert_eq!(tree.get(&v), Some(&v));
    }
}

#[test]
fn insert_and_split_is_reasign_to_the_right_spot() {
    let vec = vec![7, 10, 15, 8, 11, 12, 19, 25, 30, 49, 69, 90, 59];
    let mut tree = BPlusTree::new(vec.clone(), 4);

    tree.insert(41);
    assert_eq!(tree.get(&41), Some(&41));

    for v in vec {
        assert_eq!(tree.get(&v), Some(&v));
    }
}

#[test]
fn insert_and_split_on_existing_internal_node() {
    let vec = vec![7, 10, 15, 8, 11, 12, 19, 25, 30, 49, 69, 90, 59, 41, 45];
    let mut tree = BPlusTree::new(vec.clone(), 4);

    tree.insert(42);
    assert_eq!(tree.get(&42), Some(&42));
    for v in vec {
        assert_eq!(tree.get(&v), Some(&v));
    }
}

#[test]
fn insert_and_split_on_level_4_leaf_node() {
    let vec = vec![
        7, 10, 15, 8, 11, 12, 19, 25, 30, 49, 69, 90, 59, 41, 45, 42, 1, 4, 50, 52, 5, 6, 9, 23,
        29, 26, 34,
    ];
    let mut tree = BPlusTree::new(vec.clone(), 4);

    tree.insert(35);
    assert_eq!(tree.get(&35), Some(&35));

    for v in vec {
        assert_eq!(tree.get(&v), Some(&v));
    }
}

#[test]
fn insert_and_split_on_level_5_leaf_node() {
    let vec: Vec<u32> = (1..82).collect();
    let mut tree = BPlusTree::new(vec.clone(), 4);

    tree.insert(82);
    assert_eq!(tree.get(&82), Some(&82));

    for v in vec {
        assert_eq!(tree.get(&v), Some(&v));
    }
}

#[test]
fn bplustree_delete_key_on_root_node() {
    let mut tree = BPlusTree::new(vec![2, 7, 8], 4);

    assert_eq!(tree.remove(&7), Some(7));
    assert_eq!(tree.remove(&8), Some(8));
    assert_eq!(tree.remove(&1), None);
    assert_eq!(tree.remove(&8), None);
}

#[test]
fn delete_key_case1a() {
    let mut vec = vec![2, 7, 8, 9, 4, 6, 1, 5, 3];
    let mut tree = BPlusTree::new(vec.clone(), 4);

    assert_eq!(tree.remove(&7), Some(7));
    assert_eq!(tree.get(&7), None);

    vec.remove(1);
    for v in vec {
        assert_eq!(tree.get(&v), Some(&v));
    }
}

#[test]
fn delete_key_case1b() {
    let mut vec = vec![15, 25, 35, 5, 45, 20, 30, 55, 40];
    let mut tree = BPlusTree::new(vec.clone(), 3);

    assert_eq!(tree.remove(&5), Some(5));

    vec.retain(|&x| x != 5);
    for v in vec {
        assert_eq!(tree.get(&v), Some(&v));
    }
}

#[test]
fn delete_key_case2a() {
    let mut vec = vec![15, 25, 35, 5, 45, 20, 30, 55, 40];
    let mut tree = BPlusTree::new(vec.clone(), 3);
    tree.remove(&40);
    tree.remove(&5);

    assert_eq!(tree.remove(&45), Some(45));
    assert_eq!(tree.get(&45), None);

    vec.retain(|&x| x != 40 && x != 5 && x != 45);
    for v in vec {
        assert_eq!(tree.get(&v), Some(&v));
    }
}

#[test]
fn delete_key_case2b() {
    let mut vec = vec![2, 7, 8, 9, 4, 6, 1, 5, 3];
    let mut tree = BPlusTree::new(vec.clone(), 4);
    tree.remove(&7);

    assert_eq!(tree.remove(&6), Some(6));
    assert_eq!(tree.get(&6), None);

    vec.retain(|&x| x != 7 && x != 6);
    for v in vec {
        assert_eq!(tree.get(&v), Some(&v));
    }
}

#[test]
fn delete_key_case2c() {
    let mut vec = vec![
        7, 8, 9, 4, 6, 1, 5, 3, 10, 11, 14, 16, 17, 18, 19, 20, 21, 22, 23, 24, 25, 30,
    ];
    let mut tree = BPlusTree::new(vec.clone(), 4);
    tree.remove(&24);

    assert_eq!(tree.remove(&23), Some(23));
    assert_eq!(tree.get(&23), None);

    vec.retain(|&x| x != 24 && x != 23);
    for v in vec {
        assert_eq!(tree.get(&v), Some(&v));
    }
}

#[test]
fn delete_key_case3() {
    let vec = vec![15, 25, 35, 5, 45, 20, 30, 55, 40];
    let mut tree = BPlusTree::new(vec.clone(), 3);
    tree.remove(&40);
    tree.remove(&5);
    tree.remove(&45);
    tree.remove(&35);
    tree.remove(&25);

    assert_eq!(tree.remove(&55), Some(55));
    assert_eq!(tree.get(&55), None);

    let vec = vec![15, 20, 30];
    for v in vec {
        assert_eq!(tree.get(&v), Some(&v));
    }
}

#[test]
fn delete_key_at_leaf_node_that_require_merge_and_delete_from_internal() {
    let mut vec: Vec<u32> = (1..20).collect();
    let mut tree = BPlusTree::new(vec.clone(), 4);
    tree.remove(&1);
    tree.remove(&2);

    tree.remove(&3);

    vec.retain(|&x| x != 1 && x != 2 && x != 3);
    for v in &vec {
        assert_eq!(tree.get(v), Some(v));
    }
}

#[test]
fn delete_key_at_leaf_node_that_require_to_get_key_from_parent_and_steal_sibling_child() {
    let mut vec: Vec<u32> = (1..20).collect();
    let mut tree = BPlusTree::new(vec.clone(), 4);
    tree.remove(&1);
    tree.remove(&2);
    tree.remove(&3);
    tree.remove(&4);

    tree.remove(&5);

    vec.retain(|x| ![1, 2, 3, 4, 5].contains(x));
    for v in &vec {
        assert_eq!(tree.get(v), Some(v));
    }
}
