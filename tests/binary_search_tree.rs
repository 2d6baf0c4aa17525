use bplus::binary_search_tree::BSTree;

#[test]
fn binary_search_tree_basics() {
    let mut tree = BSTree::new();

    assert_eq!(tree.insert(2), 2);
    assert_eq!(tree.insert(3), 3);
    assert_eq!(tree.insert(5), 5);
    assert_eq!(tree.insert(4), 4);
    assert_eq!(tree.insert(1), 1);

    assert_eq!(tree.get(&2), Some(&2));
    assert_eq!(tree.get(&3), Some(&3));
    assert_eq!(tree.get(&6), None);

    assert_eq!(tree.remove(2), true);
    assert_eq!(tree.get(&2), None);
}

#[test]
fn duplicates_are_removed_one_at_a_time() {
    let mut tree = BSTree::new();
    tree.insert(4);
    tree.insert(4);
    tree.insert(2);
    tree.insert(6);
    assert_eq!(tree.remove(4), true);
    assert_eq!(tree.get(&4), Some(&4));
    assert_eq!(tree.remove(4), true);
    assert_eq!(tree.get(&4), None);
    assert_eq!(tree.remove(4), false);
    assert_eq!(tree.get(&2), Some(&2));
    assert_eq!(tree.get(&6), Some(&6));
}

#[test]
fn removing_inner_nodes_keeps_the_rest() {
    let values = [50, 30, 70, 20, 40, 60, 80, 35, 45, 65, -5, i32::MIN, i32::MAX];
    let mut tree = BSTree::new();
    for v in values {
        tree.insert(v);
    }
    for (n, v) in values.iter().enumerate() {
        assert_eq!(tree.remove(*v), true);
        assert_eq!(tree.get(v), None);
        for later in &values[n + 1..] {
            assert_eq!(tree.get(later), Some(later));
        }
    }
    assert_eq!(tree.remove(50), false);
}

#[test]
fn empty_tree_finds_nothing() {
    let mut tree = BSTree::new();
    assert_eq!(tree.get(&0), None);
    assert_eq!(tree.remove(0), false);
}

#[test]
fn levels_list_values_breadth_first() {
    let mut tree = BSTree::new();
    for v in [2, 3, 5, 4, 1] {
        tree.insert(v);
    }
    assert_eq!(tree.level(0), vec![2]);
    assert_eq!(tree.level(1), vec![1, 3]);
    assert_eq!(tree.level(2), vec![5]);
    assert_eq!(tree.level(3), vec![4]);
    assert_eq!(tree.level(4), Vec::<i32>::new());
    assert_eq!(tree.remove(2), true);
    assert_eq!(tree.level(0), vec![1]);
    assert_eq!(tree.level(1), vec![3]);
}
