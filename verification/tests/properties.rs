use avltree_map::AvlTree;

/// Drains an iterator of the tree into owned pairs.
fn pairs(tree: &AvlTree<u64>) -> Vec<(u64, u64)> {
    let mut out = Vec::new();
    let mut iter = tree.iter();
    while let Some((key, val)) = iter.next() {
        out.push((key, *val));
    }
    out
}

#[test]
fn empty_tree_behaviour() {
    let mut tree: AvlTree<u64> = AvlTree::new();
    assert_eq!(tree.get(&1), None);
    assert_eq!(tree.remove(&1), None);
    assert_eq!(tree.height(), 0);
    assert!(tree.is_empty());
    assert!(!tree.contains_key(&1));
    assert_eq!(pairs(&tree), Vec::new());
}

#[test]
fn single_key_round_trip() {
    let mut tree = AvlTree::new();
    assert_eq!(tree.insert(42, 7), None);
    assert_eq!(tree.height(), 1);
    assert!(!tree.is_empty());
    assert_eq!(tree.get(&42), Some(&7));
    assert_eq!(tree.remove(&42), Some(7));
    assert!(tree.is_empty());
    assert_eq!(tree.height(), 0);
}

#[test]
fn height_grows_as_documented() {
    let mut tree = AvlTree::new();
    assert_eq!(tree.height(), 0);
    tree.insert(1, "a");
    assert_eq!(tree.height(), 1);
    tree.insert(2, "b");
    assert_eq!(tree.height(), 2);
    tree.insert(3, "c");
    assert_eq!(tree.height(), 2);
    tree.insert(4, "d");
    assert_eq!(tree.height(), 3);
}

#[test]
fn insert_get_round_trip() {
    let mut tree = AvlTree::new();
    for num in 0..256u64 {
        // a key-dependent value, so a lookup that found the wrong node shows
        let v = num.wrapping_mul(2654435761).rotate_left(7);
        tree.insert(num * 3 % 257, v);
        assert_eq!(tree.get(&(num * 3 % 257)), Some(&v));
    }
}

#[test]
fn update_keeps_size_and_returns_prior() {
    let mut tree = AvlTree::new();
    for num in 1..50u64 {
        assert_eq!(tree.insert(num, num * 10), None);
    }
    assert_eq!(pairs(&tree).len(), 49);
    // updating an existing key returns the prior value and keeps the size
    assert_eq!(tree.insert(25, 999), Some(250));
    assert_eq!(pairs(&tree).len(), 49);
    assert_eq!(tree.get(&25), Some(&999));
    // a fresh key grows the size by one
    assert_eq!(tree.insert(50, 500), None);
    assert_eq!(pairs(&tree).len(), 50);
}

#[test]
fn remove_of_absent_key_changes_nothing() {
    let mut tree = AvlTree::new();
    for num in (1..100u64).rev() {
        tree.insert(num, num + 1);
    }
    let before_height = tree.height();
    let before_pairs = pairs(&tree);
    assert_eq!(tree.remove(&0), None);
    assert_eq!(tree.remove(&100), None);
    assert_eq!(tree.height(), before_height);
    assert_eq!(pairs(&tree), before_pairs);
}

#[test]
fn remove_drops_exactly_the_key() {
    let mut tree = AvlTree::new();
    for num in 1..100u64 {
        tree.insert(num, num);
    }
    assert_eq!(tree.remove(&37), Some(37));
    assert!(!tree.contains_key(&37));
    let remaining = pairs(&tree);
    assert_eq!(remaining.len(), 98);
    for (k, v) in remaining {
        assert_ne!(k, 37);
        assert_eq!(k, v);
    }
}

#[test]
fn iteration_is_sorted_and_complete() {
    let mut tree = AvlTree::new();
    // descending insertion order exercises the right-leaning rebalances
    for num in (1..1000u64).rev() {
        assert_eq!(tree.insert(num, num), None);
    }
    let entries = pairs(&tree);
    assert_eq!(entries.len(), 999);
    let mut expected: u64 = 1;
    for (k, v) in entries {
        assert_eq!(k, expected);
        assert_eq!(v, expected);
        expected += 1;
    }
    // a fresh iterator reproduces the same sequence
    assert_eq!(pairs(&tree), pairs(&tree));
}

#[test]
fn reads_do_not_mutate() {
    let mut tree = AvlTree::new();
    for num in 1..200u64 {
        tree.insert(num * 7 % 211, num);
    }
    let before_height = tree.height();
    let before_pairs = pairs(&tree);
    for num in 0..250u64 {
        tree.get(&num);
        tree.contains_key(&num);
        tree.height();
        tree.is_empty();
    }
    assert_eq!(tree.height(), before_height);
    assert_eq!(pairs(&tree), before_pairs);
}

#[test]
fn height_stays_within_avl_bound() {
    let mut tree = AvlTree::new();
    // ascending order is the worst case for a plain binary search tree
    for num in 1..128u64 {
        tree.insert(num, num);
    }
    // 127 entries: a perfectly balanced tree has height 7, and the AVL bound
    // 1.44 * log2(129) allows at most 10
    assert!(tree.height() >= 7);
    assert!(tree.height() <= 10);
    // removing a broad range must keep the tree shallow
    for num in 1..100u64 {
        tree.remove(&num);
    }
    // 28 entries left: the AVL bound 1.44 * log2(30) allows at most 7
    assert!(tree.height() <= 7);
}
