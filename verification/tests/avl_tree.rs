use avltree_map::AvlTree;

#[test]
fn lib_test_insert() {
    let mut tree = AvlTree::new();
    for num in 1..100u64 {
        assert_eq!(tree.insert(num, num), None);
    }
    // ensure self balancing is working.
    // ceil log2(100) == 7, so height must be <= 7
    assert!(tree.height() <= 7);

    // check reinserting returns right thing
    assert_eq!(tree.insert(5, 30), Some(5));
    assert_eq!(tree.insert(5, 35), Some(30));
    assert_eq!(tree.insert(99, 35), Some(99));
    assert_eq!(tree.insert(101, 35), None);
}

#[test]
fn test_remove() {
    let mut tree = AvlTree::new();
    for num in 1..1000u64 {
        assert_eq!(tree.insert(num, num), None);
    }
    assert!(tree.height() <= 10);

    for num in 100..900u64 {
        assert_eq!(tree.remove(&num), Some(num));
    }

    println!("{}", tree.height());
    assert!(tree.height() <= 8);

    assert_eq!(tree.remove(&50), Some(50));
    assert_eq!(tree.remove(&500), None);
    assert!(!tree.contains_key(&400));
}

#[test]
fn test_iter() {
    let mut tree = AvlTree::new();
    for num in 1..1000u64 {
        assert_eq!(tree.insert(num, num), None);
    }

    let mut c: u64 = 1;
    // ensures the keys come back in order
    let mut iter = tree.iter();
    while let Some((key, val)) = iter.next() {
        assert!(key == *val);
        assert!(key == c);
        c += 1;
    }
}

#[test]
fn avltree_test_insert() {
    let mut tree = AvlTree::new();
    for num in 1..100u64 {
        assert_eq!(tree.insert(num, num), None);
    }
    // ensure self balancing is working.
    // ceil log2(100) == 7, so height must be <= 7
    assert!(tree.height() <= 7);

    assert_eq!(tree.insert(5, 30), Some(5));
}
