use ternary_btree::TernaryBTree;

#[test]
fn test_empty_tree() {
    let t: TernaryBTree<i32, &str> = TernaryBTree::new();
    assert!(t.is_empty());
    assert_eq!(t.len(), 0);
    assert!(t.search(&1).is_none());
}

#[test]
fn test_single_insert_search() {
    let mut t = TernaryBTree::new();
    t.insert(5, "five");
    assert_eq!(t.search(&5), Some(&"five"));
    assert_eq!(t.len(), 1);
}

#[test]
fn test_multiple_inserts_sequential() {
    let mut t = TernaryBTree::new();
    for i in 0..10i32 {
        t.insert(i, i * 10);
    }
    assert_eq!(t.len(), 10);
    for i in 0..10i32 {
        assert_eq!(t.search(&i), Some(&(i * 10)));
    }
}

#[test]
fn test_multiple_inserts_reverse() {
    let mut t = TernaryBTree::new();
    for i in (0..10i32).rev() {
        t.insert(i, i * 2);
    }
    assert_eq!(t.len(), 10);
    for i in 0..10i32 {
        assert_eq!(t.search(&i), Some(&(i * 2)));
    }
}

#[test]
fn test_update_existing_key() {
    let mut t = TernaryBTree::new();
    t.insert(1, "a");
    t.insert(1, "b");
    assert_eq!(t.search(&1), Some(&"b"));
    assert_eq!(t.len(), 1);
}

#[test]
fn test_delete_existing() {
    let mut t = TernaryBTree::new();
    t.insert(3, 30);
    t.insert(1, 10);
    t.insert(5, 50);
    assert!(t.delete(&3));
    assert!(t.search(&3).is_none());
    assert_eq!(t.len(), 2);
}

#[test]
fn test_delete_nonexistent() {
    let mut t: TernaryBTree<i32, i32> = TernaryBTree::new();
    t.insert(1, 1);
    assert!(!t.delete(&99));
    assert_eq!(t.len(), 1);
}

#[test]
fn test_delete_all() {
    let mut t = TernaryBTree::new();
    t.insert(1, 1);
    t.insert(2, 2);
    assert!(t.delete(&1));
    assert!(t.delete(&2));
    assert!(t.is_empty());
}

#[test]
fn test_range_query() {
    let mut t = TernaryBTree::new();
    for i in 0..20i32 {
        t.insert(i, i);
    }
    let r = t.range(&5, &10);
    let keys: Vec<i32> = r.iter().map(|(k, _)| **k).collect();
    assert_eq!(keys, vec![5, 6, 7, 8, 9, 10]);
}

#[test]
fn test_range_empty() {
    let mut t = TernaryBTree::new();
    t.insert(1, 1);
    t.insert(10, 10);
    assert!(t.range(&3, &7).is_empty());
}

#[test]
fn test_iter_sorted() {
    let mut t = TernaryBTree::new();
    for &k in &[5, 2, 8, 1, 9, 3] {
        t.insert(k, k);
    }
    let keys: Vec<i32> = t.iter().iter().map(|(k, _)| **k).collect();
    assert_eq!(keys, vec![1, 2, 3, 5, 8, 9]);
}

#[test]
fn test_root_split() {
    let mut t = TernaryBTree::new();
    t.insert(10, "ten");
    t.insert(20, "twenty");
    t.insert(30, "thirty");
    assert_eq!(t.search(&10), Some(&"ten"));
    assert_eq!(t.search(&20), Some(&"twenty"));
    assert_eq!(t.search(&30), Some(&"thirty"));
    assert_eq!(t.len(), 3);
}

#[test]
fn test_negative_and_zero_keys() {
    let mut t = TernaryBTree::new();
    t.insert(-1i32, "neg");
    t.insert(0, "zero");
    t.insert(1, "pos");
    assert_eq!(t.search(&-1), Some(&"neg"));
    assert_eq!(t.search(&0), Some(&"zero"));
    assert_eq!(t.search(&1), Some(&"pos"));
    assert_eq!(t.range(&-1, &0).len(), 2);
}

#[test]
fn test_large_tree() {
    let mut t = TernaryBTree::new();
    for i in 0..200i32 {
        t.insert(i, i * 3);
    }
    assert_eq!(t.len(), 200);
    for i in 0..200i32 {
        assert_eq!(t.search(&i), Some(&(i * 3)));
    }
}

#[test]
fn test_delete_and_reinsert() {
    let mut t = TernaryBTree::new();
    for i in 0..5i32 {
        t.insert(i, i);
    }
    assert!(t.delete(&2));
    t.insert(2, 99);
    assert_eq!(t.search(&2), Some(&99));
    assert_eq!(t.len(), 5);
}
