use ternary_btree::TernaryBTree;

fn keys_of(t: &TernaryBTree<i32, i32>) -> Vec<i32> {
    t.iter().iter().map(|(k, _)| **k).collect()
}

#[test]
fn search_after_insert_finds_new_value_and_keeps_others() {
    let mut t = TernaryBTree::new();
    for i in 0..7i32 {
        t.insert(i, i + 100);
    }
    t.insert(3, 7);
    assert_eq!(t.search(&3), Some(&7));
    for i in 0..7i32 {
        if i != 3 {
            assert_eq!(t.search(&i), Some(&(i + 100)));
        }
    }
    assert_eq!(t.search(&7), None);
}

#[test]
fn search_after_delete_finds_nothing_and_keeps_others() {
    let mut t = TernaryBTree::new();
    for i in 0..9i32 {
        t.insert(i, -i);
    }
    assert!(t.delete(&4));
    assert_eq!(t.search(&4), None);
    for i in 0..9i32 {
        if i != 4 {
            assert_eq!(t.search(&i), Some(&-i));
        }
    }
}

#[test]
fn len_counts_distinct_keys() {
    let mut t = TernaryBTree::new();
    t.insert(1, 1);
    assert_eq!(t.len(), 1);
    t.insert(1, 2);
    assert_eq!(t.len(), 1);
    t.insert(2, 2);
    assert_eq!(t.len(), 2);
    assert!(!t.delete(&5));
    assert_eq!(t.len(), 2);
    assert!(t.delete(&1));
    assert_eq!(t.len(), 1);
}

#[test]
fn delete_undoes_insert_of_new_key() {
    let mut t = TernaryBTree::new();
    for i in [4, 8, 15, 16, 23, 42] {
        t.insert(i, i * 2);
    }
    let before = keys_of(&t);
    t.insert(20, 0);
    assert!(t.delete(&20));
    assert_eq!(keys_of(&t), before);
    assert_eq!(t.len(), 6);
    for i in [4, 8, 15, 16, 23, 42] {
        assert_eq!(t.search(&i), Some(&(i * 2)));
    }
}

#[test]
fn second_insert_under_a_key_wins() {
    let mut t = TernaryBTree::new();
    t.insert(9, "first");
    t.insert(9, "second");
    assert_eq!(t.search(&9), Some(&"second"));
    assert_eq!(t.iter().len(), 1);
}

#[test]
fn deleting_a_separator_key_twice_removes_only_that_key() {
    let mut t = TernaryBTree::new();
    t.insert(1, 10);
    t.insert(2, 20);
    t.insert(3, 30);
    assert!(t.delete(&2));
    assert!(!t.delete(&2));
    assert_eq!(t.search(&3), Some(&30));
    assert_eq!(t.search(&1), Some(&10));
    assert_eq!(t.len(), 2);
    assert_eq!(keys_of(&t), vec![1, 3]);
}

#[test]
fn deleting_every_key_in_turn_empties_the_tree() {
    let mut t = TernaryBTree::new();
    t.insert(1, 1);
    t.insert(2, 2);
    t.insert(3, 3);
    assert!(t.delete(&3));
    assert!(t.delete(&2));
    assert!(t.delete(&1));
    assert!(t.is_empty());
    assert_eq!(t.len(), 0);
    assert!(t.iter().is_empty());
    t.insert(5, 50);
    assert_eq!(t.search(&5), Some(&50));
}

#[test]
fn many_deletes_keep_the_rest() {
    let mut t = TernaryBTree::new();
    for i in 0..100i32 {
        t.insert(i, i * 7);
    }
    for i in (0..100i32).filter(|i| i % 2 == 0) {
        assert!(t.delete(&i));
    }
    assert_eq!(t.len(), 50);
    for i in 0..100i32 {
        if i % 2 == 0 {
            assert_eq!(t.search(&i), None);
        } else {
            assert_eq!(t.search(&i), Some(&(i * 7)));
        }
    }
    let expected: Vec<i32> = (0..100).filter(|i| i % 2 == 1).collect();
    assert_eq!(keys_of(&t), expected);
}

#[test]
fn deleting_in_reverse_and_mixed_order() {
    let mut t = TernaryBTree::new();
    for i in 0..60i32 {
        t.insert((i * 37) % 60, i);
    }
    assert_eq!(t.len(), 60);
    for i in (0..60i32).rev() {
        assert!(t.delete(&((i * 11) % 60)));
        assert_eq!(t.len(), i as usize);
        assert_eq!(t.search(&((i * 11) % 60)), None);
    }
    assert!(t.is_empty());
}

#[test]
fn iter_lists_entries_in_ascending_key_order() {
    let mut t = TernaryBTree::new();
    for k in [50, -3, 17, 0, 99, 4, 23, -40] {
        t.insert(k, k * 10);
    }
    let pairs: Vec<(i32, i32)> = t.iter().iter().map(|(k, v)| (**k, **v)).collect();
    assert_eq!(
        pairs,
        vec![(-40, -400), (-3, -30), (0, 0), (4, 40), (17, 170), (23, 230), (50, 500), (99, 990)]
    );
}

#[test]
fn range_bounds_are_inclusive_and_ordered() {
    let mut t = TernaryBTree::new();
    for k in (0..30i32).rev() {
        t.insert(k * 2, k);
    }
    let r: Vec<(i32, i32)> = t.range(&10, &20).iter().map(|(k, v)| (**k, **v)).collect();
    assert_eq!(r, vec![(10, 5), (12, 6), (14, 7), (16, 8), (18, 9), (20, 10)]);
    let odd: Vec<i32> = t.range(&11, &19).iter().map(|(k, _)| **k).collect();
    assert_eq!(odd, vec![12, 14, 16, 18]);
}

#[test]
fn range_with_low_above_high_is_empty() {
    let mut t = TernaryBTree::new();
    for k in 0..10i32 {
        t.insert(k, k);
    }
    assert!(t.range(&7, &3).is_empty());
}

#[test]
fn range_over_everything_equals_iter() {
    let mut t = TernaryBTree::new();
    for k in [8, 3, 5, 1, 9, 2, 7] {
        t.insert(k, k);
    }
    let all: Vec<i32> = t.range(&i32::MIN, &i32::MAX).iter().map(|(k, _)| **k).collect();
    assert_eq!(all, keys_of(&t));
}

#[test]
fn range_and_iter_of_empty_tree() {
    let t: TernaryBTree<i32, i32> = TernaryBTree::new();
    assert!(t.range(&0, &100).is_empty());
    assert!(t.iter().is_empty());
}

#[test]
fn default_is_empty() {
    let t: TernaryBTree<u64, String> = TernaryBTree::default();
    assert!(t.is_empty());
    assert_eq!(t.search(&0), None);
}

#[test]
fn delete_on_empty_tree_is_false() {
    let mut t: TernaryBTree<i32, i32> = TernaryBTree::new();
    assert!(!t.delete(&1));
    assert!(t.is_empty());
}

#[test]
fn owned_values_and_wide_keys() {
    let mut t = TernaryBTree::new();
    for k in [u64::MAX, 0, 1 << 40, 7] {
        t.insert(k, format!("v{}", k));
    }
    assert_eq!(t.search(&(1 << 40)), Some(&format!("v{}", 1u64 << 40)));
    assert_eq!(t.search(&u64::MAX), Some(&format!("v{}", u64::MAX)));
    let keys: Vec<u64> = t.iter().iter().map(|(k, _)| **k).collect();
    assert_eq!(keys, vec![0, 7, 1 << 40, u64::MAX]);
}

#[test]
fn deleting_separators_keeps_the_rest_in_order() {
    let mut t = TernaryBTree::new();
    for i in 1..=12i32 {
        t.insert(i, i * 100);
    }
    for k in [2, 3, 5, 8, 9, 12, 1] {
        assert!(t.delete(&k));
        assert!(!t.delete(&k));
    }
    assert_eq!(keys_of(&t), vec![4, 6, 7, 10, 11]);
    for k in [4, 6, 7, 10, 11] {
        assert_eq!(t.search(&k), Some(&(k * 100)));
    }
    assert_eq!(t.len(), 5);
}
