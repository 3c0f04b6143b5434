use algokit::collections::treap::Treap;

#[test]
fn test_insert_and_contains() {
    let mut treap: Treap = Treap::new();
    treap.insert(10);
    assert!(treap.contains(&10));
    assert!(!treap.contains(&5));

    treap.insert(5);
    assert!(treap.contains(&5));
    assert_eq!(treap.len(), 2);
}

#[test]
fn test_erase() {
    let mut treap: Treap = Treap::new();
    treap.insert(10);
    treap.insert(5);
    treap.erase(&5);

    assert!(!treap.contains(&5));
    assert_eq!(treap.len(), 1);
}

#[test]
fn test_split() {
    let mut treap: Treap = Treap::new();
    treap.insert(10);
    treap.insert(5);
    treap.insert(15);

    let (left, right) = treap.split(10);

    assert!(left.contains(&10));
    assert!(left.contains(&5));
    assert!(!right.contains(&10));
    assert!(right.contains(&15));
}

#[test]
fn test_merge() {
    let mut left: Treap = Treap::new();
    let mut right: Treap = Treap::new();

    left.insert(5);
    right.insert(15);

    let merged = left.merge(right);

    assert!(merged.contains(&5));
    assert!(merged.contains(&15));
    assert_eq!(merged.len(), 2);
}

#[test]
fn three_keys_membership_and_len() {
    let mut t: Treap = Treap::new();
    t.insert(10);
    t.insert(5);
    t.insert(15);
    assert!(t.contains(&10));
    assert!(t.contains(&5));
    assert!(t.contains(&15));
    assert!(!t.contains(&7));
    assert_eq!(t.len(), 3);
}

#[test]
fn split_at_ten_partitions() {
    let mut t: Treap = Treap::new();
    t.insert(10);
    t.insert(5);
    t.insert(15);
    let (left, right) = t.split(10);
    assert!(left.contains(&5));
    assert!(left.contains(&10));
    assert_eq!(left.len(), 2);
    assert!(right.contains(&15));
    assert!(!right.contains(&10));
    assert_eq!(right.len(), 1);
}

#[test]
fn erase_one_of_two() {
    let mut t: Treap = Treap::new();
    t.insert(10);
    t.insert(5);
    t.erase(&5);
    assert!(!t.contains(&5));
    assert_eq!(t.len(), 1);
}

#[test]
fn merge_two_singletons() {
    let mut a: Treap = Treap::new();
    let mut b: Treap = Treap::new();
    a.insert(5);
    b.insert(15);
    let merged = a.merge(b);
    assert!(merged.contains(&5));
    assert!(merged.contains(&15));
    assert_eq!(merged.len(), 2);
}

#[test]
fn six_keys_then_erase_all() {
    let mut t: Treap = Treap::new();
    for k in [2, 1, 3, 4, 5, 6] {
        t.insert(k);
    }
    for k in 1..=6 {
        assert!(t.contains(&k));
    }
    assert!(!t.contains(&7));
    assert_eq!(t.len(), 6);
    for k in [4, 1, 6, 2, 5, 3] {
        t.erase(&k);
    }
    assert_eq!(t.len(), 0);
}

#[test]
fn duplicates_count_separately() {
    let mut t: Treap = Treap::new();
    t.insert(5);
    t.insert(5);
    t.insert(3);
    assert_eq!(t.len(), 3);
    t.erase(&5);
    assert!(t.contains(&5));
    assert_eq!(t.len(), 2);
    t.erase(&5);
    assert!(!t.contains(&5));
    assert_eq!(t.len(), 1);
}

#[test]
fn erase_absent_key_changes_nothing() {
    let mut t: Treap = Treap::new();
    t.insert(1);
    t.insert(9);
    t.erase(&4);
    assert_eq!(t.len(), 2);
    assert!(t.contains(&1));
    assert!(t.contains(&9));
}

#[test]
fn merge_restores_split_halves() {
    let mut t: Treap = Treap::with_seed(42);
    for k in [8, 3, 11, 6, 1, 14] {
        t.insert(k);
    }
    let (left, right) = t.split(7);
    assert_eq!(left.len(), 3);
    assert_eq!(right.len(), 3);
    let back = left.merge(right);
    assert_eq!(back.len(), 6);
    for k in [8, 3, 11, 6, 1, 14] {
        assert!(back.contains(&k));
    }
}

#[test]
fn seeded_treaps_behave_alike() {
    let mut a: Treap = Treap::with_seed(7);
    let mut b: Treap = Treap::with_seed(7);
    for k in [4, 2, 9, 2] {
        a.insert(k);
        b.insert(k);
    }
    assert_eq!(a.len(), b.len());
    for k in [1, 2, 3, 4, 9] {
        assert_eq!(a.contains(&k), b.contains(&k));
    }
}

#[test]
fn split_of_empty_treap() {
    let t: Treap = Treap::new();
    let (left, right) = t.split(0);
    assert_eq!(left.len(), 0);
    assert_eq!(right.len(), 0);
}

#[test]
fn erase_on_empty_treap() {
    let mut t: Treap = Treap::new();
    t.erase(&3);
    assert_eq!(t.len(), 0);
    assert!(!t.contains(&3));
}
