use algokit::collections::disjoint_set::DisjointSet;

#[test]
fn singletons_at_start() {
    let mut ds = DisjointSet::new(4);
    assert_eq!(ds.len(), 4);
    for i in 0..4 {
        assert_eq!(ds.find(i), i);
        assert_eq!(ds.size(i), 1);
    }
}

#[test]
fn join_merges_classes_once() {
    let mut ds = DisjointSet::new(5);
    assert!(ds.join(0, 1));
    assert!(!ds.join(0, 1));
    assert_eq!(ds.find(0), ds.find(1));
    assert_eq!(ds.size(0), 2);
    assert_eq!(ds.size(1), 2);
    assert_eq!(ds.size(2), 1);
    assert_eq!(ds.len(), 5);
}

#[test]
fn chained_joins_grow_one_class() {
    let mut ds = DisjointSet::new(6);
    assert!(ds.join(0, 1));
    assert!(ds.join(2, 3));
    assert!(ds.join(0, 2));
    assert_eq!(ds.size(3), 4);
    assert_eq!(ds.find(0), ds.find(3));
    assert_ne!(ds.find(0), ds.find(4));
    assert_eq!(ds.size(4), 1);
}

#[test]
fn larger_class_keeps_its_root() {
    let mut ds = DisjointSet::new(5);
    ds.join(0, 1);
    ds.join(0, 2);
    let big_root = ds.find(0);
    ds.join(3, 0);
    assert_eq!(ds.find(3), big_root);
}
