use algoprims::sorted_set::SortedSet;

#[test]
fn insert_reports_newness() {
    let mut s = SortedSet::new();
    assert!(s.insert(5));
    assert!(s.insert(3));
    assert!(!s.insert(5));
    assert!(s.insert(7));
    assert_eq!(s.len(), 3);
}

#[test]
fn remove_reports_presence() {
    let mut s = SortedSet::new();
    s.insert(1);
    s.insert(2);
    assert!(s.remove(1));
    assert!(!s.remove(1));
    assert!(!s.remove(99));
    assert_eq!(s.to_list(), vec![2]);
}

#[test]
fn to_list_is_sorted_and_deduplicated() {
    let mut s = SortedSet::new();
    for v in [5, -1, 3, 5, 3, 0, -1, 8] {
        s.insert(v);
    }
    assert_eq!(s.to_list(), vec![-1, 0, 3, 5, 8]);
    s.remove(3);
    s.insert(2);
    assert_eq!(s.to_list(), vec![-1, 0, 2, 5, 8]);
}

#[test]
fn contains_tracks_membership() {
    let mut s = SortedSet::new();
    assert!(!s.contains(4));
    s.insert(4);
    assert!(s.contains(4));
    s.remove(4);
    assert!(!s.contains(4));
}

#[test]
fn range_is_inclusive() {
    let mut s = SortedSet::new();
    for v in [1, 3, 5, 7, 9] {
        s.insert(v);
    }
    assert_eq!(s.range(3, 7), vec![3, 5, 7]);
    assert_eq!(s.range(2, 8), vec![3, 5, 7]);
    assert_eq!(s.range(0, 100), vec![1, 3, 5, 7, 9]);
    assert_eq!(s.range(4, 4), Vec::<i64>::new());
    assert_eq!(s.range(5, 5), vec![5]);
}

#[test]
fn range_with_low_above_high_is_empty() {
    let mut s = SortedSet::new();
    for v in [1, 2, 3] {
        s.insert(v);
    }
    assert_eq!(s.range(10, 0), Vec::<i64>::new());
}

#[test]
fn repr_lists_small_sets() {
    let mut s = SortedSet::new();
    assert_eq!(s.repr(), "SortedSet([])");
    for v in [3, -5, 10] {
        s.insert(v);
    }
    assert_eq!(s.repr(), "SortedSet([-5, 3, 10])");
}

#[test]
fn repr_abbreviates_large_sets() {
    let mut s = SortedSet::new();
    for v in 0..12 {
        s.insert(v);
    }
    assert_eq!(s.repr(), "SortedSet([0, ... 12 items])");
}
