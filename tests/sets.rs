use sudoku::nine_set::{union, NineSet};

fn set_of(values: &[u8]) -> NineSet {
    let mut set = NineSet::empty();
    for v in values {
        set.add(*v);
    }
    set
}

#[test]
fn empty_set_has_no_members() {
    let set = NineSet::empty();
    assert_eq!(set.size(), 0);
    for n in 0..=10u8 {
        assert!(!set.contains(n));
    }
    assert!(set.to_vec().is_empty());
}

#[test]
fn add_then_contains() {
    let mut set = NineSet::empty();
    set.add(5);
    assert!(set.contains(5));
    assert!(!set.contains(6));
}

#[test]
fn contains_is_false_outside_range() {
    let set = set_of(&[1, 2, 3, 4, 5, 6, 7, 8, 9]);
    assert!(!set.contains(0));
    assert!(!set.contains(10));
    assert!(!set.contains(255));
}

#[test]
fn size_counts_distinct_members() {
    let mut set = NineSet::empty();
    set.add(5);
    set.add(7);
    assert_eq!(2, set.size());
    set.add(5);
    assert_eq!(2, set.size());
}

#[test]
fn to_vec_is_ascending() {
    let set = set_of(&[9, 1]);
    assert_eq!(vec![1, 9], set.to_vec());
    let all = set_of(&[4, 2, 9, 1, 3, 8, 5, 7, 6]);
    assert_eq!(vec![1, 2, 3, 4, 5, 6, 7, 8, 9], all.to_vec());
}

#[test]
fn complement_of_one_and_nine() {
    let set = set_of(&[1, 9]);
    assert_eq!(vec![2, 3, 4, 5, 6, 7, 8], set.complement().to_vec());
}

#[test]
fn complement_of_empty_and_full() {
    assert_eq!(9, NineSet::empty().complement().size());
    assert_eq!(0, NineSet::empty().complement().complement().size());
}

#[test]
fn complement_twice_is_identity() {
    let set = set_of(&[2, 3, 7]);
    assert!(set.complement().complement() == set);
    assert!(set.complement() != set);
}

#[test]
fn from_vec_collects_values() {
    let set = NineSet::from_vec(&vec![3, 3, 8, 1]);
    assert_eq!(vec![1, 3, 8], set.to_vec());
    assert_eq!(3, set.size());
}

#[test]
fn union_of_two_sets() {
    let set1 = set_of(&[1, 2]);
    let set2 = set_of(&[2, 3]);
    assert_eq!(vec![1, 2, 3], union(vec![set1, set2]).to_vec());
}

#[test]
fn union_of_no_sets_is_empty() {
    assert!(union(vec![]) == NineSet::empty());
}

#[test]
fn union_of_one_set_is_that_set() {
    let set = set_of(&[4, 6, 9]);
    assert!(union(vec![set]) == set);
}

#[test]
fn union_is_commutative_and_idempotent() {
    let a = set_of(&[1, 5]);
    let b = set_of(&[5, 8, 9]);
    assert!(union(vec![a, b]) == union(vec![b, a]));
    assert!(union(vec![a, a]) == a);
    assert!(union(vec![a, b, a, b]) == union(vec![a, b]));
}

#[test]
fn equality_goes_by_members() {
    let mut a = set_of(&[2, 4]);
    let b = set_of(&[4, 2]);
    assert!(a == b);
    a.add(6);
    assert!(a != b);
}
