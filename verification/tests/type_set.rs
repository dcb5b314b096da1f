use ard_ecs::type_set::TypeSet;

fn keys_of(set: &TypeSet) -> Vec<u64> {
    let mut out = Vec::new();
    for i in 0..set.len() {
        out.push(set.key(i));
    }
    out
}

#[test]
fn from_keys_sorts_and_drops_repeats() {
    let set = TypeSet::from_keys(&vec![5, 1, 9, 1, 5, 3]);
    assert_eq!(keys_of(&set), vec![1, 3, 5, 9]);
    assert_eq!(set.len(), 4);
    assert_eq!(keys_of(&TypeSet::from_keys(&vec![])), Vec::<u64>::new());
}

#[test]
fn insert_reports_the_place() {
    let mut set = TypeSet::new();
    assert_eq!(set.insert(10), Some(0));
    assert_eq!(set.insert(30), Some(1));
    assert_eq!(set.insert(20), Some(1));
    assert_eq!(set.insert(0), Some(0));
    assert_eq!(set.insert(20), None);
    assert_eq!(set.insert(u64::MAX), Some(4));
    assert_eq!(keys_of(&set), vec![0, 10, 20, 30, u64::MAX]);
}

#[test]
fn remove_reports_the_place() {
    let mut set = TypeSet::from_keys(&vec![1, 2, 3]);
    assert_eq!(set.remove(2), Some(1));
    assert_eq!(set.remove(2), None);
    assert_eq!(set.remove(7), None);
    assert_eq!(keys_of(&set), vec![1, 3]);
    assert_eq!(set.remove(1), Some(0));
    assert_eq!(set.remove(3), Some(0));
    assert_eq!(set.len(), 0);
}

#[test]
fn position_and_contains() {
    let set = TypeSet::from_keys(&vec![4, 8, 6]);
    assert_eq!(set.position(4), Some(0));
    assert_eq!(set.position(6), Some(1));
    assert_eq!(set.position(8), Some(2));
    assert_eq!(set.position(5), None);
    assert!(set.contains(6));
    assert!(!set.contains(7));
}

#[test]
fn same_looks_at_members_only() {
    let a = TypeSet::from_keys(&vec![3, 1, 2]);
    let b = TypeSet::from_keys(&vec![1, 2, 3, 3]);
    let c = TypeSet::from_keys(&vec![1, 2]);
    let d = TypeSet::from_keys(&vec![1, 2, 4]);
    assert!(a.same(&b));
    assert!(!a.same(&c));
    assert!(!a.same(&d));
    assert!(TypeSet::new().same(&TypeSet::from_keys(&vec![])));
    assert!(a.duplicate().same(&a));
}

#[test]
fn subset_and_overlap() {
    let small = TypeSet::from_keys(&vec![2, 4]);
    let big = TypeSet::from_keys(&vec![1, 2, 3, 4]);
    let other = TypeSet::from_keys(&vec![5, 6]);
    let empty = TypeSet::new();
    assert!(small.is_subset_of(&big));
    assert!(!big.is_subset_of(&small));
    assert!(empty.is_subset_of(&small));
    assert!(small.is_subset_of(&small));
    assert!(small.intersects(&big));
    assert!(!small.intersects(&other));
    assert!(!empty.intersects(&big));
    assert!(!big.intersects(&empty));
}
