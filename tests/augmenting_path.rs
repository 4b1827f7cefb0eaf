use admissibility::augmenting_path::AugmentingPath;
use std::collections::HashSet;

#[test]
fn should_do_augmenting_path_needs_starts_and_targets() {
    let mut aug_path = AugmentingPath::new(1);
    assert!(!aug_path.should_do_augmenting_path());
    aug_path.s.insert(2);
    assert!(!aug_path.should_do_augmenting_path());
    aug_path.t.insert(3);
    assert!(aug_path.should_do_augmenting_path());
}

#[test]
fn find_augmenting_path_returns_the_change_along_the_path() {
    let mut aug_path = AugmentingPath::new(1);
    aug_path.s.insert(2);
    aug_path.t.insert(5);
    aug_path.out.insert(2, 10);
    aug_path.out.insert(5, 11);
    aug_path.add_edge(2, 3);
    aug_path.add_edge(3, 4);
    aug_path.add_edge(4, 5);

    let edges = aug_path.find_augmenting_path().unwrap();

    assert_eq!(edges.e_remove.len(), 2);
    assert_eq!(edges.e_remove.get(&3), Some(&2));
    assert_eq!(edges.e_remove.get(&5), Some(&4));
    assert_eq!(edges.e_add.len(), 3);
    assert_eq!(edges.e_add.get(&10), Some(&2));
    assert_eq!(edges.e_add.get(&3), Some(&4));
    assert_eq!(edges.e_add.get(&5), Some(&11));
}

#[test]
fn find_augmenting_path_returns_none_when_no_target_is_reachable() {
    let mut aug_path = AugmentingPath::new(1);
    aug_path.s.insert(2);
    aug_path.t.insert(5);
    aug_path.out.insert(2, 10);
    aug_path.out.insert(5, 11);
    aug_path.add_edge(2, 3);
    aug_path.add_edge(4, 5);

    assert!(aug_path.find_augmenting_path().is_none());
}

#[test]
fn find_augmenting_path_returns_none_without_starts() {
    let mut aug_path = AugmentingPath::new(1);
    aug_path.t.insert(5);
    aug_path.edges.insert(2, HashSet::from([5]));

    assert!(aug_path.find_augmenting_path().is_none());
}
