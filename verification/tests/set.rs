use state::set::StateSet;

fn ids(list: &[usize]) -> StateSet {
    let mut set = StateSet::new();
    for id in list {
        set.insert(*id);
    }
    set
}

#[test]
fn new_set_is_empty() {
    let set = StateSet::new();
    assert!(set.is_empty());
    assert_eq!(set.len(), 0);
    assert!(!set.contains(0));
}

#[test]
fn insert_says_whether_the_member_is_new() {
    let mut set = StateSet::new();
    assert!(set.insert(4));
    assert!(set.insert(1));
    assert!(!set.insert(4));
    assert!(set.insert(9));
    assert_eq!(set.len(), 3);
    assert!(set.contains(1) && set.contains(4) && set.contains(9));
    assert!(!set.contains(2));
    assert!(!set.is_empty());
}

#[test]
fn members_come_in_ascending_order() {
    let set = ids(&[7, 2, 9, 2, 0, 7]);
    assert_eq!(set.len(), 4);
    assert_eq!(set.at(0), 0);
    assert_eq!(set.at(1), 2);
    assert_eq!(set.at(2), 7);
    assert_eq!(set.at(3), 9);
}

#[test]
fn equal_sets_are_equal_whatever_the_order_of_insertion() {
    let a = ids(&[3, 1, 2]);
    let b = ids(&[2, 3, 1, 3]);
    assert!(a.equals(&b));
    assert_eq!(a, b);
    let c = ids(&[1, 2]);
    assert!(!a.equals(&c));
    assert!(!c.equals(&a));
    assert_ne!(a, c);
    let d = ids(&[1, 2, 4]);
    assert!(!a.equals(&d));
    assert!(StateSet::new().equals(&StateSet::new()));
}

#[test]
fn extend_joins_two_sets() {
    let mut a = ids(&[1, 5]);
    a.extend(&ids(&[5, 0, 8]));
    assert_eq!(a, ids(&[0, 1, 5, 8]));
    a.extend(&StateSet::new());
    assert_eq!(a, ids(&[0, 1, 5, 8]));
}

#[test]
fn intersects_finds_a_shared_member() {
    assert!(ids(&[1, 2, 3]).intersects(&ids(&[3, 4])));
    assert!(!ids(&[1, 2, 3]).intersects(&ids(&[4, 5])));
    assert!(!ids(&[1, 2, 3]).intersects(&StateSet::new()));
    assert!(!StateSet::new().intersects(&ids(&[1])));
}

#[test]
fn clone_has_the_same_members() {
    let a = ids(&[6, 4]);
    let b = a.clone();
    assert_eq!(a, b);
    assert_eq!(b.at(0), 4);
}
