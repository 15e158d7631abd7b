use triblespace::query::variableset::VariableSet;

#[test]
fn new_empty_is_empty() {
    let set = VariableSet::new_empty();
    assert!(set.is_empty());
}
#[test]
fn new_full_is_not_empty() {
    let set = VariableSet::new_full();
    assert!(!set.is_empty());
}
#[test]
fn after_set_is_not_empty() {
    let mut set = VariableSet::new_empty();
    set.set(5);
    assert!(!set.is_empty());
}
#[test]
fn after_set_unset_is_empty() {
    let mut set = VariableSet::new_empty();
    set.set(5);
    set.unset(5);
    assert!(set.is_empty());
}
#[test]
fn after_set_is_set() {
    let mut set = VariableSet::new_empty();
    set.set(5);
    assert!(set.is_set(5));
}
#[test]
fn after_unset_is_not_set() {
    let mut set = VariableSet::new_full();
    set.unset(5);
    assert!(!set.is_set(5));
}
#[test]
fn find_first_set_none() {
    let set = VariableSet::new_empty();
    assert_eq!(None, set.find_first_set());
}
#[test]
fn find_last_set_none() {
    let set = VariableSet::new_empty();
    assert_eq!(None, set.find_last_set());
}
#[test]
fn superset_full_of_empty() {
    let empty = VariableSet::new_empty();
    let full = VariableSet::new_full();
    assert!(full.is_superset_of(&empty));
}
#[test]
fn superset_not_empty_of_full() {
    let empty = VariableSet::new_empty();
    let full = VariableSet::new_full();
    assert!(!empty.is_superset_of(&full));
}
#[test]
fn subset_empty_of_full() {
    let empty = VariableSet::new_empty();
    let full = VariableSet::new_full();
    assert!(empty.is_subset_of(&full));
}
#[test]
fn subset_not_full_of_empty() {
    let empty = VariableSet::new_empty();
    let full = VariableSet::new_full();
    assert!(!full.is_subset_of(&empty));
}

fn set_of(items: &[usize]) -> VariableSet {
    let mut s = VariableSet::new_empty();
    for &i in items {
        s.set(i);
    }
    s
}

#[test]
fn find_first_and_last_set() {
    let s = set_of(&[3, 70, 127]);
    assert_eq!(s.find_first_set(), Some(3));
    assert_eq!(s.find_last_set(), Some(127));
    assert_eq!(s.count(), 3);
}

#[test]
fn drain_ascending_and_descending() {
    let mut s = set_of(&[9, 2, 40]);
    assert_eq!(s.drain_next_ascending(), Some(2));
    assert_eq!(s.drain_next_descending(), Some(40));
    assert_eq!(s.drain_next_ascending(), Some(9));
    assert_eq!(s.drain_next_ascending(), None);
    assert!(s.is_empty());
}

#[test]
fn complement_twice_is_identity() {
    let s = set_of(&[1, 64, 100]);
    let c = s.complement();
    assert!(!c.is_set(64));
    assert!(c.is_set(0));
    let back = c.complement();
    assert!(back.is_subset_of(&s) && s.is_subset_of(&back));
}

#[test]
fn subtract_and_intersect_split_a_set() {
    let a = set_of(&[1, 2, 3, 10]);
    let b = set_of(&[2, 10, 50]);
    let sub = a.subtract(b);
    let inter = a.intersect(b);
    let rejoined = sub.union(inter);
    assert!(rejoined.is_subset_of(&a) && a.is_subset_of(&rejoined));
    assert!(sub.intersect(inter).is_empty());
    assert!(sub.is_set(1) && sub.is_set(3) && !sub.is_set(2));
}

#[test]
fn difference_is_symmetric() {
    let a = set_of(&[1, 2]);
    let b = set_of(&[2, 3]);
    let d1 = a.difference(b);
    let d2 = b.difference(a);
    assert!(d1.is_set(1) && d1.is_set(3) && !d1.is_set(2));
    assert!(d1.is_subset_of(&d2) && d2.is_subset_of(&d1));
}

#[test]
fn keep_single_and_range() {
    let mut s = set_of(&[1, 5, 9, 20]);
    s.keep_range(4, 9);
    assert_eq!(s.count(), 2);
    assert!(s.is_set(5) && s.is_set(9));
    s.keep_single(9);
    assert_eq!(s.count(), 1);
    assert!(s.is_set(9));
}

#[test]
fn set_value_sets_and_clears() {
    let mut s = VariableSet::new_empty();
    s.set_value(7, true);
    assert!(s.is_set(7));
    s.set_value(7, false);
    assert!(!s.is_set(7));
}
