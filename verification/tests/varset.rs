use solver::varset::VarSet;

#[test]
fn new_set_has_no_member() {
    let s = VarSet::new();
    assert!(!s.contains(0));
    assert!(!s.contains(1));
    assert!(!s.contains(1000));
}

#[test]
fn insert_adds_and_reports() {
    let mut s = VarSet::new();
    assert!(s.insert(5));
    assert!(s.contains(5));
    assert!(!s.contains(4));
    assert!(!s.insert(5));
    assert!(s.contains(5));
}

#[test]
fn remove_takes_out_and_reports() {
    let mut s = VarSet::new();
    s.insert(3);
    s.insert(70);
    assert!(s.remove(3));
    assert!(!s.contains(3));
    assert!(s.contains(70));
    assert!(!s.remove(3));
    assert!(!s.remove(1000));
}

#[test]
fn disjoint_sets_are_told_apart() {
    let mut a = VarSet::new();
    let mut b = VarSet::new();
    assert!(a.is_disjoint(&b));
    a.insert(1);
    a.insert(40);
    b.insert(2);
    assert!(a.is_disjoint(&b));
    assert!(b.is_disjoint(&a));
    b.insert(40);
    assert!(!a.is_disjoint(&b));
    assert!(!b.is_disjoint(&a));
}

#[test]
fn clone_is_independent() {
    let mut a = VarSet::new();
    a.insert(7);
    let mut b = a.clone();
    assert!(b.contains(7));
    b.insert(8);
    b.remove(7);
    assert!(a.contains(7));
    assert!(!a.contains(8));
}
