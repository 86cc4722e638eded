use solver::clause::Clause;
use solver::varset::VarSet;

fn set(members: &[usize]) -> VarSet {
    let mut s = VarSet::new();
    for v in members {
        s.insert(*v);
    }
    s
}

#[test]
fn eval_needs_an_assigned_literal() {
    let c = Clause { t: vec![1, 2], f: vec![3] };
    assert!(!c.eval(&set(&[]), &set(&[])));
    assert!(c.eval(&set(&[2]), &set(&[])));
    assert!(c.eval(&set(&[]), &set(&[3])));
    assert!(!c.eval(&set(&[3]), &set(&[1, 2])));
    assert!(!c.eval(&set(&[4]), &set(&[5])));
}

#[test]
fn eval_of_the_empty_clause_is_false() {
    let c = Clause { t: vec![], f: vec![] };
    assert!(!c.eval(&set(&[1]), &set(&[2])));
    assert!(!c.eval_complete(&set(&[])));
    assert!(!c.eval_complete(&set(&[1, 2, 3])));
}

#[test]
fn eval_of_a_tautology() {
    let c = Clause { t: vec![1], f: vec![1] };
    assert!(!c.eval(&set(&[]), &set(&[])));
    assert!(c.eval(&set(&[1]), &set(&[])));
    assert!(c.eval(&set(&[]), &set(&[1])));
    assert!(c.eval_complete(&set(&[])));
    assert!(c.eval_complete(&set(&[1])));
}

#[test]
fn eval_complete_reads_absence_as_false() {
    let c = Clause { t: vec![1], f: vec![2] };
    assert!(c.eval_complete(&set(&[])));
    assert!(c.eval_complete(&set(&[1])));
    assert!(c.eval_complete(&set(&[1, 2])));
    assert!(!c.eval_complete(&set(&[2])));
    let only_positive = Clause { t: vec![1, 2], f: vec![] };
    assert!(!only_positive.eval_complete(&set(&[])));
    assert!(only_positive.eval_complete(&set(&[2])));
}

#[test]
fn find_unit_counts_up_to_the_bound() {
    let bag = vec![1, 2, 3];
    assert_eq!(Clause::find_unit(&bag, &set(&[]), 2), (2, 2));
    assert_eq!(Clause::find_unit(&bag, &set(&[]), 1), (1, 1));
    assert_eq!(Clause::find_unit(&bag, &set(&[]), 3), (3, 3));
    assert_eq!(Clause::find_unit(&bag, &set(&[]), 200), (3, 3));
    assert_eq!(Clause::find_unit(&bag, &set(&[2]), 2), (2, 3));
    assert_eq!(Clause::find_unit(&bag, &set(&[1, 2]), 2), (1, 3));
    assert_eq!(Clause::find_unit(&bag, &set(&[1, 3]), 2), (1, 2));
}

#[test]
fn find_unit_with_nothing_left() {
    let bag = vec![1, 2, 3];
    assert_eq!(Clause::find_unit(&bag, &set(&[1, 2, 3]), 2), (0, 0));
    assert_eq!(Clause::find_unit(&vec![], &set(&[]), 2), (0, 0));
    assert_eq!(Clause::find_unit(&vec![], &set(&[1]), 1), (0, 0));
}

#[test]
fn find_unit_with_bound_zero_meets_nothing() {
    assert_eq!(Clause::find_unit(&vec![1, 2, 3], &set(&[]), 0), (0, 0));
}

#[test]
fn find_unit_counts_repeated_entries() {
    assert_eq!(Clause::find_unit(&vec![4, 4], &set(&[]), 2), (2, 4));
    assert_eq!(Clause::find_unit(&vec![4, 4], &set(&[4]), 2), (0, 0));
    assert_eq!(Clause::find_unit(&vec![4, 4, 5], &set(&[4]), 2), (1, 5));
}
