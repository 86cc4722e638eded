use solver::clause::Clause;
use solver::cnf::CNF;
use solver::varset::VarSet;

fn clause(t: &[usize], f: &[usize]) -> Clause {
    Clause { t: t.to_vec(), f: f.to_vec() }
}

fn store(clauses: &[(&[usize], &[usize])], n: usize) -> CNF {
    let formula: Vec<Clause> = clauses.iter().map(|(t, f)| clause(t, f)).collect();
    assert!(CNF::admissible(&formula, n));
    CNF::new(formula, n)
}

fn solve(cnf: &mut CNF) -> Option<VarSet> {
    cnf.dpll(&VarSet::new(), &VarSet::new())
}

fn members(s: &VarSet, n: usize) -> Vec<usize> {
    (1..=n).filter(|v| s.contains(*v)).collect()
}

#[test]
fn end_to_end_example() {
    let mut cnf = store(&[(&[1, 2], &[]), (&[], &[1, 2]), (&[1], &[])], 2);
    let solution = solve(&mut cnf).expect("satisfiable");
    assert!(solution.contains(1));
    assert!(!solution.contains(2));
    assert!(cnf.validate(&solution));
}

#[test]
fn empty_formula_is_satisfied_by_the_empty_assignment() {
    let mut cnf = store(&[], 0);
    let solution = solve(&mut cnf).expect("satisfiable");
    assert_eq!(members(&solution, 10), Vec::<usize>::new());
    assert!(cnf.validate(&solution));
    assert!(cnf.validate(&VarSet::new()));

    let mut with_variables = store(&[], 3);
    let solution = solve(&mut with_variables).expect("satisfiable");
    assert_eq!(members(&solution, 3), Vec::<usize>::new());
}

#[test]
fn empty_clause_makes_the_formula_unsatisfiable() {
    let mut alone = store(&[(&[], &[])], 0);
    assert!(solve(&mut alone).is_none());

    let mut first = store(&[(&[], &[]), (&[1], &[]), (&[2], &[1])], 2);
    assert!(solve(&mut first).is_none());

    let mut last = store(&[(&[1, 2], &[]), (&[], &[2]), (&[], &[])], 2);
    assert!(solve(&mut last).is_none());
    assert!(!last.validate(&VarSet::new()));
}

#[test]
fn unit_clause_forces_its_variable_true() {
    let mut cnf = store(&[(&[1], &[])], 1);
    let solution = solve(&mut cnf).expect("satisfiable");
    assert!(solution.contains(1));
    assert!(cnf.validate(&solution));
}

#[test]
fn unit_clause_forces_its_variable_false() {
    let mut cnf = store(&[(&[], &[2])], 2);
    let solution = solve(&mut cnf).expect("satisfiable");
    assert!(!solution.contains(2));
    assert!(!solution.contains(1));
    assert!(cnf.validate(&solution));
}

#[test]
fn pure_literal_is_assigned_without_branching() {
    let mut cnf = store(&[(&[1, 2], &[]), (&[1, 3], &[])], 3);
    let solution = solve(&mut cnf).expect("satisfiable");
    assert!(solution.contains(1));
    assert_eq!(members(&solution, 3), vec![1, 2, 3]);
    assert!(cnf.validate(&solution));
}

#[test]
fn pure_negative_literal_is_made_false() {
    let mut cnf = store(&[(&[], &[1, 2]), (&[], &[1, 3])], 3);
    let solution = solve(&mut cnf).expect("satisfiable");
    assert_eq!(members(&solution, 3), Vec::<usize>::new());
    assert!(cnf.validate(&solution));
}

#[test]
fn opposite_unit_clauses_conflict() {
    let mut cnf = store(&[(&[1], &[]), (&[], &[1])], 1);
    assert!(solve(&mut cnf).is_none());
}

#[test]
fn branching_tries_true_first() {
    // Exactly one of the two variables: nothing is forced, variable 1 is
    // tried as true, and variable 2 follows as false.
    let mut cnf = store(&[(&[1, 2], &[]), (&[], &[1, 2])], 2);
    let solution = solve(&mut cnf).expect("satisfiable");
    assert_eq!(members(&solution, 2), vec![1]);
    assert!(cnf.validate(&solution));
}

#[test]
fn branching_falls_back_to_false() {
    // Variable 1 is tried first and must be false: (1 or 2), (-1 or 2),
    // (-1 or -2).
    let mut cnf = store(&[(&[1, 2], &[]), (&[2], &[1]), (&[], &[1, 2])], 2);
    let solution = solve(&mut cnf).expect("satisfiable");
    assert_eq!(members(&solution, 2), vec![2]);
    assert!(cnf.validate(&solution));
}

#[test]
fn branching_picks_the_most_frequent_variable() {
    let mut cnf = store(
        &[(&[3, 1], &[]), (&[], &[3, 1]), (&[3, 2], &[]), (&[], &[3, 2])],
        3,
    );
    let solution = solve(&mut cnf).expect("satisfiable");
    assert_eq!(members(&solution, 3), vec![3]);
    assert!(cnf.validate(&solution));
}

#[test]
fn failed_search_restores_the_bookkeeping() {
    let clauses: [(&[usize], &[usize]); 4] =
        [(&[1, 2], &[]), (&[], &[1, 2]), (&[1], &[2]), (&[2], &[1])];
    let mut cnf = store(&clauses, 2);
    let fresh = store(&clauses, 2);
    assert!(solve(&mut cnf).is_none());
    assert_eq!(cnf.height(), 0);
    for i in 0..5 {
        assert!(!cnf.is_marked(i));
    }
    for v in 0..4 {
        assert_eq!(cnf.live_count(v, true), fresh.live_count(v, true));
        assert_eq!(cnf.live_count(v, false), fresh.live_count(v, false));
    }
    assert_eq!(cnf.live_count(1, true), 2);
    assert_eq!(cnf.live_count(1, false), 2);
    assert_eq!(cnf.live_count(2, true), 2);
    assert_eq!(cnf.live_count(2, false), 2);
    // The store can be asked again, and answers the same.
    assert!(solve(&mut cnf).is_none());
}

#[test]
fn successful_search_leaves_every_clause_marked() {
    let mut cnf = store(&[(&[1, 2], &[]), (&[], &[1, 2]), (&[1], &[])], 2);
    assert_eq!(cnf.height(), 0);
    assert_eq!(cnf.live_count(1, true), 2);
    assert_eq!(cnf.live_count(2, false), 1);
    assert!(solve(&mut cnf).is_some());
    assert_eq!(cnf.height(), 3);
    for i in 0..3 {
        assert!(cnf.is_marked(i));
    }
    for v in 1..=2 {
        assert_eq!(cnf.live_count(v, true), 0);
        assert_eq!(cnf.live_count(v, false), 0);
    }
}

#[test]
fn counts_include_repeated_occurrences() {
    let cnf = store(&[(&[1, 1, 2], &[2]), (&[1], &[2, 2])], 2);
    assert_eq!(cnf.live_count(1, true), 3);
    assert_eq!(cnf.live_count(1, false), 0);
    assert_eq!(cnf.live_count(2, true), 1);
    assert_eq!(cnf.live_count(2, false), 3);
    assert_eq!(cnf.live_count(0, true), 0);
    assert_eq!(cnf.live_count(3, true), 0);
}

#[test]
fn given_assignment_is_respected() {
    let mut cnf = store(&[(&[1, 2], &[])], 2);
    let mut f = VarSet::new();
    f.insert(1);
    let solution = cnf.dpll(&VarSet::new(), &f).expect("satisfiable");
    assert_eq!(members(&solution, 2), vec![2]);

    let mut cnf = store(&[(&[1, 2], &[])], 2);
    let mut f = VarSet::new();
    f.insert(1);
    f.insert(2);
    assert!(cnf.dpll(&VarSet::new(), &f).is_none());
    assert_eq!(cnf.height(), 0);
}

#[test]
fn admissible_rejects_variables_out_of_range() {
    assert!(CNF::admissible(&vec![clause(&[1, 2], &[2])], 2));
    assert!(!CNF::admissible(&vec![clause(&[1, 3], &[])], 2));
    assert!(!CNF::admissible(&vec![clause(&[], &[3])], 2));
    assert!(!CNF::admissible(&vec![clause(&[0], &[])], 2));
    assert!(!CNF::admissible(&vec![clause(&[], &[0])], 2));
    assert!(!CNF::admissible(&vec![], usize::MAX));
    assert!(CNF::admissible(&vec![], 0));
    assert!(CNF::admissible(&vec![clause(&[], &[])], 0));
}

#[test]
fn variables_are_one_to_n() {
    let cnf = store(&[(&[1], &[])], 5);
    assert_eq!(cnf.variables(), 1..6);
    let none = store(&[], 0);
    assert_eq!(none.variables(), 1..1);
}

#[test]
fn validate_checks_every_clause() {
    let cnf = store(&[(&[1], &[2]), (&[2, 3], &[])], 3);
    let mut s = VarSet::new();
    assert!(!cnf.validate(&s));
    s.insert(3);
    assert!(cnf.validate(&s));
    s.insert(2);
    assert!(!cnf.validate(&s));
    s.insert(1);
    assert!(cnf.validate(&s));
}

fn satisfiable_by_enumeration(cnf: &CNF, n: usize) -> bool {
    for bits in 0usize..(1 << n) {
        let mut s = VarSet::new();
        for v in 1..=n {
            if bits & (1 << (v - 1)) != 0 {
                s.insert(v);
            }
        }
        if cnf.validate(&s) {
            return true;
        }
    }
    false
}

fn next(state: &mut u64) -> usize {
    *state = state
        .wrapping_mul(6364136223846793005)
        .wrapping_add(1442695040888963407);
    (*state >> 33) as usize
}

fn random_formula(state: &mut u64, n: usize, clauses: usize) -> Vec<(Vec<usize>, Vec<usize>)> {
    let mut formula = Vec::new();
    for _ in 0..clauses {
        let width = 1 + next(state) % 3;
        let mut t = Vec::new();
        let mut f = Vec::new();
        for _ in 0..width {
            let v = 1 + next(state) % n;
            if next(state) % 2 == 0 {
                t.push(v);
            } else {
                f.push(v);
            }
        }
        formula.push((t, f));
    }
    formula
}

#[test]
fn search_agrees_with_enumeration_on_small_formulas() {
    let mut state = 0x2545F4914F6CDD1Du64;
    let mut found = 0;
    let mut refuted = 0;
    for round in 0..600 {
        let n = 1 + round % 5;
        let count = next(&mut state) % 12;
        let formula = random_formula(&mut state, n, count);
        let clauses: Vec<Clause> = formula
            .iter()
            .map(|(t, f)| Clause { t: t.clone(), f: f.clone() })
            .collect();
        let mut cnf = CNF::new(clauses, n);
        let expected = satisfiable_by_enumeration(&cnf, n);
        match solve(&mut cnf) {
            Some(solution) => {
                assert!(expected);
                assert!(cnf.validate(&solution));
                assert_eq!(cnf.height(), count);
                found += 1;
            }
            None => {
                assert!(!expected);
                assert_eq!(cnf.height(), 0);
                refuted += 1;
            }
        }
    }
    assert!(found > 50);
    assert!(refuted > 50);
}

#[test]
fn repeated_runs_give_the_same_assignment() {
    let mut state = 0x9E3779B97F4A7C15u64;
    for round in 0..200 {
        let n = 1 + round % 6;
        let count = next(&mut state) % 10;
        let formula = random_formula(&mut state, n, count);
        let build = || {
            CNF::new(
                formula
                    .iter()
                    .map(|(t, f)| Clause { t: t.clone(), f: f.clone() })
                    .collect(),
                n,
            )
        };
        let mut first = build();
        let mut second = build();
        let a = solve(&mut first);
        let b = solve(&mut second);
        match (a, b) {
            (Some(x), Some(y)) => assert_eq!(members(&x, n), members(&y, n)),
            (None, None) => {}
            _ => panic!("the two runs differ"),
        }
    }
}

#[test]
fn solve_starts_from_the_empty_assignment() {
    let mut cnf = store(&[(&[1, 2], &[]), (&[], &[1, 2]), (&[1], &[])], 2);
    let solution = cnf.solve().expect("satisfiable");
    assert_eq!(members(&solution, 2), vec![1]);
    assert!(cnf.validate(&solution));

    let mut none = store(&[(&[1], &[]), (&[], &[1])], 1);
    assert!(none.solve().is_none());
    assert_eq!(none.height(), 0);
    assert!(none.solve().is_none());
}
