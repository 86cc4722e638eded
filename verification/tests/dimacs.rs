use solver::cnf::CNF;
use solver::dimacs::read_input;
use solver::dimacs::ReadError;
use solver::varset::VarSet;

fn text(cnf: &CNF) -> String {
    String::from_utf8(cnf.to_text()).expect("ASCII")
}

fn error(source: &str) -> ReadError {
    match read_input(source.as_bytes()) {
        Ok(_) => panic!("the input was read"),
        Err(e) => e,
    }
}

#[test]
fn reads_header_comments_and_clauses() {
    let source = "c an example\np cnf 2 3\n1 2 0\n-1 -2 0\n1 0\n";
    let mut cnf = read_input(source.as_bytes()).expect("readable");
    assert_eq!(cnf.variables(), 1..3);
    assert_eq!(text(&cnf), "p cnf 2 3\n1 2 0\n-1 -2 0\n1 0\n");
    let solution = cnf.dpll(&VarSet::new(), &VarSet::new()).expect("satisfiable");
    assert!(solution.contains(1));
    assert!(!solution.contains(2));
}

#[test]
fn writes_positive_literals_before_negated_ones() {
    let cnf = read_input(b"p cnf 12 2\n-3 10 -1 12 0\n7 0\n").expect("readable");
    assert_eq!(text(&cnf), "p cnf 12 2\n10 12 -3 -1 0\n7 0\n");
}

#[test]
fn writes_an_empty_formula_as_its_header() {
    let cnf = read_input(b"").expect("readable");
    assert_eq!(text(&cnf), "p cnf 0 0\n");
    let cnf = read_input(b"p cnf 105 0\n").expect("readable");
    assert_eq!(text(&cnf), "p cnf 105 0\n");
}

#[test]
fn reads_what_it_wrote() {
    let source = "p cnf 30 4\n1 20 -30 0\n-1 0\n0\n7 7 -7 0\n";
    let cnf = read_input(source.as_bytes()).expect("readable");
    assert_eq!(text(&cnf), source);
    let again = read_input(&cnf.to_text()).expect("readable");
    assert_eq!(text(&again), source);
}

#[test]
fn a_line_of_a_single_zero_is_the_empty_clause() {
    let mut cnf = read_input(b"p cnf 1 2\n1 0\n0\n").expect("readable");
    assert_eq!(text(&cnf), "p cnf 1 2\n1 0\n0\n");
    assert!(cnf.dpll(&VarSet::new(), &VarSet::new()).is_none());
}

#[test]
fn tokens_are_separated_by_any_blank_bytes() {
    let cnf = read_input(b"p\tcnf   3  1\r\n  1\t-2   3 0  \r\n").expect("readable");
    assert_eq!(text(&cnf), "p cnf 3 1\n1 3 -2 0\n");
}

#[test]
fn the_last_line_needs_no_line_feed() {
    let cnf = read_input(b"p cnf 2 1\n1 -2 0").expect("readable");
    assert_eq!(text(&cnf), "p cnf 2 1\n1 -2 0\n");
}

#[test]
fn a_clause_line_may_lack_its_closing_zero() {
    let cnf = read_input(b"p cnf 2 1\n1 -2\n").expect("readable");
    assert_eq!(text(&cnf), "p cnf 2 1\n1 -2 0\n");
}

#[test]
fn nothing_is_read_after_the_closing_zero() {
    let cnf = read_input(b"p cnf 9 1\n1 0 5 x y\n").expect("readable");
    assert_eq!(text(&cnf), "p cnf 9 1\n1 0\n");
}

#[test]
fn signs_and_leading_zeros_are_read() {
    let cnf = read_input(b"p cnf +7 1\n+1 -002 007 -0 3\n").expect("readable");
    assert_eq!(text(&cnf), "p cnf 7 1\n1 7 -2 0\n");
}

#[test]
fn the_last_header_counts() {
    let cnf = read_input(b"p cnf 2 1\n1 0\np cnf 5 1\n").expect("readable");
    assert_eq!(text(&cnf), "p cnf 5 1\n1 0\n");
}

#[test]
fn only_the_single_letters_open_special_lines() {
    assert_eq!(error("comment\n"), ReadError::BadToken);
    assert_eq!(error("cc\n"), ReadError::BadToken);
    assert_eq!(error("pp cnf 1 1\n"), ReadError::BadToken);
    assert!(read_input(b"c\n").is_ok());
    assert!(read_input(b"c 1 x 0\n").is_ok());
}

#[test]
fn a_line_without_tokens_is_refused() {
    assert_eq!(error("\n"), ReadError::EmptyLine);
    assert_eq!(error("p cnf 1 1\n\n1 0\n"), ReadError::EmptyLine);
    assert_eq!(error("p cnf 1 1\n1 0\n \t \n"), ReadError::EmptyLine);
    assert_eq!(error("p cnf 1 1\n1 0\n\n"), ReadError::EmptyLine);
    assert_eq!(error("   "), ReadError::EmptyLine);
}

#[test]
fn a_token_that_is_no_integer_is_refused() {
    assert_eq!(error("p cnf 2 1\n1 x 0\n"), ReadError::BadToken);
    assert_eq!(error("p cnf 2 1\n1 2a 0\n"), ReadError::BadToken);
    assert_eq!(error("p cnf 2 1\n- 0\n"), ReadError::BadToken);
    assert_eq!(error("p cnf 2 1\n+ 0\n"), ReadError::BadToken);
    assert_eq!(error("p cnf 2 1\n--1 0\n"), ReadError::BadToken);
    assert_eq!(error("p cnf 2 1\n+-1 0\n"), ReadError::BadToken);
    assert_eq!(error("p cnf 2 1\n1.5 0\n"), ReadError::BadToken);
    assert_eq!(error("%\n"), ReadError::BadToken);
}

#[test]
fn a_literal_beyond_32_bits_is_refused() {
    assert_eq!(error("p cnf 2 1\n2147483648 0\n"), ReadError::BadToken);
    assert_eq!(error("p cnf 2 1\n-2147483648 0\n"), ReadError::BadToken);
    assert_eq!(
        error("p cnf 2 1\n99999999999999999999999999999999999999999999 0\n"),
        ReadError::BadToken
    );
    // The greatest literal is read, and then found beyond the variables.
    assert_eq!(error("p cnf 2 1\n2147483647 0\n"), ReadError::OutOfRange);
    assert_eq!(error("p cnf 2 1\n-2147483647 0\n"), ReadError::OutOfRange);
}

#[test]
fn a_header_without_a_count_is_refused() {
    assert_eq!(error("p\n"), ReadError::BadHeader);
    assert_eq!(error("p cnf\n"), ReadError::BadHeader);
    assert_eq!(error("p cnf x 1\n"), ReadError::BadHeader);
    assert_eq!(error("p cnf -1 1\n"), ReadError::BadHeader);
    assert_eq!(error("p cnf -0 1\n"), ReadError::BadHeader);
    assert_eq!(
        error("p cnf 340282366920938463463374607431768211456 1\n"),
        ReadError::BadHeader
    );
    assert!(read_input(b"p cnf 3\n").is_ok());
    assert!(read_input(b"p cnf 3 x y z\n").is_ok());
}

#[test]
fn a_variable_beyond_the_declared_count_is_refused() {
    assert_eq!(error("p cnf 2 1\n1 3 0\n"), ReadError::OutOfRange);
    assert_eq!(error("p cnf 2 1\n-3 0\n"), ReadError::OutOfRange);
    assert_eq!(error("1 0\n"), ReadError::OutOfRange);
    assert_eq!(error("1 0\np cnf 0 1\n"), ReadError::OutOfRange);
    assert!(read_input(b"1 0\np cnf 1 1\n").is_ok());
}

#[test]
fn the_first_error_is_reported() {
    assert_eq!(error("p cnf 1 2\nx\n\n"), ReadError::BadToken);
    assert_eq!(error("p cnf 1 2\n\nx\n"), ReadError::EmptyLine);
    assert_eq!(error("9 0\np\n"), ReadError::BadHeader);
}

#[test]
fn solution_line_lists_every_variable_with_its_sign() {
    let cnf = read_input(b"p cnf 3 0\n").expect("readable");
    let mut s = VarSet::new();
    s.insert(1);
    s.insert(3);
    assert_eq!(cnf.solution_line(&s), b"1 -2 3".to_vec());
    assert_eq!(cnf.solution_line(&VarSet::new()), b"-1 -2 -3".to_vec());
    let none = read_input(b"").expect("readable");
    assert_eq!(none.solution_line(&s), Vec::<u8>::new());
    let many = read_input(b"p cnf 11 0\n").expect("readable");
    assert_eq!(
        many.solution_line(&s),
        b"1 -2 3 -4 -5 -6 -7 -8 -9 -10 -11".to_vec()
    );
}
