use cdcl::dimacs::{solve_dimacs, solve_formula};
use cdcl::lit::Lit;

#[test]
fn dimacs_satisfiable_text() {
    let text = b"c a comment\np cnf 3 3\n1 2 0\n-1 3 0\n-2 -3 0\n";
    let model = solve_dimacs(text).unwrap().unwrap();
    assert_eq!(model, vec![false, true, false]);
}

#[test]
fn dimacs_literals_are_shifted_to_zero_based() {
    // variable 2 of the text is variable 1 of the model
    let model = solve_dimacs(b"p cnf 2 2\n-1 0\n2 0\n").unwrap().unwrap();
    assert_eq!(model, vec![false, true]);
}

#[test]
fn dimacs_unsatisfiable_text() {
    let answer = solve_dimacs(b"p cnf 1 2\n1 0\n-1 0\n").unwrap();
    let err = answer.unwrap_err();
    assert!(err.learnt.is_empty());
    assert_eq!(err.max_assumption, 0);
}

#[test]
fn dimacs_header_gives_the_variable_count() {
    let model = solve_dimacs(b"p cnf 5 1\n2 0\n").unwrap().unwrap();
    assert_eq!(model, vec![false, true, false, false, false]);
}

#[test]
fn dimacs_without_header() {
    let model = solve_dimacs(b"1 -3 0\n3 0\n").unwrap().unwrap();
    assert_eq!(model, vec![true, false, true]);
}

#[test]
fn dimacs_empty_text() {
    assert_eq!(solve_dimacs(b"").unwrap().unwrap(), Vec::<bool>::new());
}

#[test]
fn dimacs_rejected_text() {
    assert!(solve_dimacs(b"p cnf 2 1\n1 x 0\n").is_err());
    assert!(solve_dimacs(b"p cnf two 1\n1 0\n").is_err());
    // a clause that is not closed by 0
    assert!(solve_dimacs(b"p cnf 2 1\n1 2\n").is_err());
}

#[test]
fn dimacs_header_counts_may_disagree() {
    // two clauses where the header announces one
    let model = solve_dimacs(b"p cnf 2 1\n1 0\n2 0\n").unwrap().unwrap();
    assert_eq!(model, vec![true, true]);
}

#[test]
fn formula_with_spare_variables() {
    let clauses = vec![vec![Lit { var: 1, val: true }]];
    assert_eq!(solve_formula(4, &clauses).unwrap(), vec![false, true, false, false]);
    assert_eq!(solve_formula(0, &clauses).unwrap(), vec![false, true]);
}

#[test]
fn formula_with_an_empty_clause() {
    let clauses = vec![vec![Lit { var: 0, val: true }], vec![]];
    assert!(solve_formula(1, &clauses).is_err());
}
