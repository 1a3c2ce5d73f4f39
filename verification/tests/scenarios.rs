use cdcl::lit::Lit;
use cdcl::solver::Solver;

fn lit(n: i64) -> Lit {
    Lit { var: (n.unsigned_abs() - 1) as usize, val: n > 0 }
}

fn clause(ns: &[i64]) -> Vec<Lit> {
    ns.iter().map(|&n| lit(n)).collect()
}

fn satisfies(model: &[bool], clauses: &[Vec<i64>]) -> bool {
    clauses
        .iter()
        .all(|c| c.iter().any(|&n| model[(n.unsigned_abs() - 1) as usize] == (n > 0)))
}

fn run(vars: usize, clauses: &[Vec<i64>]) -> Option<Vec<bool>> {
    let mut s = Solver::new();
    for _ in 0..vars {
        s.add_var();
    }
    let mut failed = false;
    for c in clauses {
        if s.add_clause(&clause(c)).is_err() {
            failed = true;
        }
    }
    match s.solve() {
        Ok(m) => {
            assert!(!failed);
            Some(m)
        }
        Err(e) => {
            assert!(e.learnt.is_empty());
            assert_eq!(e.max_assumption, 0);
            None
        }
    }
}

#[test]
fn empty_formula() {
    let s = Solver::new();
    assert_eq!(s.solve().unwrap(), Vec::<bool>::new());
}

#[test]
fn default_solver_is_empty() {
    let s = Solver::default();
    assert_eq!(s.var_count(), 0);
    assert_eq!(s.solve().unwrap(), Vec::<bool>::new());
}

#[test]
fn single_unit() {
    assert_eq!(run(1, &[vec![1]]), Some(vec![true]));
}

#[test]
fn contradictory_units() {
    let mut s = Solver::new();
    assert!(s.add_clause(&clause(&[1])).is_ok());
    assert!(s.add_clause(&clause(&[-1])).is_err());
    assert!(s.solve().is_err());
}

#[test]
fn tiny_sat() {
    let clauses = vec![vec![1, 2], vec![-1, 3], vec![-2, -3]];
    let m = run(3, &clauses).unwrap();
    assert_eq!(m, vec![false, true, false]);
    assert!(satisfies(&m, &clauses));
}

#[test]
fn pigeonhole_three_into_two() {
    // p(i, j) = 2 * (i - 1) + j
    let mut clauses = vec![vec![1, 2], vec![3, 4], vec![5, 6]];
    for j in 1..=2i64 {
        for i in 1..=3i64 {
            for k in (i + 1)..=3 {
                clauses.push(vec![-(2 * (i - 1) + j), -(2 * (k - 1) + j)]);
            }
        }
    }
    assert_eq!(run(6, &clauses), None);
}

#[test]
fn propagation_chain() {
    let clauses = vec![vec![1], vec![-1, 2], vec![-2, 3], vec![-3, 4]];
    assert_eq!(run(4, &clauses), Some(vec![true, true, true, true]));
}
