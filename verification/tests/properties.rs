use cdcl::lit::Lit;
use cdcl::solver::Solver;

struct Rng(u64);

impl Rng {
    fn next(&mut self) -> u64 {
        self.0 = self.0.wrapping_mul(6364136223846793005).wrapping_add(1442695040888963407);
        self.0 >> 33
    }

    fn below(&mut self, n: u64) -> u64 {
        self.next() % n
    }
}

fn random_formula(rng: &mut Rng, vars: usize, clauses: usize, width: u64) -> Vec<Vec<Lit>> {
    let mut f = Vec::new();
    for _ in 0..clauses {
        let len = 1 + rng.below(width) as usize;
        let mut c = Vec::new();
        for _ in 0..len {
            c.push(Lit { var: rng.below(vars as u64) as usize, val: rng.below(2) == 1 });
        }
        f.push(c);
    }
    f
}

fn holds(model: &[bool], formula: &[Vec<Lit>]) -> bool {
    formula.iter().all(|c| c.iter().any(|l| l.var < model.len() && model[l.var] == l.val))
}

fn brute_force(vars: usize, formula: &[Vec<Lit>]) -> bool {
    (0..(1u32 << vars)).any(|bits| {
        let model: Vec<bool> = (0..vars).map(|v| bits >> v & 1 == 1).collect();
        holds(&model, formula)
    })
}

fn solve(vars: usize, formula: &[Vec<Lit>]) -> Option<Vec<bool>> {
    let mut s = Solver::new();
    for _ in 0..vars {
        s.add_var();
    }
    for c in formula {
        let _ = s.add_clause(c);
    }
    s.solve().ok()
}

#[test]
fn models_satisfy_and_unsat_is_right_on_small_formulas() {
    let mut rng = Rng(7);
    let mut sat = 0;
    let mut unsat = 0;
    for round in 0..600 {
        let vars = 1 + round % 7;
        let clauses = 1 + rng.below(4 * vars as u64) as usize;
        let f = random_formula(&mut rng, vars, clauses, 3);
        match solve(vars, &f) {
            Some(m) => {
                assert_eq!(m.len(), vars);
                assert!(holds(&m, &f), "model {:?} does not satisfy {:?}", m, f);
                sat += 1;
            }
            None => {
                assert!(!brute_force(vars, &f), "{:?} has a model", f);
                unsat += 1;
            }
        }
    }
    assert!(sat > 50 && unsat > 50);
}

#[test]
fn agrees_with_brute_force_on_binary_and_ternary_clauses() {
    let mut rng = Rng(2024);
    for _ in 0..300 {
        let vars = 8;
        let clauses = 20 + rng.below(20) as usize;
        let mut f = random_formula(&mut rng, vars, clauses, 2);
        for c in f.iter_mut() {
            c.push(Lit { var: rng.below(vars as u64) as usize, val: rng.below(2) == 1 });
        }
        let answer = solve(vars, &f);
        assert_eq!(answer.is_some(), brute_force(vars, &f));
        if let Some(m) = answer {
            assert!(holds(&m, &f));
        }
    }
}

#[test]
fn inserting_a_clause_twice_changes_nothing() {
    let mut rng = Rng(11);
    for round in 0..200 {
        let vars = 2 + round % 5;
        let f = random_formula(&mut rng, vars, 2 + 2 * vars, 3);
        let mut twice = f.clone();
        let pick = rng.below(f.len() as u64) as usize;
        twice.push(f[pick].clone());
        let a = solve(vars, &f);
        let b = solve(vars, &twice);
        assert_eq!(a.is_some(), b.is_some());
        if let Some(m) = b {
            assert!(holds(&m, &f));
            assert!(holds(&m, &twice));
        }
    }
}

#[test]
fn inserting_a_tautology_changes_nothing() {
    let mut rng = Rng(5);
    for round in 0..200 {
        let vars = 2 + round % 5;
        let f = random_formula(&mut rng, vars, 2 + 2 * vars, 3);
        let v = rng.below(vars as u64) as usize;
        let mut with = f.clone();
        with.push(vec![
            Lit { var: v, val: true },
            Lit { var: (v + 1) % vars, val: false },
            Lit { var: v, val: false },
        ]);
        assert_eq!(solve(vars, &f), solve(vars, &with));
    }
}

#[test]
fn tautology_alone_is_satisfiable() {
    let m = solve(0, &[vec![Lit { var: 2, val: true }, Lit { var: 2, val: false }]]).unwrap();
    assert_eq!(m, vec![false, false, false]);
}

#[test]
fn repeated_literals_count_once() {
    // {x0, x0} is a unit clause: it fixes x0 and clashes with {not x0}
    let mut s = Solver::new();
    let x = Lit { var: 0, val: true };
    assert!(s.add_clause(&[x, x]).is_ok());
    assert!(s.add_clause(&[x.not(), x.not(), x.not()]).is_err());
    assert!(s.solve().is_err());
}

#[test]
fn empty_clause_refutes() {
    let mut s = Solver::new();
    let e = s.add_clause(&[]).unwrap_err();
    assert!(e.learnt.is_empty());
    assert_eq!(e.max_assumption, 0);
    assert!(s.solve().is_err());
}

#[test]
fn insertion_fails_from_the_first_refutation_on() {
    let mut s = Solver::new();
    let x = Lit { var: 0, val: true };
    let y = Lit { var: 1, val: true };
    assert!(s.add_clause(&[x]).is_ok());
    assert!(s.add_clause(&[x, y]).is_ok());
    assert!(s.add_clause(&[x.not()]).is_err());
    assert!(s.add_clause(&[y]).is_err());
    assert_eq!(s.var_count(), 2);
    assert!(s.solve().is_err());
}

#[test]
fn unit_that_is_true_already_succeeds() {
    let mut s = Solver::new();
    let x = Lit { var: 0, val: false };
    assert!(s.add_clause(&[x]).is_ok());
    assert!(s.add_clause(&[x]).is_ok());
    assert_eq!(s.solve().unwrap(), vec![false]);
}

#[test]
fn add_var_returns_consecutive_indices() {
    let mut s = Solver::new();
    assert_eq!(s.add_var(), 0);
    assert_eq!(s.add_var(), 1);
    assert_eq!(s.add_var(), 2);
    assert_eq!(s.var_count(), 3);
    assert_eq!(s.solve().unwrap(), vec![false, false, false]);
}

#[test]
fn clauses_grow_the_variable_count() {
    let mut s = Solver::new();
    s.add_var();
    assert!(s.add_clause(&[Lit { var: 4, val: true }, Lit { var: 2, val: false }]).is_ok());
    assert_eq!(s.var_count(), 5);
    assert!(s.add_clause(&[Lit { var: 1, val: true }]).is_ok());
    assert_eq!(s.var_count(), 5);
    let m = s.solve().unwrap();
    assert_eq!(m, vec![false, true, false, false, false]);
}

#[test]
fn negation_flips_the_value_only() {
    let l = Lit { var: 9, val: true };
    assert_eq!(l.not(), Lit { var: 9, val: false });
    assert_eq!(l.not().not(), l);
}

#[test]
fn decisions_are_false_first_on_the_lowest_variable() {
    // x0 or x1: the decision x0 = false forces x1
    let m = solve(3, &[vec![Lit { var: 0, val: true }, Lit { var: 1, val: true }]]).unwrap();
    assert_eq!(m, vec![false, true, false]);
}

fn pigeonhole(pigeons: usize, holes: usize) -> (usize, Vec<Vec<Lit>>) {
    let var = |p: usize, h: usize| p * holes + h;
    let mut f = Vec::new();
    for p in 0..pigeons {
        f.push((0..holes).map(|h| Lit { var: var(p, h), val: true }).collect());
    }
    for h in 0..holes {
        for p in 0..pigeons {
            for q in (p + 1)..pigeons {
                f.push(vec![Lit { var: var(p, h), val: false }, Lit { var: var(q, h), val: false }]);
            }
        }
    }
    (pigeons * holes, f)
}

#[test]
fn pigeonhole_five_into_four_is_refuted() {
    let (vars, f) = pigeonhole(5, 4);
    assert_eq!(solve(vars, &f), None);
}

#[test]
fn pigeonhole_six_into_five_is_refuted() {
    let (vars, f) = pigeonhole(6, 5);
    assert_eq!(solve(vars, &f), None);
}

#[test]
fn pigeonhole_four_into_four_has_a_model() {
    let (vars, f) = pigeonhole(4, 4);
    let m = solve(vars, &f).unwrap();
    assert!(holds(&m, &f));
}

#[test]
fn learning_outgrows_a_small_formula() {
    // few inserted clauses, so that the learnt ones soon outnumber them
    // and the database is reduced during the search
    let mut rng = Rng(99);
    let mut seen_sat = false;
    let mut seen_unsat = false;
    for _ in 0..40 {
        let vars = 14;
        let mut f = Vec::new();
        for _ in 0..60 {
            let mut c: Vec<Lit> = Vec::new();
            while c.len() < 3 {
                let v = rng.below(vars as u64) as usize;
                if c.iter().all(|l| l.var != v) {
                    c.push(Lit { var: v, val: rng.below(2) == 1 });
                }
            }
            f.push(c);
        }
        match solve(vars, &f) {
            Some(m) => {
                assert!(holds(&m, &f));
                seen_sat = true;
            }
            None => {
                assert!(!brute_force(vars, &f));
                seen_unsat = true;
            }
        }
    }
    assert!(seen_sat && seen_unsat);
}

#[test]
fn planted_models_are_found() {
    // every clause has a literal that the hidden assignment makes true
    let mut rng = Rng(31337);
    for round in 0..30 {
        let vars = 20 + round;
        let hidden: Vec<bool> = (0..vars).map(|_| rng.below(2) == 1).collect();
        let mut f: Vec<Vec<Lit>> = Vec::new();
        while f.len() < 4 * vars {
            let mut c: Vec<Lit> = Vec::new();
            while c.len() < 3 {
                let v = rng.below(vars as u64) as usize;
                if c.iter().all(|l| l.var != v) {
                    c.push(Lit { var: v, val: rng.below(2) == 1 });
                }
            }
            if c.iter().any(|l| hidden[l.var] == l.val) {
                f.push(c);
            }
        }
        let m = solve(vars, &f).unwrap();
        assert_eq!(m.len(), vars);
        assert!(holds(&m, &f));
    }
}

#[test]
fn two_colouring_an_odd_cycle_is_refuted() {
    // neighbours differ: (x or y) and (not x or not y) along a cycle of 9
    let n = 9;
    let mut f = Vec::new();
    for i in 0..n {
        let j = (i + 1) % n;
        f.push(vec![Lit { var: i, val: true }, Lit { var: j, val: true }]);
        f.push(vec![Lit { var: i, val: false }, Lit { var: j, val: false }]);
    }
    assert_eq!(solve(n, &f), None);
    // an even cycle can be coloured
    let n = 10;
    let mut g = Vec::new();
    for i in 0..n {
        let j = (i + 1) % n;
        g.push(vec![Lit { var: i, val: true }, Lit { var: j, val: true }]);
        g.push(vec![Lit { var: i, val: false }, Lit { var: j, val: false }]);
    }
    let m = solve(n, &g).unwrap();
    assert!(holds(&m, &g));
    assert_eq!(m, vec![false, true, false, true, false, true, false, true, false, true]);
}

fn least_model(vars: usize, formula: &[Vec<Lit>]) -> Option<Vec<bool>> {
    // assignments in lexicographic order: false before true, variable 0 first
    (0..(1u32 << vars))
        .map(|bits| (0..vars).map(|v| bits >> (vars - 1 - v) & 1 == 1).collect::<Vec<bool>>())
        .find(|model| holds(model, formula))
}

#[test]
fn the_model_is_the_first_in_lexicographic_order() {
    let mut rng = Rng(4242);
    let mut seen = 0;
    for round in 0..500 {
        let vars = 1 + round % 9;
        let clauses = 1 + rng.below(3 * vars as u64) as usize;
        let f = random_formula(&mut rng, vars, clauses, 3);
        let expected = least_model(vars, &f);
        assert_eq!(solve(vars, &f), expected, "formula {:?}", f);
        if expected.is_some() {
            seen += 1;
        }
    }
    assert!(seen > 100);
}

#[test]
fn variables_in_no_clause_are_false() {
    assert_eq!(solve(2, &[]), Some(vec![false, false]));
    let f = vec![vec![Lit { var: 3, val: true }, Lit { var: 1, val: true }]];
    assert_eq!(solve(6, &f), Some(vec![false, false, false, true, false, false]));
}
