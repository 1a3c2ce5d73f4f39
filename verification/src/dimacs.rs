//! Formulas in DIMACS CNF text: parsed by `varisat-dimacs`, then solved.

use crate::cnf::{least_model, satisfiable, vars_needed};
use crate::lit::Lit;
use crate::solver::{Solver, Unsat};
use vstd::prelude::*;

verus! {

/// What `varisat-dimacs` makes of a DIMACS CNF text: the number of
/// variables (the header's, or more if the clauses need more) and the
/// clauses, or the parser's message for a text that it rejects.
pub uninterp spec fn dimacs_parsed(bytes: Seq<u8>) -> Result<(usize, Seq<Seq<Lit>>), Seq<char>>;

/// The clauses of `cs` as sequences.
pub open spec fn clause_seqs(cs: Seq<Vec<Lit>>) -> Seq<Seq<Lit>> {
    Seq::new(cs.len(), |i: int| cs[i]@)
}

/// The number of variables that the first `k` clauses of `f` need.
pub open spec fn formula_needs(f: Seq<Seq<Lit>>, k: int) -> nat
    decreases k,
{
    if k <= 0 {
        0
    } else {
        let rest = formula_needs(f, k - 1);
        if vars_needed(f[k - 1]) > rest { vars_needed(f[k - 1]) } else { rest }
    }
}

/// Runs `varisat_dimacs::DimacsParser` over a whole text: `new`,
/// `parse_chunk`, `eof` and `take_formula`, in that order. The formula's
/// variable count and clauses come back, each literal as the index of its
/// variable and its polarity; a parser error comes back as its message. The
/// header's counts are not held against the clauses.
///
/// Not proved: the contract claims that the outcome is a function of the
/// text alone, and names it `dimacs_parsed`. It claims nothing of what that
/// function is.
#[verifier::external_body]
fn parse_dimacs(bytes: &[u8]) -> (r: Result<(usize, Vec<Vec<Lit>>), String>)
    ensures
        match r {
            Ok(p) => dimacs_parsed(bytes@) == Ok::<(usize, Seq<Seq<Lit>>), Seq<char>>((p.0, clause_seqs(p.1@))),
            Err(msg) => dimacs_parsed(bytes@) == Err::<(usize, Seq<Seq<Lit>>), Seq<char>>(msg@),
        },
{
    let mut parser = varisat_dimacs::DimacsParser::new();
    parser.parse_chunk(bytes).map_err(|e| e.to_string())?;
    parser.eof().map_err(|e| e.to_string())?;
    let formula = parser.take_formula();
    let clauses = formula
        .iter()
        .map(|c| c.iter().map(|l| Lit { var: l.var().index(), val: l.is_positive() }).collect())
        .collect();
    Ok((formula.var_count(), clauses))
}

/// Solves the formula made of `clauses` over at least `var_count`
/// variables.
///
/// The result is a model exactly when some assignment satisfies every
/// clause. A model has a value for each of `var_count` variables, or for as
/// many as the clauses need if that is more, and is the first assignment of
/// that length, in the lexicographic order (false before true, variable 0
/// first), that satisfies every clause.
pub fn solve_formula(var_count: usize, clauses: &Vec<Vec<Lit>>) -> (r: Result<Vec<bool>, Unsat>)
    ensures
        r is Ok <==> satisfiable(clause_seqs(clauses@)),
        match r {
            Ok(m) => {
                &&& least_model(clause_seqs(clauses@), m@)
                &&& m@.len() == if formula_needs(clause_seqs(clauses@), clauses@.len() as int) > var_count {
                    formula_needs(clause_seqs(clauses@), clauses@.len() as int)
                } else {
                    var_count as nat
                }
            },
            Err(e) => e.learnt@.len() == 0 && e.max_assumption == 0,
        },
{
    let ghost f = clause_seqs(clauses@);
    let mut s = Solver::new();
    while s.var_count() < var_count
        invariant
            s.wf(),
            s.formula() == Seq::<Seq<Lit>>::empty(),
            s.num_vars() <= var_count,
        decreases var_count - s.num_vars(),
    {
        s.add_var();
    }
    let mut i: usize = 0;
    while i < clauses.len()
        invariant
            i <= clauses@.len(),
            f == clause_seqs(clauses@),
            s.wf(),
            s.formula() == f.take(i as int),
            s.num_vars() == if formula_needs(f, i as int) > var_count {
                formula_needs(f, i as int)
            } else {
                var_count as nat
            },
        decreases clauses@.len() - i,
    {
        let _ = s.add_clause(clauses[i].as_slice());
        proof {
            assert(f.take(i + 1) == f.take(i as int).push(f[i as int]));
        }
        i = i + 1;
    }
    proof {
        assert(f.take(clauses@.len() as int) == f);
    }
    s.solve()
}

/// Parses a DIMACS CNF text and solves the formula in it.
///
/// A text that the parser rejects gives its message. Otherwise the answer
/// is that of [`solve_formula`] for the parsed variable count and clauses.
pub fn solve_dimacs(bytes: &[u8]) -> (r: Result<Result<Vec<bool>, Unsat>, String>)
    ensures
        match dimacs_parsed(bytes@) {
            Err(msg) => r matches Err(s) && s@ == msg,
            Ok(p) => r matches Ok(a) && (a is Ok <==> satisfiable(p.1)) && match a {
                Ok(m) => {
                    &&& least_model(p.1, m@)
                    &&& m@.len() == if formula_needs(p.1, p.1.len() as int) > p.0 {
                        formula_needs(p.1, p.1.len() as int)
                    } else {
                        p.0 as nat
                    }
                },
                Err(e) => e.learnt@.len() == 0 && e.max_assumption == 0,
            },
        },
{
    match parse_dimacs(bytes) {
        Err(msg) => Err(msg),
        Ok(p) => Ok(solve_formula(p.0, &p.1)),
    }
}

} // verus!
