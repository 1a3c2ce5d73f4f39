//! A CDCL satisfiability solver for propositional formulas in conjunctive
//! normal form: two-watched-literal propagation, first-UIP clause learning,
//! backjumping and a size-bounded database of learnt clauses.
//!
//! Every answer of [`Solver::solve`] is proved against the semantics in
//! [`cnf`]: a returned model satisfies every clause that was added and is
//! the first such assignment in the lexicographic order, and `Unsat` is
//! returned only for formulas that no assignment satisfies.

mod analyze;
pub mod cnf;
pub mod dimacs;
mod ingest;
mod least;
pub mod lit;
mod propagate;
mod reduce;
mod search;
pub mod solver;
mod trail;
