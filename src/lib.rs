//! Satisfiability of Boolean formulas in conjunctive normal form.
//!
//! `dimacs` reads a formula from text, `dpllsolver` decides it by unit
//! propagation and chronological backtracking, `eval` evaluates a formula
//! under an assignment, and `solver` is a second search that walks an explicit
//! tree of decisions.
use vstd::prelude::*;

pub mod dimacs;
pub mod dpllsolver;
pub mod eval;
pub mod solver;

verus! {

} // verus!
