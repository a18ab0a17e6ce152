use vstd::prelude::*;
use crate::dimacs::{Atom, Clause, Dimacs};
use crate::dpllsolver::Assignment;

verus! {

// Assignments are modelled as sequences indexed by `variable - 1`: `Some(b)`
// where the variable holds `b`, `None` where it is unassigned.

/// The value of variable `v` under `a`, or `None` where it is unassigned or
/// out of range.
pub open spec fn value_of(a: Seq<Option<bool>>, v: u128) -> Option<bool> {
    if 1 <= v <= a.len() {
        a[v - 1]
    } else {
        None
    }
}

/// Whether the literal holds (`Some(true)`), fails (`Some(false)`) or is open.
pub open spec fn lit_value(l: Atom, a: Seq<Option<bool>>) -> Option<bool> {
    match value_of(a, l.spec_var()) {
        Some(b) => Some(b == l.spec_to_satisfy()),
        None => None,
    }
}

pub open spec fn clause_holds(c: Seq<Atom>, a: Seq<Option<bool>>) -> bool {
    exists|j: int| 0 <= j < c.len() && lit_value(#[trigger] c[j], a) == Some(true)
}

pub open spec fn formula_holds(cs: Seq<Seq<Atom>>, a: Seq<Option<bool>>) -> bool {
    forall|i: int| 0 <= i < cs.len() ==> clause_holds(#[trigger] cs[i], a)
}

/// Every variable has a value.
pub open spec fn is_total(a: Seq<Option<bool>>) -> bool {
    forall|i: int| 0 <= i < a.len() ==> (#[trigger] a[i]) is Some
}

/// `m` keeps every value that `a` has given.
pub open spec fn extends(m: Seq<Option<bool>>, a: Seq<Option<bool>>) -> bool {
    m.len() == a.len() && forall|i: int| 0 <= i < a.len() && (#[trigger] a[i]) is Some ==> m[i] == a[i]
}

/// A total assignment of the variables `1..=n` under which every clause holds.
pub open spec fn is_model(cs: Seq<Seq<Atom>>, m: Seq<Option<bool>>, n: int) -> bool {
    m.len() == n && is_total(m) && formula_holds(cs, m)
}

pub open spec fn satisfiable(cs: Seq<Seq<Atom>>, n: int) -> bool {
    exists|m: Seq<Option<bool>>| is_model(cs, m, n)
}

/// Every variable that occurs in `cs` has a value under `a`.
pub open spec fn covers(cs: Seq<Seq<Atom>>, a: Seq<Option<bool>>) -> bool {
    forall|i: int, j: int|
        0 <= i < cs.len() && 0 <= j < cs[i].len() ==> (#[trigger] value_of(a, cs[i][j].spec_var())) is Some
}

/// Whether every clause of the formula holds under `env`.
pub fn eval(dimacs: &Dimacs, env: &Assignment) -> (r: bool)
    requires
        covers(dimacs.clauses_view(), env@),
    ensures
        r == formula_holds(dimacs.clauses_view(), env@),
{
    let ghost cs = dimacs.clauses_view();
    let mut i: usize = 0;
    while i < dimacs.clauses.len()
        invariant
            cs == dimacs.clauses_view(),
            covers(cs, env@),
            i <= cs.len(),
            forall|k: int| 0 <= k < i ==> clause_holds(#[trigger] cs[k], env@),
        decreases cs.len() - i,
    {
        assert(cs[i as int] == dimacs.clauses@[i as int].0@);
        if !eval_clause(env, &dimacs.clauses[i]) {
            return false;
        }
        i = i + 1;
    }
    true
}

/// Whether some literal of the clause holds under `env`.
fn eval_clause(env: &Assignment, clause: &Clause) -> (r: bool)
    requires
        forall|j: int|
            0 <= j < clause.0@.len() ==> (#[trigger] value_of(env@, clause.0@[j].spec_var())) is Some,
    ensures
        r == clause_holds(clause.0@, env@),
{
    let mut j: usize = 0;
    while j < clause.0.len()
        invariant
            j <= clause.0@.len(),
            forall|j: int|
                0 <= j < clause.0@.len() ==> (#[trigger] value_of(env@, clause.0@[j].spec_var())) is Some,
            forall|k: int| 0 <= k < j ==> lit_value(#[trigger] clause.0@[k], env@) != Some(true),
        decreases clause.0@.len() - j,
    {
        if eval_atom(env, clause.0[j]) {
            return true;
        }
        j = j + 1;
    }
    false
}

/// Whether the literal holds under `env`.
fn eval_atom(env: &Assignment, atom: Atom) -> (r: bool)
    requires
        value_of(env@, atom.spec_var()) is Some,
    ensures
        r == (lit_value(atom, env@) == Some(true)),
{
    match atom {
        Atom::Pos(v) => env.lookup(v),
        Atom::Neg(v) => !env.lookup(v),
    }
}

} // verus!
