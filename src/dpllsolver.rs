use vstd::prelude::*;
use crate::dimacs::{Atom, Clause, Dimacs, atom_in_range, clause_in_range, formula_in_range};
use crate::eval::{value_of, lit_value, clause_holds, covers, formula_holds, is_total, extends, is_model, satisfiable};

verus! {

/// A partial assignment of the variables `1..=n`: each is either assigned a
/// value or unassigned, never both.
#[derive(Debug, Clone)]
pub struct Assignment {
    values: Vec<Option<bool>>,
}

impl View for Assignment {
    type V = Seq<Option<bool>>;

    /// Position `v - 1` holds the value of variable `v`.
    closed spec fn view(&self) -> Seq<Option<bool>> {
        self.values@
    }
}

/// The assigned variables in ascending order, each with its value.
pub open spec fn assigned_pairs(a: Seq<Option<bool>>) -> Seq<(u128, bool)>
    decreases a.len(),
{
    if a.len() == 0 {
        Seq::empty()
    } else {
        let p = assigned_pairs(a.drop_last());
        match a.last() {
            Some(b) => p.push((a.len() as u128, b)),
            None => p,
        }
    }
}

impl Assignment {
    /// The assignment of `num_vars` variables in which none is assigned.
    pub fn new(num_vars: u128) -> (r: Assignment)
        requires
            num_vars <= usize::MAX,
        ensures
            r@.len() == num_vars,
            forall|i: int| 0 <= i < r@.len() ==> (#[trigger] r@[i]) is None,
    {
        let n = num_vars as usize;
        let mut values: Vec<Option<bool>> = Vec::new();
        let mut i: usize = 0;
        while i < n
            invariant
                i <= n,
                values@.len() == i,
                forall|k: int| 0 <= k < i ==> (#[trigger] values@[k]) is None,
            decreases n - i,
        {
            values.push(None);
            i = i + 1;
        }
        Assignment { values }
    }

    /// The assigned variables in ascending order, with their values.
    pub fn iter(&self) -> (r: Vec<(u128, bool)>)
        ensures
            r@ == assigned_pairs(self@),
    {
        let mut out: Vec<(u128, bool)> = Vec::new();
        let n = self.values.len();
        let mut i: usize = 0;
        while i < n
            invariant
                i <= n,
                self@.len() == n,
                out@ == assigned_pairs(self@.subrange(0, i as int)),
            decreases self@.len() - i,
        {
            proof {
                let s = self@.subrange(0, i as int + 1);
                assert(s.drop_last() =~= self@.subrange(0, i as int));
            }
            match self.values[i] {
                Some(b) => out.push(((i + 1) as u128, b)),
                None => {},
            }
            i = i + 1;
        }
        assert(self@.subrange(0, i as int) =~= self@);
        out
    }

    /// The value of an assigned variable.
    pub fn lookup(&self, x: u128) -> (r: bool)
        requires
            value_of(self@, x) is Some,
        ensures
            value_of(self@, x) == Some(r),
    {
        let n = self.values.len();
        assert(1 <= x <= n);
        match self.values[(x - 1) as usize] {
            Some(b) => b,
            None => false,
        }
    }

    /// An assignment equal to this one.
    fn duplicate(&self) -> (r: Assignment)
        ensures
            r@ == self@,
    {
        let mut values: Vec<Option<bool>> = Vec::new();
        let mut i: usize = 0;
        while i < self.values.len()
            invariant
                i <= self@.len(),
                values@ == self@.subrange(0, i as int),
            decreases self@.len() - i,
        {
            values.push(self.values[i]);
            i = i + 1;
        }
        assert(values@ =~= self@);
        Assignment { values }
    }
}


/// What a clause says under a partial assignment.
#[derive(Debug, Clone, Copy, PartialEq, Eq)]
pub enum ClauseState {
    Falsified,
    Satisfied,
    /// Exactly one literal is open: its variable must take this value.
    Unit(u128, bool),
    Unresolved,
}

/// The literals of `c` whose variable `a` leaves unassigned, in order.
pub open spec fn unresolved(c: Seq<Atom>, a: Seq<Option<bool>>) -> Seq<Atom>
    decreases c.len(),
{
    if c.len() == 0 {
        Seq::empty()
    } else {
        let u = unresolved(c.drop_last(), a);
        if lit_value(c.last(), a) is None {
            u.push(c.last())
        } else {
            u
        }
    }
}

/// The status of clause `c` under `a`: satisfied if some literal holds;
/// otherwise falsified, unit or unresolved as none, one or more of its
/// literals are open.
pub open spec fn classify(c: Seq<Atom>, a: Seq<Option<bool>>) -> ClauseState {
    if exists|j: int| 0 <= j < c.len() && lit_value(#[trigger] c[j], a) == Some(true) {
        ClauseState::Satisfied
    } else {
        let u = unresolved(c, a);
        if u.len() == 0 {
            ClauseState::Falsified
        } else if u.len() == 1 {
            ClauseState::Unit(u[0].spec_var(), u[0].spec_to_satisfy())
        } else {
            ClauseState::Unresolved
        }
    }
}

/// The number of unassigned variables.
pub open spec fn count_unassigned(a: Seq<Option<bool>>) -> nat
    decreases a.len(),
{
    if a.len() == 0 {
        0
    } else {
        count_unassigned(a.drop_last()) + if a.last() is None {
            1nat
        } else {
            0nat
        }
    }
}

pub(crate) proof fn lemma_count_update(a: Seq<Option<bool>>, i: int, x: Option<bool>)
    requires
        0 <= i < a.len(),
    ensures
        count_unassigned(a.update(i, x)) + (if a[i] is None { 1int } else { 0int })
            == count_unassigned(a) + (if x is None { 1int } else { 0int }),
    decreases a.len(),
{
    let b = a.update(i, x);
    if i == a.len() - 1 {
        assert(b.drop_last() =~= a.drop_last());
    } else {
        lemma_count_update(a.drop_last(), i, x);
        assert(b.drop_last() =~= a.drop_last().update(i, x));
    }
}

proof fn lemma_unresolved_members(c: Seq<Atom>, a: Seq<Option<bool>>)
    ensures
        forall|k: int|
            0 <= k < unresolved(c, a).len() ==> exists|j: int|
                0 <= j < c.len() && c[j] == #[trigger] unresolved(c, a)[k],
        forall|k: int| 0 <= k < unresolved(c, a).len() ==> lit_value(#[trigger] unresolved(c, a)[k], a) is None,
        forall|j: int|
            0 <= j < c.len() && lit_value(#[trigger] c[j], a) is None ==> exists|k: int|
                0 <= k < unresolved(c, a).len() && unresolved(c, a)[k] == c[j],
    decreases c.len(),
{
    if c.len() > 0 {
        let d = c.drop_last();
        lemma_unresolved_members(d, a);
        let u = unresolved(c, a);
        let v = unresolved(d, a);
        assert forall|k: int| 0 <= k < u.len() implies exists|j: int|
            0 <= j < c.len() && c[j] == #[trigger] u[k] by {
            if k < v.len() {
                let j = choose|j: int| 0 <= j < d.len() && d[j] == v[k];
                assert(c[j] == u[k]);
            } else {
                assert(c[c.len() - 1] == u[k]);
            }
        }
        assert forall|j: int| 0 <= j < c.len() && lit_value(#[trigger] c[j], a) is None implies exists|k: int|
            0 <= k < u.len() && u[k] == c[j] by {
            if j < d.len() {
                assert(d[j] == c[j]);
                let k = choose|k: int| 0 <= k < v.len() && v[k] == d[j];
                assert(u[k] == c[j]);
            } else {
                assert(u[u.len() - 1] == c[j]);
            }
        }
    }
}

/// A unit clause forces its open literal in every extension that satisfies it.
proof fn lemma_unit_forces(c: Seq<Atom>, a: Seq<Option<bool>>, m: Seq<Option<bool>>)
    requires
        classify(c, a) is Unit,
        extends(m, a),
        clause_holds(c, m),
    ensures
        value_of(m, classify(c, a)->Unit_0) == Some(classify(c, a)->Unit_1),
        value_of(a, classify(c, a)->Unit_0) is None,
{
    lemma_unresolved_members(c, a);
    let u = unresolved(c, a);
    let j = choose|j: int| 0 <= j < c.len() && lit_value(#[trigger] c[j], m) == Some(true);
    if lit_value(c[j], a) is Some {
        assert(lit_value(c[j], a) == Some(true));
    } else {
        let k = choose|k: int| 0 <= k < u.len() && u[k] == c[j];
        assert(k == 0);
    }
    assert(lit_value(u[0], a) is None);
}

proof fn lemma_undo_log_extends(before: Seq<Option<bool>>, after: Seq<Option<bool>>, t: Seq<u128>)
    requires
        undo_log(before, after, t),
    ensures
        extends(after, before),
{
    assert forall|i: int| 0 <= i < before.len() && (#[trigger] before[i]) is Some implies after[i] == before[i] by {
        if listed(t, i + 1) {
            let k = choose|k: int| 0 <= k < t.len() && t[k] as int == i + 1;
            assert(before[t[k] - 1] is None);
        }
    }
}

/// Once a unit clause is satisfied or unresolved in an extension, the
/// extension gives its open literal the forced value.
proof fn lemma_unit_settled(c: Seq<Atom>, a: Seq<Option<bool>>, b: Seq<Option<bool>>)
    requires
        classify(c, a) is Unit,
        extends(b, a),
        classify(c, b) is Satisfied || classify(c, b) is Unresolved,
    ensures
        value_of(b, classify(c, a)->Unit_0) == Some(classify(c, a)->Unit_1),
{
    lemma_unresolved_members(c, a);
    lemma_unresolved_members(c, b);
    let u = unresolved(c, a);
    if classify(c, b) is Satisfied {
        let j = choose|j: int| 0 <= j < c.len() && lit_value(#[trigger] c[j], b) == Some(true);
        if lit_value(c[j], a) is Some {
            assert(lit_value(c[j], a) == Some(true));
        } else {
            let k = choose|k: int| 0 <= k < u.len() && u[k] == c[j];
            assert(k == 0);
        }
    } else {
        lemma_unresolved_shrinks(c, a, b);
    }
}

/// Extending an assignment opens no literal.
proof fn lemma_unresolved_shrinks(c: Seq<Atom>, a: Seq<Option<bool>>, b: Seq<Option<bool>>)
    requires
        extends(b, a),
    ensures
        unresolved(c, b).len() <= unresolved(c, a).len(),
    decreases c.len(),
{
    if c.len() > 0 {
        lemma_unresolved_shrinks(c.drop_last(), a, b);
        let v = c.last().spec_var();
        if 1 <= v <= a.len() && a[v - 1] is Some {
            assert(b[v - 1] == a[v - 1]);
        }
    }
}

/// A falsified clause holds in no extension.
proof fn lemma_falsified_fails(c: Seq<Atom>, a: Seq<Option<bool>>, m: Seq<Option<bool>>)
    requires
        classify(c, a) is Falsified,
        extends(m, a),
    ensures
        !clause_holds(c, m),
{
    lemma_unresolved_members(c, a);
    if clause_holds(c, m) {
        let j = choose|j: int| 0 <= j < c.len() && lit_value(#[trigger] c[j], m) == Some(true);
        if lit_value(c[j], a) is Some {
            assert(lit_value(c[j], a) == Some(true));
        } else {
            let k = choose|k: int| 0 <= k < unresolved(c, a).len() && unresolved(c, a)[k] == c[j];
        }
    }
}

/// Under a total assignment a clause over its variables is satisfied or
/// falsified, and satisfied exactly when it holds.
proof fn lemma_total_decided(c: Seq<Atom>, a: Seq<Option<bool>>)
    requires
        is_total(a),
        clause_in_range(c, a.len() as int),
    ensures
        classify(c, a) is Satisfied <==> clause_holds(c, a),
        !(classify(c, a) is Unresolved),
        !(classify(c, a) is Unit),
{
    lemma_unresolved_members(c, a);
    let u = unresolved(c, a);
    if u.len() > 0 {
        let j = choose|j: int| 0 <= j < c.len() && c[j] == u[0];
        assert(a[c[j].spec_var() - 1] is Some);
    }
}

/// The clauses of a formula together with the assignment under construction.
pub struct KnowledgeBase<'a> {
    clauses: &'a [Clause],
    assignment: Assignment,
}

impl<'a> KnowledgeBase<'a> {
    pub closed spec fn formula(&self) -> Seq<Seq<Atom>> {
        Seq::new(self.clauses@.len(), |i: int| self.clauses@[i].0@)
    }

    pub closed spec fn values(&self) -> Seq<Option<bool>> {
        self.assignment@
    }

    /// Every literal names a variable of the assignment.
    pub open spec fn wf(&self) -> bool {
        formula_in_range(self.formula(), self.values().len() as int)
    }

    /// Whether the literal holds, fails, or is open under the assignment.
    pub fn satisfied(&self, a: Atom) -> (r: Option<bool>)
        ensures
            r == lit_value(a, self.values()),
    {
        let n = self.assignment.values.len();
        let v = a.var();
        if v < 1 || v > n as u128 {
            return None;
        }
        match self.assignment.values[(v - 1) as usize] {
            Some(value) => match a {
                Atom::Pos(_) => Some(value),
                Atom::Neg(_) => Some(!value),
            },
            None => None,
        }
    }

    /// Assigns `v` to the unassigned variable `x`.
    pub fn mutate(&mut self, x: u128, v: bool)
        requires
            1 <= x <= old(self).values().len(),
            old(self).values()[x - 1] is None,
        ensures
            final(self).values() == old(self).values().update(x - 1, Some(v)),
            final(self).formula() == old(self).formula(),
    {
        let n = self.assignment.values.len();
        assert(x <= n);
        self.assignment.values.set((x - 1) as usize, Some(v));
    }

    /// Returns the assigned variable `x` to the unassigned ones.
    pub fn unassign(&mut self, x: u128)
        requires
            1 <= x <= old(self).values().len(),
            old(self).values()[x - 1] is Some,
        ensures
            final(self).values() == old(self).values().update(x - 1, None),
            final(self).formula() == old(self).formula(),
    {
        let n = self.assignment.values.len();
        assert(x <= n);
        self.assignment.values.set((x - 1) as usize, None);
    }
}

/// Classifies the clause under the knowledge base's assignment.
fn state(c: &Clause, kb: &KnowledgeBase) -> (r: ClauseState)
    ensures
        r == classify(c.0@, kb.values()),
{
    let ghost a = kb.values();
    let ghost cs = c.0@;
    let mut unassigned: Vec<(u128, bool)> = Vec::new();
    let mut i: usize = 0;
    while i < c.0.len()
        invariant
            i <= cs.len(),
            cs == c.0@,
            a == kb.values(),
            forall|k: int| 0 <= k < i ==> lit_value(#[trigger] cs[k], a) != Some(true),
            unassigned@ == unresolved(cs.subrange(0, i as int), a).map_values(
                |l: Atom| (l.spec_var(), l.spec_to_satisfy()),
            ),
        decreases cs.len() - i,
    {
        let atom = c.0[i];
        proof {
            assert(cs.subrange(0, i as int + 1).drop_last() =~= cs.subrange(0, i as int));
        }
        match kb.satisfied(atom) {
            Some(true) => {
                return ClauseState::Satisfied;
            },
            Some(false) => {},
            None => {
                unassigned.push((atom.var(), atom.to_satisfy()));
            },
        }
        proof {
            let u = unresolved(cs.subrange(0, i as int + 1), a).map_values(
                |l: Atom| (l.spec_var(), l.spec_to_satisfy()),
            );
            assert(unassigned@ =~= u);
        }
        i = i + 1;
    }
    assert(cs.subrange(0, i as int) =~= cs);
    if unassigned.len() == 0 {
        ClauseState::Falsified
    } else if unassigned.len() == 1 {
        let (var, val) = unassigned[0];
        ClauseState::Unit(var, val)
    } else {
        ClauseState::Unresolved
    }
}


/// Variable `v` stands somewhere in `t`.
pub open spec fn listed(t: Seq<u128>, v: int) -> bool {
    exists|k: int| 0 <= k < t.len() && t[k] as int == v
}

/// `t` lists, without repeats, exactly the variables that are unassigned in
/// `before` and assigned in `after`; elsewhere the two agree.
pub open spec fn undo_log(before: Seq<Option<bool>>, after: Seq<Option<bool>>, t: Seq<u128>) -> bool {
    &&& before.len() == after.len()
    &&& t.no_duplicates()
    &&& forall|k: int| 0 <= k < t.len() ==> 1 <= #[trigger] t[k] <= before.len()
    &&& forall|k: int| 0 <= k < t.len() ==> (#[trigger] before[t[k] - 1]) is None && after[t[k] - 1] is Some
    &&& forall|i: int|
        0 <= i < before.len() && !listed(t, i + 1) ==> #[trigger] after[i] == before[i]
}

/// Assigns every variable that a unit clause forces, pass after pass over the
/// clauses, until a pass forces nothing (`true`) or a clause is falsified
/// (`false`). Each variable it assigns is appended to `trail`; nothing is
/// undone here. No model that extends the assignment on entry is lost.
fn unit_propagation(kb: &mut KnowledgeBase, trail: &mut Vec<u128>) -> (r: bool)
    requires
        old(kb).wf(),
        old(trail)@.len() == 0,
    ensures
        final(kb).formula() == old(kb).formula(),
        undo_log(old(kb).values(), final(kb).values(), final(trail)@),
        count_unassigned(final(kb).values()) + final(trail)@.len() == count_unassigned(old(kb).values()),
        forall|m: Seq<Option<bool>>|
            is_model(old(kb).formula(), m, old(kb).values().len() as int) && extends(m, old(kb).values())
                ==> extends(m, final(kb).values()),
        r ==> forall|i: int|
            0 <= i < final(kb).formula().len() ==> {
                let st = classify(#[trigger] final(kb).formula()[i], final(kb).values());
                st is Satisfied || st is Unresolved
            },
        !r ==> forall|m: Seq<Option<bool>>|
            !(is_model(old(kb).formula(), m, old(kb).values().len() as int) && extends(m, old(kb).values())),
        !r ==> exists|i: int|
            0 <= i < final(kb).formula().len() && (#[trigger] classify(final(kb).formula()[i], final(kb).values()))
                is Falsified,
        r ==> forall|i: int|
            0 <= i < old(kb).formula().len() && (#[trigger] classify(old(kb).formula()[i], old(kb).values())) is Unit
                ==> value_of(final(kb).values(), classify(old(kb).formula()[i], old(kb).values())->Unit_0)
                == Some(classify(old(kb).formula()[i], old(kb).values())->Unit_1),
{
    let ghost f = kb.formula();
    let ghost a0 = kb.values();
    let ghost n = a0.len() as int;
    loop
        invariant
            f == old(kb).formula(),
            a0 == old(kb).values(),
            n == a0.len(),
            kb.formula() == f,
            kb.values().len() == n,
            kb.wf(),
            undo_log(a0, kb.values(), trail@),
            count_unassigned(kb.values()) + trail@.len() == count_unassigned(a0),
            forall|m: Seq<Option<bool>>| is_model(f, m, n) && extends(m, a0) ==> extends(m, kb.values()),
        decreases count_unassigned(kb.values()),
    {
        let ghost start = kb.values();
        let mut changed = false;
        let mut i: usize = 0;
        while i < kb.clauses.len()
            invariant
                f == old(kb).formula(),
                a0 == old(kb).values(),
                n == a0.len(),
                kb.formula() == f,
                kb.values().len() == n,
                kb.wf(),
                i <= f.len(),
                undo_log(a0, kb.values(), trail@),
                count_unassigned(kb.values()) + trail@.len() == count_unassigned(a0),
                forall|m: Seq<Option<bool>>| is_model(f, m, n) && extends(m, a0) ==> extends(m, kb.values()),
                !changed ==> kb.values() == start,
                !changed ==> forall|k: int|
                    0 <= k < i ==> {
                        let st = classify(#[trigger] f[k], kb.values());
                        st is Satisfied || st is Unresolved
                    },
                changed ==> count_unassigned(kb.values()) < count_unassigned(start),
            decreases f.len() - i,
        {
            assert(f[i as int] == kb.clauses@[i as int].0@);
            let st = state(&kb.clauses[i], kb);
            match st {
                ClauseState::Falsified => {
                    proof {
                        assert forall|m: Seq<Option<bool>>| !(is_model(f, m, n) && extends(m, a0)) by {
                            if is_model(f, m, n) && extends(m, a0) {
                                lemma_falsified_fails(f[i as int], kb.values(), m);
                            }
                        }
                        assert(classify(f[i as int], kb.values()) is Falsified);
                    }
                    return false;
                },
                ClauseState::Unit(var, val) => {
                    let ghost before = kb.values();
                    proof {
                        lemma_unresolved_members(f[i as int], before);
                        let u = unresolved(f[i as int], before);
                        let j = choose|j: int| 0 <= j < f[i as int].len() && f[i as int][j] == u[0];
                        assert(clause_in_range(f[i as int], n));
                        assert(1 <= f[i as int][j].spec_var() <= n);
                    }
                    kb.mutate(var, val);
                    proof {
                        let after = kb.values();
                        lemma_count_update(before, var - 1, Some(val));
                        assert forall|m: Seq<Option<bool>>| is_model(f, m, n) && extends(m, a0) implies extends(
                            m,
                            after,
                        ) by {
                            lemma_unit_forces(f[i as int], before, m);
                        }
                        assert(!trail@.contains(var)) by {
                            if trail@.contains(var) {
                                let k = choose|k: int| 0 <= k < trail@.len() && trail@[k] == var;
                                assert(a0[trail@[k] - 1] is None);
                                assert(before[trail@[k] - 1] is Some);
                            }
                        }
                    }
                    let ghost tr0 = trail@;
                    trail.push(var);
                    proof {
                        let t = trail@;
                        assert forall|k: int| 0 <= k < t.len() implies 1 <= #[trigger] t[k] <= n by {
                            if k < t.len() - 1 {
                                assert(t[k] == tr0[k]);
                            }
                        }
                        assert forall|i: int|
                            0 <= i < n && !listed(t, i + 1) implies #[trigger] kb.values()[i]
                            == a0[i] by {
                            assert(!listed(tr0, i + 1)) by {
                                if listed(tr0, i + 1) {
                                    let k = choose|k: int| 0 <= k < tr0.len() && tr0[k] as int == i + 1;
                                    assert(t[k] == tr0[k]);
                                }
                            }
                            assert(t[t.len() - 1] == var);
                            assert(var as int != i + 1);
                            assert(before[i] == a0[i]);
                        }
                    }
                    changed = true;
                },
                ClauseState::Satisfied => {},
                ClauseState::Unresolved => {},
            }
            i = i + 1;
        }
        if !changed {
            proof {
                assert forall|i: int|
                    0 <= i < f.len() && (#[trigger] classify(f[i], a0)) is Unit implies value_of(
                    kb.values(),
                    classify(f[i], a0)->Unit_0,
                ) == Some(classify(f[i], a0)->Unit_1) by {
                    lemma_undo_log_extends(a0, kb.values(), trail@);
                    lemma_unit_settled(f[i], a0, kb.values());
                }
            }
            return true;
        }
    }
}


/// `a` with every variable listed in `t` unassigned.
pub open spec fn cleared(a: Seq<Option<bool>>, t: Seq<u128>) -> Seq<Option<bool>> {
    Seq::new(a.len(), |i: int| if listed(t, i + 1) { None } else { a[i] })
}

proof fn lemma_undo_restores(before: Seq<Option<bool>>, after: Seq<Option<bool>>, t: Seq<u128>)
    requires
        undo_log(before, after, t),
    ensures
        cleared(after, t) == before,
        forall|k: int| 0 <= k < t.len() ==> (#[trigger] after[t[k] - 1]) is Some,
{
    assert forall|k: int| 0 <= k < t.len() implies (#[trigger] after[t[k] - 1]) is Some by {
        assert(before[t[k] - 1] is None);
    }
    assert forall|i: int| 0 <= i < before.len() implies #[trigger] cleared(after, t)[i] == before[i] by {
        if listed(t, i + 1) {
            let k = choose|k: int| 0 <= k < t.len() && t[k] as int == i + 1;
            assert(before[t[k] - 1] is None);
        }
    }
    assert(cleared(after, t) =~= before);
}

/// Unassigns every variable on the trail, most recent first, and empties it.
fn undo(kb: &mut KnowledgeBase, trail: &mut Vec<u128>)
    requires
        old(trail)@.no_duplicates(),
        forall|k: int|
            0 <= k < old(trail)@.len() ==> 1 <= #[trigger] old(trail)@[k] <= old(kb).values().len(),
        forall|k: int|
            0 <= k < old(trail)@.len() ==> (#[trigger] old(kb).values()[old(trail)@[k] - 1]) is Some,
    ensures
        final(kb).formula() == old(kb).formula(),
        final(kb).values() == cleared(old(kb).values(), old(trail)@),
        final(trail)@.len() == 0,
{
    let ghost t0 = trail@;
    let ghost a0 = kb.values();
    assert(cleared(a0, t0.subrange(t0.len() as int, t0.len() as int)) =~= a0);
    assert(t0.subrange(0, t0.len() as int) =~= t0);
    while trail.len() > 0
        invariant
            t0 == old(trail)@,
            a0 == old(kb).values(),
            t0.no_duplicates(),
            forall|k: int| 0 <= k < t0.len() ==> 1 <= #[trigger] t0[k] <= a0.len(),
            forall|k: int| 0 <= k < t0.len() ==> (#[trigger] a0[t0[k] - 1]) is Some,
            kb.formula() == old(kb).formula(),
            trail@.len() <= t0.len(),
            trail@ == t0.subrange(0, trail@.len() as int),
            kb.values() == cleared(a0, t0.subrange(trail@.len() as int, t0.len() as int)),
        decreases trail@.len(),
    {
        let ghost len = trail@.len() as int;
        let ghost suffix = t0.subrange(len, t0.len() as int);
        let v = match trail.pop() {
            Some(v) => v,
            None => 0,
        };
        proof {
            assert(v == t0[len - 1]);
            assert(a0[t0[len - 1] - 1] is Some);
            assert(!suffix.contains(v)) by {
                if suffix.contains(v) {
                    let k = choose|k: int| 0 <= k < suffix.len() && suffix[k] == v;
                    assert(t0[len + k] == t0[len - 1]);
                }
            }
            assert(trail@ =~= t0.subrange(0, len - 1));
        }
        kb.unassign(v);
        proof {
            let next = t0.subrange(len - 1, t0.len() as int);
            assert forall|i: int| 0 <= i < a0.len() implies #[trigger] kb.values()[i] == cleared(
                a0,
                next,
            )[i] by {
                if listed(next, i + 1) {
                    let k = choose|k: int| 0 <= k < next.len() && next[k] as int == i + 1;
                    if k > 0 {
                        assert(suffix[k - 1] == next[k]);
                    }
                } else {
                    assert(next[0] == v);
                    assert forall|k: int| 0 <= k < suffix.len() implies suffix[k] as int != i + 1 by {
                        assert(next[k + 1] == suffix[k]);
                    }
                }
            }
            assert(kb.values() =~= cleared(a0, next));
        }
    }
    assert(t0.subrange(0, t0.len() as int) =~= t0);
}

/// The smallest unassigned variable, if any.
fn choose_literal(kb: &KnowledgeBase) -> (r: Option<u128>)
    ensures
        match r {
            Some(v) => 1 <= v <= kb.values().len() && kb.values()[v - 1] is None && forall|i: int|
                0 <= i < v - 1 ==> (#[trigger] kb.values()[i]) is Some,
            None => is_total(kb.values()),
        },
{
    let n = kb.assignment.values.len();
    let mut i: usize = 0;
    while i < n
        invariant
            i <= n,
            n == kb.values().len(),
            forall|k: int| 0 <= k < i ==> (#[trigger] kb.values()[k]) is Some,
        decreases n - i,
    {
        if kb.assignment.values[i].is_none() {
            return Some((i + 1) as u128);
        }
        i = i + 1;
    }
    None
}


/// The outcome of exploring one branch of the search.
#[derive(Debug)]
enum ControlFlow {
    /// A model of the formula.
    Done(Assignment),
    /// No model extends the assignment the branch started from.
    Backtrack,
}

/// `x` comes before `y` in the order of the search: at the first variable
/// where they differ, `x` is true and `y` false.
pub open spec fn precedes(x: Seq<Option<bool>>, y: Seq<Option<bool>>) -> bool {
    exists|i: int|
        0 <= i < x.len() && i < y.len() && (forall|j: int| 0 <= j < i ==> x[j] == y[j]) && #[trigger] x[i]
            == Some(true) && y[i] == Some(false)
}

proof fn lemma_extends_trans(x: Seq<Option<bool>>, y: Seq<Option<bool>>, z: Seq<Option<bool>>)
    requires
        extends(x, y),
        extends(y, z),
    ensures
        extends(x, z),
{
    assert forall|i: int| 0 <= i < z.len() && (#[trigger] z[i]) is Some implies x[i] == z[i] by {
        assert(y[i] == z[i]);
    }
}

/// Searches for a model extending the current assignment: propagates, then
/// decides the smallest unassigned variable, true first, then false. The
/// model found is the first, in that order, of those extending the entry
/// assignment. On `Backtrack` the assignment is as it was on entry.
fn explore(kb: &mut KnowledgeBase) -> (r: ControlFlow)
    requires
        old(kb).wf(),
    ensures
        final(kb).formula() == old(kb).formula(),
        final(kb).values().len() == old(kb).values().len(),
        match r {
            ControlFlow::Done(m) => is_model(old(kb).formula(), m@, old(kb).values().len() as int) && extends(
                m@,
                old(kb).values(),
            ) && forall|m2: Seq<Option<bool>>|
                is_model(old(kb).formula(), m2, old(kb).values().len() as int) && extends(m2, old(kb).values())
                    ==> !#[trigger] precedes(m2, m@),
            ControlFlow::Backtrack => final(kb).values() == old(kb).values() && forall|m: Seq<Option<bool>>|
                !(is_model(old(kb).formula(), m, old(kb).values().len() as int) && extends(m, old(kb).values())),
        },
    decreases count_unassigned(old(kb).values()),
{
    let ghost f = kb.formula();
    let ghost a0 = kb.values();
    let ghost n = a0.len() as int;
    let mut trail: Vec<u128> = Vec::new();
    if !unit_propagation(kb, &mut trail) {
        proof {
            lemma_undo_restores(a0, kb.values(), trail@);
        }
        undo(kb, &mut trail);
        return ControlFlow::Backtrack;
    }
    let ghost a1 = kb.values();
    match choose_literal(kb) {
        None => {
            proof {
                assert forall|i: int| 0 <= i < f.len() implies clause_holds(#[trigger] f[i], a1) by {
                    lemma_total_decided(f[i], a1);
                }
                lemma_undo_log_extends(a0, a1, trail@);
                assert forall|m2: Seq<Option<bool>>|
                    is_model(f, m2, n) && extends(m2, a0) implies !#[trigger] precedes(m2, a1) by {
                    assert(extends(m2, a1));
                    if precedes(m2, a1) {
                        let i = choose|i: int|
                            0 <= i < m2.len() && i < a1.len() && (forall|j: int| 0 <= j < i ==> m2[j] == a1[j])
                                && #[trigger] m2[i] == Some(true) && a1[i] == Some(false);
                        assert(a1[i] is Some);
                    }
                }
            }
            ControlFlow::Done(kb.assignment.duplicate())
        },
        Some(var) => {
            kb.mutate(var, true);
            proof {
                lemma_count_update(a1, var - 1, Some(true));
            }
            let ghost a_true = kb.values();
            proof {
                lemma_undo_log_extends(a0, a1, trail@);
            }
            match explore(kb) {
                ControlFlow::Done(m) => {
                    proof {
                        assert(extends(a_true, a1));
                        lemma_extends_trans(m@, a_true, a1);
                        lemma_extends_trans(m@, a1, a0);
                        assert(a_true == a1.update(var - 1, Some(true)));
                        assert(a_true[var - 1] == Some(true));
                        assert(m@[var - 1] == Some(true));
                        assert forall|m2: Seq<Option<bool>>|
                            is_model(f, m2, n) && extends(m2, a0) implies !#[trigger] precedes(m2, m@) by {
                            assert(extends(m2, a1));
                            assert(m2[var - 1] is Some);
                            if m2[var - 1] == Some(true) {
                                assert(extends(m2, a_true));
                            } else if precedes(m2, m@) {
                                let i = choose|i: int|
                                    0 <= i < m2.len() && i < m@.len() && (forall|j: int| 0 <= j < i ==> m2[j] == m@[j])
                                        && #[trigger] m2[i] == Some(true) && m@[i] == Some(false);
                                if i < var - 1 {
                                    assert(a1[i] is Some);
                                    assert(m2[i] == a1[i]);
                                    assert(a_true[i] == a1[i]);
                                } else if i > var - 1 {
                                    assert(m2[var - 1] == m@[var - 1]);
                                }
                            }
                        }
                    }
                    ControlFlow::Done(m)
                },
                ControlFlow::Backtrack => {
                    kb.unassign(var);
                    assert(kb.values() =~= a1);
                    kb.mutate(var, false);
                    let ghost a_false = kb.values();
                    proof {
                        lemma_count_update(a1, var - 1, Some(false));
                    }
                    match explore(kb) {
                        ControlFlow::Done(m) => {
                            proof {
                                assert(extends(a_false, a1));
                                lemma_extends_trans(m@, a_false, a1);
                                lemma_extends_trans(m@, a1, a0);
                                assert forall|m2: Seq<Option<bool>>|
                                    is_model(f, m2, n) && extends(m2, a0) implies !#[trigger] precedes(m2, m@) by {
                                    assert(extends(m2, a1));
                                    assert(m2[var - 1] is Some);
                                    if m2[var - 1] == Some(true) {
                                        assert(extends(m2, a_true));
                                    } else {
                                        assert(m2[var - 1] == Some(false));
                                        assert(extends(m2, a_false));
                                    }
                                }
                            }
                            ControlFlow::Done(m)
                        },
                        ControlFlow::Backtrack => {
                            kb.unassign(var);
                            assert(kb.values() =~= a1);
                            proof {
                                assert forall|m: Seq<Option<bool>>| !(is_model(f, m, n) && extends(m, a0)) by {
                                    if is_model(f, m, n) && extends(m, a0) {
                                        assert(extends(m, a1));
                                        assert(m[var - 1] is Some);
                                        if m[var - 1] == Some(true) {
                                            assert(extends(m, a_true));
                                        } else {
                                            assert(m[var - 1] == Some(false));
                                            assert(a_false == a1.update(var - 1, Some(false)));
                                            assert(extends(m, a_false));
                                        }
                                    }
                                }
                                lemma_undo_restores(a0, a1, trail@);
                            }
                            undo(kb, &mut trail);
                            ControlFlow::Backtrack
                        },
                    }
                },
            }
        },
    }
}

/// The knowledge base of a formula, with every variable unassigned.
fn build_kb<'a>(dimacs: &'a Dimacs) -> (r: KnowledgeBase<'a>)
    requires
        dimacs.vars <= usize::MAX,
    ensures
        r.formula() == dimacs.clauses_view(),
        r.values().len() == dimacs.vars,
        forall|i: int| 0 <= i < r.values().len() ==> (#[trigger] r.values()[i]) is None,
{
    let clauses = dimacs.clauses.as_slice();
    let assignment = Assignment::new(dimacs.vars);
    let kb = KnowledgeBase { clauses, assignment };
    assert(kb.formula() =~= dimacs.clauses_view());
    kb
}

/// What `solve` may return for the clauses `cs` over `n` variables: a model,
/// or `None` where there is none.
pub open spec fn verdict(cs: Seq<Seq<Atom>>, n: int, r: Option<Seq<Option<bool>>>) -> bool {
    match r {
        Some(m) => is_model(cs, m, n),
        None => !satisfiable(cs, n),
    }
}

/// Decides the formula: `Some` model exactly when one exists, and then every
/// clause holds under it; the model is the first in the order that tries
/// `true` before `false` on each variable from the smallest, so every run on
/// a formula returns the same one. A clause without literals is falsified under every
/// assignment, so a formula that holds one is unsatisfiable; a formula without
/// clauses is satisfied by any total assignment.
pub fn solve(dimacs: &Dimacs) -> (r: Option<Assignment>)
    requires
        dimacs.wf(),
        dimacs.vars <= usize::MAX,
    ensures
        verdict(
            dimacs.clauses_view(),
            dimacs.vars as int,
            match r {
                Some(m) => Some(m@),
                None => None,
            },
        ),
        r is Some ==> forall|m2: Seq<Option<bool>>|
            is_model(dimacs.clauses_view(), m2, dimacs.vars as int) ==> !#[trigger] precedes(m2, r->Some_0@),
{
    let mut kb = build_kb(dimacs);
    match explore(&mut kb) {
        ControlFlow::Done(assignment) => Some(assignment),
        ControlFlow::Backtrack => {
            proof {
                let f = dimacs.clauses_view();
                let n = dimacs.vars as int;
                assert forall|m: Seq<Option<bool>>| !is_model(f, m, n) by {
                    if is_model(f, m, n) {
                        assert(extends(m, kb.values()));
                    }
                }
            }
            None
        },
    }
}


/// Soundness: under a model that `solve` returns every clause has a literal
/// whose polarity agrees with the model (`formula_holds`), and `eval` may be
/// called on it and returns `true`.
pub proof fn solution_satisfies_every_clause(cs: Seq<Seq<Atom>>, n: int, m: Seq<Option<bool>>)
    requires
        verdict(cs, n, Some(m)),
        formula_in_range(cs, n),
    ensures
        covers(cs, m),
        formula_holds(cs, m),
{
    assert forall|i: int, j: int| 0 <= i < cs.len() && 0 <= j < cs[i].len() implies (#[trigger] value_of(
        m,
        cs[i][j].spec_var(),
    )) is Some by {
        assert(clause_in_range(cs[i], n));
        assert(atom_in_range(cs[i][j], n));
    }
}

/// The verdict class is a function of the formula: any two results that
/// `solve` may give for it are both models or both `None`.
pub proof fn verdict_class_is_determined(
    cs: Seq<Seq<Atom>>,
    n: int,
    r1: Option<Seq<Option<bool>>>,
    r2: Option<Seq<Option<bool>>>,
)
    requires
        verdict(cs, n, r1),
        verdict(cs, n, r2),
    ensures
        r1 is Some <==> r2 is Some,
{
}

proof fn lemma_agree_upto(a: Seq<Option<bool>>, b: Seq<Option<bool>>, i: int)
    requires
        a.len() == b.len(),
        is_total(a),
        is_total(b),
        !precedes(a, b),
        !precedes(b, a),
        0 <= i <= a.len(),
    ensures
        forall|j: int| 0 <= j < i ==> a[j] == b[j],
    decreases i,
{
    if i > 0 {
        lemma_agree_upto(a, b, i - 1);
        let k = i - 1;
        if a[k] != b[k] {
            assert(a[k] is Some && b[k] is Some);
            if a[k] == Some(true) {
                assert(b[k] == Some(false));
                assert(precedes(a, b));
            } else {
                assert(a[k] == Some(false));
                assert(b[k] == Some(true));
                assert(precedes(b, a));
            }
        }
    }
}

/// Runs are reproducible: two models that `solve` may return for a formula,
/// each first in the search order among all models, are the same model.
pub proof fn solve_model_is_determined(cs: Seq<Seq<Atom>>, n: int, m1: Seq<Option<bool>>, m2: Seq<Option<bool>>)
    requires
        verdict(cs, n, Some(m1)),
        verdict(cs, n, Some(m2)),
        forall|m: Seq<Option<bool>>| is_model(cs, m, n) ==> !#[trigger] precedes(m, m1),
        forall|m: Seq<Option<bool>>| is_model(cs, m, n) ==> !#[trigger] precedes(m, m2),
    ensures
        m1 == m2,
{
    lemma_agree_upto(m1, m2, m1.len() as int);
    assert(m1 =~= m2);
}

/// The verdict agrees with enumerating every total assignment: `solve`
/// returns a model exactly when some total assignment satisfies every clause.
pub proof fn verdict_agrees_with_enumeration(cs: Seq<Seq<Atom>>, n: int, r: Option<Seq<Option<bool>>>)
    requires
        verdict(cs, n, r),
    ensures
        r is Some <==> exists|m: Seq<Option<bool>>| m.len() == n && is_total(m) && formula_holds(cs, m),
{
    if r is Some {
        let m = r->0;
        assert(m.len() == n && is_total(m) && formula_holds(cs, m));
    }
    if exists|m: Seq<Option<bool>>| m.len() == n && is_total(m) && formula_holds(cs, m) {
        let m = choose|m: Seq<Option<bool>>| m.len() == n && is_total(m) && formula_holds(cs, m);
        assert(is_model(cs, m, n));
    }
}

/// A formula without clauses holds under every total assignment, so it is
/// satisfiable.
pub proof fn no_clauses_are_satisfiable(n: nat, m: Seq<Option<bool>>)
    requires
        m.len() == n,
        is_total(m),
    ensures
        is_model(Seq::empty(), m, n as int),
        satisfiable(Seq::empty(), n as int),
{
    assert(is_model(Seq::empty(), m, n as int));
}

/// A clause without literals is falsified under every assignment, and a
/// formula that holds one has no model.
pub proof fn empty_clause_is_contradiction(cs: Seq<Seq<Atom>>, n: int, i: int, a: Seq<Option<bool>>)
    requires
        0 <= i < cs.len(),
        cs[i].len() == 0,
    ensures
        classify(cs[i], a) is Falsified,
        !satisfiable(cs, n),
{
    assert forall|m: Seq<Option<bool>>| !is_model(cs, m, n) by {
        if is_model(cs, m, n) {
            assert(clause_holds(cs[i], m));
        }
    }
}

} // verus!
