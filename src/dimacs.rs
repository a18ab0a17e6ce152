use vstd::prelude::*;
use vstd::string::StringSliceAdditionalSpecFns;

verus! {

/// A literal: a variable identifier together with the polarity that satisfies it.
#[derive(Debug, Clone, Copy, PartialEq, Eq, PartialOrd, Ord)]
pub enum Atom {
    Pos(u128),
    Neg(u128),
}

impl Atom {
    pub open spec fn spec_var(self) -> u128 {
        match self {
            Atom::Pos(v) => v,
            Atom::Neg(v) => v,
        }
    }

    pub open spec fn spec_to_satisfy(self) -> bool {
        self is Pos
    }

    /// The variable this literal speaks of.
    pub fn var(self) -> (r: u128)
        ensures
            r == self.spec_var(),
    {
        match self {
            Atom::Pos(v) => v,
            Atom::Neg(v) => v,
        }
    }

    /// The value the variable must take for this literal to hold.
    pub fn to_satisfy(self) -> (r: bool)
        ensures
            r == self.spec_to_satisfy(),
    {
        match self {
            Atom::Pos(_) => true,
            Atom::Neg(_) => false,
        }
    }
}


/// A disjunction of literals. A clause without literals can never hold.
#[derive(Debug, Clone, PartialEq, Eq)]
pub struct Clause(pub Vec<Atom>);

impl Clause {
    /// The literals, in the order they were written.
    pub fn iter(&self) -> (r: &[Atom])
        ensures
            r@ == self.0@,
    {
        self.0.as_slice()
    }

    pub fn is_empty(&self) -> (r: bool)
        ensures
            r == (self.0@.len() == 0),
    {
        self.0.len() == 0
    }
}

/// A formula in conjunctive normal form over the variables `1..=vars`.
#[derive(Debug)]
pub struct Dimacs {
    pub vars: u128,
    pub clauses: Vec<Clause>,
}

impl Dimacs {
    /// The clauses, each as the sequence of its literals.
    pub open spec fn clauses_view(&self) -> Seq<Seq<Atom>> {
        Seq::new(self.clauses@.len(), |i: int| self.clauses@[i].0@)
    }

    /// Every literal names a variable in `1..=vars`.
    pub open spec fn wf(&self) -> bool {
        formula_in_range(self.clauses_view(), self.vars as int)
    }
}

pub open spec fn atom_in_range(a: Atom, vars: int) -> bool {
    1 <= a.spec_var() <= vars
}

pub open spec fn clause_in_range(c: Seq<Atom>, vars: int) -> bool {
    forall|j: int| 0 <= j < c.len() ==> atom_in_range(#[trigger] c[j], vars)
}

pub open spec fn formula_in_range(cs: Seq<Seq<Atom>>, vars: int) -> bool {
    forall|i: int| 0 <= i < cs.len() ==> clause_in_range(#[trigger] cs[i], vars)
}

#[derive(Debug)]
pub enum ParseError {
    Message(String),
}


// The input format. A header `p cnf <vars> <clauses>` ends with a newline; then
// come zero or more clause lines separated by single newlines (a final newline
// ends the last line and starts none). A clause line holds nonzero signed
// decimal literals separated by blanks (space, tab, carriage return); a line
// without literals is the empty clause. Every literal's absolute value lies in
// `1..=vars`. The declared clause count is read but not held to the number of
// lines.

pub open spec fn is_digit(b: u8) -> bool {
    48 <= b <= 57
}

pub open spec fn is_blank(b: u8) -> bool {
    b == 32 || b == 9 || b == 13
}

pub open spec fn is_newline(b: u8) -> bool {
    b == 10
}

/// The first position at or after `i` that holds no digit.
pub open spec fn digits_end(s: Seq<u8>, i: int) -> int
    decreases s.len() - i,
{
    if 0 <= i < s.len() && is_digit(s[i]) {
        digits_end(s, i + 1)
    } else {
        i
    }
}

/// The value of the decimal digits `s[i..j]`.
pub open spec fn decimal(s: Seq<u8>, i: int, j: int) -> nat
    decreases j - i,
{
    if j <= i {
        0
    } else {
        decimal(s, i, j - 1) * 10 + (s[j - 1] - 48) as nat
    }
}

/// A run of at least one digit at `i` whose value fits in a `u128`, with the
/// position after it.
pub open spec fn number_at(s: Seq<u8>, i: int) -> Option<(u128, int)> {
    let e = digits_end(s, i);
    if e == i || decimal(s, i, e) > u128::MAX {
        None
    } else {
        Some((decimal(s, i, e) as u128, e))
    }
}

/// A literal at `i` over the variables `1..=vars`, with the position after it.
pub open spec fn literal_at(s: Seq<u8>, i: int, vars: u128) -> Option<(Atom, int)> {
    if 0 <= i < s.len() && s[i] == 45 {
        match number_at(s, i + 1) {
            Some((v, e)) => if 1 <= v <= vars {
                Some((Atom::Neg(v), e))
            } else {
                None
            },
            None => None,
        }
    } else {
        match number_at(s, i) {
            Some((v, e)) => if 1 <= v <= vars {
                Some((Atom::Pos(v), e))
            } else {
                None
            },
            None => None,
        }
    }
}

/// The first position at or after `i` that holds no blank.
pub open spec fn skip_blanks(s: Seq<u8>, i: int) -> int
    decreases s.len() - i,
{
    if 0 <= i < s.len() && is_blank(s[i]) {
        skip_blanks(s, i + 1)
    } else {
        i
    }
}

/// The literals of the line that starts at `i`, with the position of the
/// newline (or the end of input) that ends it.
pub open spec fn clause_at(s: Seq<u8>, i: int, vars: u128) -> Option<(Seq<Atom>, int)>
    decreases s.len() - i,
{
    let k = skip_blanks(s, i);
    if i < 0 || k < i || k >= s.len() || is_newline(s[k]) {
        Some((Seq::empty(), k))
    } else {
        match literal_at(s, k, vars) {
            None => None,
            Some((a, e)) => if e <= k || e > s.len() || (e < s.len() && !is_blank(s[e]) && !is_newline(s[e])) {
                None
            } else {
                match clause_at(s, e, vars) {
                    Some((rest, f)) => Some((seq![a] + rest, f)),
                    None => None,
                }
            },
        }
    }
}

/// The clause lines from position `i` to the end of input.
pub open spec fn clauses_from(s: Seq<u8>, i: int, vars: u128) -> Option<Seq<Seq<Atom>>>
    decreases s.len() - i,
{
    if i >= s.len() {
        Some(Seq::empty())
    } else {
        match clause_at(s, i, vars) {
            None => None,
            Some((c, j)) => if i < 0 || j < i || j + 1 >= s.len() {
                Some(seq![c])
            } else {
                match clauses_from(s, j + 1, vars) {
                    Some(rest) => Some(seq![c] + rest),
                    None => None,
                }
            },
        }
    }
}

/// The header line: the declared variable count and the position after the
/// newline that ends it.
pub open spec fn header_at(s: Seq<u8>) -> Option<(u128, int)> {
    if s.len() >= 6 && s[0] == 112 && s[1] == 32 && s[2] == 99 && s[3] == 110 && s[4] == 102
        && s[5] == 32 {
        match number_at(s, 6) {
            Some((v, e1)) => if e1 < s.len() && s[e1] == 32 {
                match number_at(s, e1 + 1) {
                    Some((_c, e2)) => if e2 < s.len() && is_newline(s[e2]) {
                        Some((v, e2 + 1))
                    } else {
                        None
                    },
                    None => None,
                }
            } else {
                None
            },
            None => None,
        }
    } else {
        None
    }
}

/// The formula that the text `s` denotes, if it is well formed: the variable
/// count and the clauses.
pub open spec fn parse_spec(s: Seq<u8>) -> Option<(u128, Seq<Seq<Atom>>)> {
    match header_at(s) {
        Some((vars, i)) => match clauses_from(s, i, vars) {
            Some(cs) => Some((vars, cs)),
            None => None,
        },
        None => None,
    }
}


proof fn lemma_digits_end_ge(s: Seq<u8>, i: int)
    ensures
        digits_end(s, i) >= i,
        digits_end(s, i) <= s.len() || digits_end(s, i) == i,
    decreases s.len() - i,
{
    if 0 <= i < s.len() && is_digit(s[i]) {
        lemma_digits_end_ge(s, i + 1);
    }
}

proof fn lemma_decimal_mono(s: Seq<u8>, i: int, j: int, k: int)
    requires
        i <= j <= k,
        forall|x: int| i <= x < k ==> is_digit(#[trigger] s[x]),
    ensures
        decimal(s, i, j) <= decimal(s, i, k),
    decreases k - j,
{
    if j < k {
        lemma_decimal_mono(s, i, j, k - 1);
    }
}

proof fn lemma_digits_in_run(s: Seq<u8>, i: int, x: int)
    requires
        0 <= i <= x < digits_end(s, i),
    ensures
        is_digit(s[x]),
        x < s.len(),
    decreases x - i,
{
    if x > i {
        lemma_digits_in_run(s, i + 1, x);
    }
}

fn parse_number(s: &[u8], i: usize) -> (r: Option<(u128, usize)>)
    requires
        i <= s@.len(),
    ensures
        match r {
            Some((v, e)) => number_at(s@, i as int) == Some((v, e as int)),
            None => number_at(s@, i as int) is None,
        },
{
    let mut v: u128 = 0;
    let mut j: usize = i;
    while j < s.len() && 48 <= s[j] && s[j] <= 57
        invariant
            i <= j <= s@.len(),
            digits_end(s@, j as int) == digits_end(s@, i as int),
            v == decimal(s@, i as int, j as int),
            forall|x: int| i <= x < j ==> is_digit(#[trigger] s@[x]),
        decreases s@.len() - j,
    {
        let d: u128 = (s[j] - 48) as u128;
        let next = match v.checked_mul(10) {
            Some(t) => t.checked_add(d),
            None => None,
        };
        match next {
            Some(n) => {
                v = n;
                j = j + 1;
            },
            None => {
                proof {
                    let e = digits_end(s@, i as int);
                    lemma_digits_end_ge(s@, j as int + 1);
                    assert forall|x: int| i <= x < e implies is_digit(#[trigger] s@[x]) by {
                        lemma_digits_in_run(s@, i as int, x);
                    }
                    lemma_decimal_mono(s@, i as int, j as int + 1, e);
                }
                return None;
            },
        }
    }
    if j == i {
        None
    } else {
        Some((v, j))
    }
}

fn parse_literal(s: &[u8], i: usize, vars: u128) -> (r: Option<(Atom, usize)>)
    requires
        i <= s@.len(),
    ensures
        match r {
            Some((a, e)) => literal_at(s@, i as int, vars) == Some((a, e as int)),
            None => literal_at(s@, i as int, vars) is None,
        },
{
    if i < s.len() && s[i] == 45 {
        match parse_number(s, i + 1) {
            Some((v, e)) => if 1 <= v && v <= vars {
                Some((Atom::Neg(v), e))
            } else {
                None
            },
            None => None,
        }
    } else {
        match parse_number(s, i) {
            Some((v, e)) => if 1 <= v && v <= vars {
                Some((Atom::Pos(v), e))
            } else {
                None
            },
            None => None,
        }
    }
}

fn skip_blank_bytes(s: &[u8], i: usize) -> (r: usize)
    requires
        i <= s@.len(),
    ensures
        r as int == skip_blanks(s@, i as int),
        i <= r <= s@.len(),
{
    let mut k: usize = i;
    while k < s.len() && (s[k] == 32 || s[k] == 9 || s[k] == 13)
        invariant
            i <= k <= s@.len(),
            skip_blanks(s@, k as int) == skip_blanks(s@, i as int),
        decreases s@.len() - k,
    {
        k = k + 1;
    }
    k
}

fn parse_clause(s: &[u8], i: usize, vars: u128) -> (r: Option<(Vec<Atom>, usize)>)
    requires
        i <= s@.len(),
    ensures
        match r {
            Some((c, e)) => clause_at(s@, i as int, vars) == Some((c@, e as int)) && i <= e
                <= s@.len(),
            None => clause_at(s@, i as int, vars) is None,
        },
{
    let mut atoms: Vec<Atom> = Vec::new();
    let mut pos: usize = i;
    loop
        invariant
            i <= pos <= s@.len(),
            clause_at(s@, i as int, vars) == match clause_at(s@, pos as int, vars) {
                Some((rest, f)) => Some((atoms@ + rest, f)),
                None => None,
            },
        decreases s@.len() - pos,
    {
        let k = skip_blank_bytes(s, pos);
        if k >= s.len() || s[k] == 10 {
            assert(atoms@ + Seq::<Atom>::empty() =~= atoms@);
            return Some((atoms, k));
        }
        match parse_literal(s, k, vars) {
            None => {
                return None;
            },
            Some((a, e)) => {
                proof {
                    lemma_digits_end_ge(s@, k as int);
                    lemma_digits_end_ge(s@, k as int + 1);
                }
                if e <= k || (e < s.len() && s[e] != 32 && s[e] != 9 && s[e] != 13 && s[e] != 10) {
                    return None;
                }
                proof {
                    match clause_at(s@, e as int, vars) {
                        Some((rest, f)) => {
                            assert(atoms@ + (seq![a] + rest) =~= atoms@.push(a) + rest);
                        },
                        None => {},
                    }
                }
                atoms.push(a);
                pos = e;
            },
        }
    }
}


proof fn lemma_clause_at_in_range(s: Seq<u8>, i: int, vars: u128)
    requires
        clause_at(s, i, vars) is Some,
    ensures
        clause_in_range(clause_at(s, i, vars).unwrap().0, vars as int),
    decreases s.len() - i,
{
    let k = skip_blanks(s, i);
    if i < 0 || k < i || k >= s.len() || is_newline(s[k]) {
    } else {
        let (a, e) = literal_at(s, k, vars)->0;
        lemma_clause_at_in_range(s, e, vars);
        let rest = clause_at(s, e, vars).unwrap().0;
        assert forall|j: int| 0 <= j < (seq![a] + rest).len() implies atom_in_range(
            #[trigger] (seq![a] + rest)[j],
            vars as int,
        ) by {
            if j > 0 {
                assert((seq![a] + rest)[j] == rest[j - 1]);
            }
        }
    }
}

fn parse_clauses(s: &[u8], i: usize, vars: u128) -> (r: Option<Vec<Clause>>)
    requires
        i <= s@.len(),
    ensures
        match r {
            Some(cs) => clauses_from(s@, i as int, vars) == Some(
                Seq::new(cs@.len(), |k: int| cs@[k].0@),
            ),
            None => clauses_from(s@, i as int, vars) is None,
        },
{
    let mut out: Vec<Clause> = Vec::new();
    let mut pos: usize = i;
    loop
        invariant
            i <= pos <= s@.len(),
            clauses_from(s@, i as int, vars) == match clauses_from(s@, pos as int, vars) {
                Some(rest) => Some(Seq::new(out@.len(), |k: int| out@[k].0@) + rest),
                None => None,
            },
        decreases s@.len() - pos,
    {
        let ghost prefix = Seq::new(out@.len(), |k: int| out@[k].0@);
        if pos >= s.len() {
            assert(prefix + Seq::<Seq<Atom>>::empty() =~= prefix);
            return Some(out);
        }
        match parse_clause(s, pos, vars) {
            None => {
                return None;
            },
            Some((c, j)) => {
                let ghost cv = c@;
                let last = j >= s.len() || j + 1 >= s.len();
                out.push(Clause(c));
                let ghost now = Seq::new(out@.len(), |k: int| out@[k].0@);
                assert(now =~= prefix.push(cv));
                if last {
                    assert(prefix + seq![cv] =~= now);
                    return Some(out);
                }
                proof {
                    match clauses_from(s@, j + 1, vars) {
                        Some(rest) => {
                            assert(prefix + (seq![cv] + rest) =~= now + rest);
                        },
                        None => {},
                    }
                }
                pos = j + 1;
            },
        }
    }
}

fn parse_header(s: &[u8]) -> (r: Option<(u128, usize)>)
    ensures
        match r {
            Some((v, e)) => header_at(s@) == Some((v, e as int)) && e <= s@.len(),
            None => header_at(s@) is None,
        },
{
    if s.len() >= 6 && s[0] == 112 && s[1] == 32 && s[2] == 99 && s[3] == 110 && s[4] == 102
        && s[5] == 32 {
        match parse_number(s, 6) {
            Some((v, e1)) => if e1 < s.len() && s[e1] == 32 {
                match parse_number(s, e1 + 1) {
                    Some((_c, e2)) => if e2 < s.len() && s[e2] == 10 {
                        Some((v, e2 + 1))
                    } else {
                        None
                    },
                    None => None,
                }
            } else {
                None
            },
            None => None,
        }
    } else {
        None
    }
}

/// Reads a formula from its text. `Ok` exactly when the text is well formed
/// (see the grammar above), and then the result is the formula it denotes;
/// its literals all name variables in `1..=vars`.
pub fn parse(src: &str) -> (r: Result<Dimacs, String>)
    ensures
        match r {
            Ok(d) => parse_spec(src.spec_bytes()) == Some((d.vars, d.clauses_view())) && d.wf(),
            Err(_) => parse_spec(src.spec_bytes()) is None,
        },
{
    let s = src.as_bytes();
    match parse_header(s) {
        None => Err("malformed header: expected `p cnf <vars> <clauses>`".to_string()),
        Some((vars, start)) => match parse_clauses(s, start, vars) {
            None => Err("malformed clause line".to_string()),
            Some(clauses) => {
                let d = Dimacs { vars, clauses };
                proof {
                    lemma_clauses_from_in_range(s@, start as int, vars);
                    assert(d.clauses_view() =~= clauses_from(s@, start as int, vars)->0);
                }
                Ok(d)
            },
        },
    }
}

proof fn lemma_clauses_from_in_range(s: Seq<u8>, i: int, vars: u128)
    requires
        clauses_from(s, i, vars) is Some,
    ensures
        formula_in_range(clauses_from(s, i, vars)->0, vars as int),
    decreases s.len() - i,
{
    if i >= s.len() {
    } else {
        lemma_clause_at_in_range(s, i, vars);
        let (c, j) = clause_at(s, i, vars)->0;
        if i < 0 || j < i || j + 1 >= s.len() {
        } else {
            lemma_clauses_from_in_range(s, j + 1, vars);
            let rest = clauses_from(s, j + 1, vars)->0;
            assert forall|k: int| 0 <= k < (seq![c] + rest).len() implies clause_in_range(
                #[trigger] (seq![c] + rest)[k],
                vars as int,
            ) by {
                if k > 0 {
                    assert((seq![c] + rest)[k] == rest[k - 1]);
                }
            }
        }
    }
}

} // verus!
