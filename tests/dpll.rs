use dpll::dimacs::{parse, Atom, Clause, Dimacs};
use dpll::dpllsolver::{solve, Assignment};
use dpll::eval::eval;
use proptest::strategy::Strategy;
use proptest::test_runner::{Config, TestCaseError, TestRunner};

fn holds(d: &Dimacs, m: &[bool]) -> bool {
    d.clauses.iter().all(|c| {
        c.iter().iter().any(|a| m[(a.var() - 1) as usize] == a.to_satisfy())
    })
}

fn brute_force(d: &Dimacs) -> bool {
    let n = d.vars as usize;
    (0u64..(1u64 << n)).any(|bits| {
        let m: Vec<bool> = (0..n).map(|i| bits & (1 << i) != 0).collect();
        holds(d, &m)
    })
}

fn model_of(a: &Assignment, n: u128) -> Vec<bool> {
    (1..=n).map(|v| a.lookup(v)).collect()
}

#[test]
fn single_positive_unit() {
    let d = parse("p cnf 1 1\n1").unwrap();
    let a = solve(&d).expect("satisfiable");
    assert!(a.lookup(1));
    assert_eq!(a.iter(), vec![(1, true)]);
}

#[test]
fn two_vars_exactly_one_true() {
    let d = parse("p cnf 2 2\n1 2\n-1 -2\n").unwrap();
    let a = solve(&d).expect("satisfiable");
    assert!(eval(&d, &a));
    assert_ne!(a.lookup(1), a.lookup(2));
    // the smallest variable is decided first, true first
    assert_eq!(a.iter(), vec![(1, true), (2, false)]);
}

#[test]
fn contradictory_units() {
    let d = parse("p cnf 1 2\n1\n-1").unwrap();
    assert!(solve(&d).is_none());
}

#[test]
fn three_way_disjunction() {
    let d = parse("p cnf 3 1\n1 2 3").unwrap();
    let a = solve(&d).expect("satisfiable");
    assert!(a.lookup(1) || a.lookup(2) || a.lookup(3));
    assert_eq!(a.iter().len(), 3);
}

#[test]
fn literal_beyond_declared_vars_is_rejected() {
    assert!(parse("p cnf 2 1\n3").is_err());
    assert!(parse("p cnf 2 1\n-3").is_err());
}

#[test]
fn malformed_inputs_are_rejected() {
    assert!(parse("").is_err());
    assert!(parse("p cnf 2 1").is_err());
    assert!(parse("p  cnf 2 1\n1").is_err());
    assert!(parse("p cnf 2 1\n0").is_err());
    assert!(parse("p cnf 2 1\n1 x").is_err());
    assert!(parse("p cnf 2 1\n12a").is_err());
    assert!(parse("p cnf 340282366920938463463374607431768211456 0\n").is_err());
}

#[test]
fn parse_reads_literals_and_lines() {
    let d = parse("p cnf 4 9\n1 -2\t3\n\n-4 \n").unwrap();
    assert_eq!(d.vars, 4);
    assert_eq!(d.clauses.len(), 3);
    assert_eq!(d.clauses[0], Clause(vec![Atom::Pos(1), Atom::Neg(2), Atom::Pos(3)]));
    assert!(d.clauses[1].is_empty());
    assert_eq!(d.clauses[2], Clause(vec![Atom::Neg(4)]));
}

#[test]
fn header_only_has_no_clauses() {
    let d = parse("p cnf 3 0\n").unwrap();
    assert_eq!(d.vars, 3);
    assert!(d.clauses.is_empty());
}

#[test]
fn no_clauses_is_satisfiable() {
    let d = parse("p cnf 3 0\n").unwrap();
    let a = solve(&d).expect("satisfiable");
    assert_eq!(a.iter().len(), 3);
    let d = Dimacs { vars: 0, clauses: vec![] };
    assert!(solve(&d).is_some());
}

#[test]
fn empty_clause_is_unsatisfiable() {
    let d = parse("p cnf 2 2\n1 2\n\n").unwrap();
    assert_eq!(d.clauses.len(), 2);
    assert!(solve(&d).is_none());
    let d = Dimacs { vars: 0, clauses: vec![Clause(vec![])] };
    assert!(solve(&d).is_none());
}

#[test]
fn propagation_forces_chain() {
    // 1, then 1 -> 2, then 2 -> 3: all forced true without a decision
    let d = parse("p cnf 3 3\n1\n-1 2\n-2 3").unwrap();
    let a = solve(&d).expect("satisfiable");
    assert_eq!(a.iter(), vec![(1, true), (2, true), (3, true)]);
}

#[test]
fn verdict_is_repeatable() {
    for text in ["p cnf 2 2\n1 2\n-1 -2", "p cnf 1 2\n1\n-1", "p cnf 3 4\n1 2\n-1 2\n1 -2\n-1 -2"] {
        let d = parse(text).unwrap();
        let first = solve(&d).is_some();
        for _ in 0..5 {
            assert_eq!(solve(&d).is_some(), first);
        }
    }
}

#[test]
fn unsat_needs_backtracking() {
    let d = parse("p cnf 2 4\n1 2\n-1 2\n1 -2\n-1 -2").unwrap();
    assert!(solve(&d).is_none());
    assert!(!brute_force(&d));
}

#[test]
fn agrees_with_brute_force_on_small_formulas() {
    let mut seed: u64 = 0x2545_f491_4f6c_dd1d;
    let mut next = move || {
        seed ^= seed << 13;
        seed ^= seed >> 7;
        seed ^= seed << 17;
        seed
    };
    for _ in 0..400 {
        let vars = (next() % 5 + 1) as u128;
        let n_clauses = (next() % 8) as usize;
        let clauses: Vec<Clause> = (0..n_clauses)
            .map(|_| {
                let len = (next() % 4) as usize;
                Clause(
                    (0..len)
                        .map(|_| {
                            let v = (next() as u128) % vars + 1;
                            if next() % 2 == 0 { Atom::Pos(v) } else { Atom::Neg(v) }
                        })
                        .collect(),
                )
            })
            .collect();
        let d = Dimacs { vars, clauses };
        match solve(&d) {
            Some(a) => {
                assert!(eval(&d, &a));
                assert!(holds(&d, &model_of(&a, vars)));
            }
            None => assert!(!brute_force(&d)),
        }
    }
}

#[test]
fn try_solve() {
    let atom = (1u128..=10, proptest::bool::ANY)
        .prop_map(|(v, neg)| if neg { Atom::Neg(v) } else { Atom::Pos(v) });
    let clause = proptest::collection::vec(atom, 1..=20).prop_map(Clause);
    let formula = proptest::collection::vec(clause, 1..=20).prop_map(|clauses| Dimacs { vars: 10, clauses });
    let mut runner = TestRunner::new(Config { cases: 1000, ..Config::default() });
    let result = runner.run(&formula, |d| {
        if let Some(a) = solve(&d) {
            if !eval(&d, &a) {
                return Err(TestCaseError::fail("model does not satisfy the formula"));
            }
        } else if d.clauses.is_empty() {
            return Err(TestCaseError::fail("empty formula reported unsatisfiable"));
        }
        Ok(())
    });
    assert!(result.is_ok());
}

#[test]
fn same_model_on_every_run() {
    let d = parse("p cnf 3 2\n-1 -2\n2 3").unwrap();
    let first = solve(&d).expect("satisfiable");
    let again = first.clone();
    assert_eq!(first.iter(), again.iter());
    for _ in 0..3 {
        assert_eq!(solve(&d).expect("satisfiable").iter(), first.iter());
    }
    // 1 is tried true first, which forces 2 false and then 3 true
    assert_eq!(first.iter(), vec![(1, true), (2, false), (3, true)]);
}
