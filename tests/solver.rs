use dpll::solver::{
    sovler, state_of_clause, Answer, Atom, ClauseState, Graph, Model, Node, NodeId, SolverFrame, SolverState,
};

#[test]
fn state() {
    let mut state = SolverFrame::new(5);
    state.set_true(1);
    state.set_false(2);
    state.set_true(4);

    let clause = vec![Atom::pos(1), Atom::pos(3), Atom::neg(4)];
    assert_eq!(state_of_clause(&clause, &state), ClauseState::Satisfied);

    let clause = vec![Atom::neg(1), Atom::pos(2)];
    assert_eq!(state_of_clause(&clause, &state), ClauseState::Conflicting);

    let clause = vec![Atom::neg(1), Atom::neg(4), Atom::pos(3)];
    assert_eq!(state_of_clause(&clause, &state), ClauseState::Unit);

    let clause = vec![Atom::neg(1), Atom::pos(3), Atom::pos(5)];
    assert_eq!(state_of_clause(&clause, &state), ClauseState::Unresolved);
}

#[test]
fn empty_clause_conflicts_in_frame() {
    let state = SolverFrame::new(2);
    let clause: Vec<Atom> = vec![];
    assert_eq!(state_of_clause(&clause, &state), ClauseState::Conflicting);
}

#[test]
fn atom_queries_follow_frame() {
    let mut state = SolverFrame::new(3);
    state.set_false(2);
    assert!(Atom::neg(2).satisfied(&state));
    assert!(!Atom::pos(2).satisfied(&state));
    assert!(Atom::pos(2).assigned(&state));
    assert!(!Atom::pos(3).assigned(&state));
    assert!(!Atom::pos(3).satisfied(&state));
}

#[test]
fn model_from_complete_frame() {
    let mut state = SolverFrame::new(3);
    state.set_true(1);
    state.set_false(2);
    state.set_true(3);
    let m = Model::from_frame(state);
    assert!(m.get(1));
    assert!(!m.get(2));
    assert!(m.get(3));
}

fn model_of(answer: Answer) -> Option<Model> {
    match answer {
        Answer::Sat(m) => Some(m),
        Answer::Unsat => None,
    }
}

#[test]
fn graph_search_single_unit() {
    let m = model_of(sovler(1, vec![vec![Atom::pos(1)]])).expect("satisfiable");
    assert!(m.get(1));
}

#[test]
fn graph_search_contradiction() {
    assert!(model_of(sovler(1, vec![vec![Atom::pos(1)], vec![Atom::neg(1)]])).is_none());
}

#[test]
fn graph_search_exactly_one() {
    let clauses = vec![vec![Atom::pos(1), Atom::pos(2)], vec![Atom::neg(1), Atom::neg(2)]];
    let m = model_of(sovler(2, clauses)).expect("satisfiable");
    assert_ne!(m.get(1), m.get(2));
}

#[test]
fn graph_search_three_way() {
    let m = model_of(sovler(3, vec![vec![Atom::pos(1), Atom::pos(2), Atom::pos(3)]])).expect("satisfiable");
    assert!(m.get(1) || m.get(2) || m.get(3));
}

#[test]
fn graph_search_all_four_pairs_unsat() {
    let clauses = vec![
        vec![Atom::pos(1), Atom::pos(2)],
        vec![Atom::neg(1), Atom::pos(2)],
        vec![Atom::pos(1), Atom::neg(2)],
        vec![Atom::neg(1), Atom::neg(2)],
    ];
    assert!(model_of(sovler(2, clauses)).is_none());
}

#[test]
fn first_decision_sets_smallest_variable_true() {
    let mut st = SolverState::default();
    let frame = st.compute_frame(2);
    let id = st.make_decision(&frame).expect("a variable is open");
    assert_eq!(id, NodeId(1));
    let frame = st.compute_frame(2);
    assert!(Atom::pos(1).satisfied(&frame));
    assert!(!Atom::pos(2).assigned(&frame));
    // no clause conflicts: the state stays where it is
    assert!(st.analyze_conflict(frame, &[vec![Atom::pos(1)]]).is_none());
    let frame = st.compute_frame(2);
    assert!(Atom::pos(1).satisfied(&frame));
}

#[test]
fn conflict_backs_up_to_next_sibling() {
    let mut st = SolverState::default();
    let frame = st.compute_frame(1);
    st.make_decision(&frame).expect("a variable is open");
    let frame = st.compute_frame(1);
    // 1 = true conflicts with clause -1; the root still has the 1 = false child
    assert!(st.analyze_conflict(frame, &[vec![Atom::neg(1)]]).is_none());
    let frame = st.compute_frame(1);
    assert!(!Atom::pos(1).assigned(&frame));
    st.make_decision(&frame).expect("the false branch is left");
    let frame = st.compute_frame(1);
    assert!(Atom::neg(1).satisfied(&frame));
    // both branches fail now
    assert!(matches!(st.analyze_conflict(frame, &[vec![Atom::pos(1)]]), Some(Answer::Unsat)));
}

#[test]
fn graph_expansion_creates_two_children_per_open_variable() {
    let mut g = Graph { nodes: vec![], neighbors: vec![] };
    let root = g.alloc_node(Node::new_root());
    let mut frame = SolverFrame::new(3);
    frame.set_true(2);
    g.expand_frontier(root, &frame);
    let kids: Vec<NodeId> = g.neighbors(root).to_vec();
    assert_eq!(kids, vec![NodeId(1), NodeId(2), NodeId(3), NodeId(4)]);
    assert_eq!(g.get(kids[0]).var, Some(1));
    assert!(g.get(kids[0]).direction);
    assert_eq!(g.get(kids[3]).var, Some(3));
    assert!(!g.get(kids[3]).direction);
    assert!(!g.get(kids[1]).seen);
    let mut n = *g.get(kids[1]);
    n.mark();
    assert!(n.seen);
    let u = Node::new_unexplored(7, false);
    assert_eq!(u.var, Some(7));
    assert!(!u.seen);
}

#[test]
fn graph_search_without_variables_checks_clauses() {
    // a clause without literals is a contradiction even with no variables
    assert!(model_of(sovler(0, vec![vec![]])).is_none());
    assert!(model_of(sovler(0, vec![])).is_some());
    assert!(model_of(sovler(2, vec![vec![Atom::pos(1)], vec![]])).is_none());
}

#[test]
fn graph_search_agrees_with_enumeration() {
    let mut seed: u64 = 0x9e37_79b9_7f4a_7c15;
    let mut next = move || {
        seed ^= seed << 13;
        seed ^= seed >> 7;
        seed ^= seed << 17;
        seed
    };
    for _ in 0..300 {
        let vars = (next() % 4 + 1) as usize;
        let n_clauses = (next() % 7) as usize;
        let clauses: Vec<Vec<Atom>> = (0..n_clauses)
            .map(|_| {
                let len = (next() % 4) as usize;
                (0..len)
                    .map(|_| {
                        let v = (next() as u128) % (vars as u128) + 1;
                        if next() % 2 == 0 { Atom::pos(v) } else { Atom::neg(v) }
                    })
                    .collect()
            })
            .collect();
        let holds = |m: &[bool]| {
            clauses.iter().all(|c| c.iter().any(|a| m[(a.id - 1) as usize] == !a.negated))
        };
        let exists = (0u32..(1 << vars)).any(|bits| {
            let m: Vec<bool> = (0..vars).map(|i| bits & (1 << i) != 0).collect();
            holds(&m)
        });
        match model_of(sovler(vars, clauses.clone())) {
            Some(m) => {
                let vals: Vec<bool> = (1..=vars as u128).map(|i| m.get(i)).collect();
                assert!(holds(&vals));
            }
            None => assert!(!exists),
        }
    }
}

#[test]
fn answers_compare_and_clone() {
    let a = sovler(2, vec![vec![Atom::pos(1)], vec![Atom::neg(2)]]);
    let b = a.clone();
    assert_eq!(a, b);
    assert_eq!(sovler(1, vec![vec![Atom::pos(1)], vec![Atom::neg(1)]]), Answer::Unsat);
    assert_ne!(a, Answer::Unsat);
}
