use vstd::prelude::*;
use crate::dpllsolver::count_unassigned;

verus! {

/// The verdict of a run: a model, or none exists.
#[derive(Debug, Clone, PartialEq, Eq)]
pub enum Answer {
    Sat(Model),
    Unsat,
}

/// A total assignment: position `i - 1` holds the value of variable `i`.
#[derive(Debug, Clone, PartialEq, Eq)]
pub struct Model {
    contents: Vec<bool>,
}

impl View for Model {
    type V = Seq<bool>;

    closed spec fn view(&self) -> Seq<bool> {
        self.contents@
    }
}

impl Model {
    /// The value of variable `i`.
    pub fn get(&self, i: u128) -> (r: bool)
        requires
            1 <= i <= self@.len(),
        ensures
            r == self@[i - 1],
    {
        let n = self.contents.len();
        assert(i <= n);
        self.contents[(i - 1) as usize]
    }

    /// The model that a complete frame describes.
    pub fn from_frame(value: SolverFrame) -> (r: Model)
        requires
            value.is_complete(),
        ensures
            r@.len() == value@.len(),
            forall|i: int| 0 <= i < r@.len() ==> value@[i] == Some(#[trigger] r@[i]),
    {
        let mut contents: Vec<bool> = Vec::new();
        let mut i: usize = 0;
        while i < value.vars
            invariant
                value.wf(),
                value.is_complete(),
                i <= value@.len(),
                contents@.len() == i,
                forall|k: int| 0 <= k < i ==> value@[k] == Some(#[trigger] contents@[k]),
            decreases value@.len() - i,
        {
            contents.push(value.values[i] == Some(true));
            i = i + 1;
        }
        Model { contents }
    }
}

/// A partial assignment of the variables `1..=vars`.
#[derive(Debug)]
pub struct SolverFrame {
    vars: usize,
    values: Vec<Option<bool>>,
}

impl View for SolverFrame {
    type V = Seq<Option<bool>>;

    /// Position `v - 1` holds the value of variable `v`, `None` if unassigned.
    closed spec fn view(&self) -> Seq<Option<bool>> {
        self.values@
    }
}

impl SolverFrame {
    pub closed spec fn wf(&self) -> bool {
        self.values@.len() == self.vars
    }

    /// No variable is unassigned.
    pub open spec fn is_complete(&self) -> bool {
        self.wf() && forall|i: int| 0 <= i < self@.len() ==> (#[trigger] self@[i]) is Some
    }

    /// Whether variable `v` is unassigned.
    pub open spec fn spec_unassigned(&self, v: u128) -> bool {
        1 <= v <= self@.len() && self@[v - 1] is None
    }

    /// The frame of `vars` variables, none of them assigned.
    pub fn new(vars: usize) -> (r: SolverFrame)
        ensures
            r.wf(),
            r@.len() == vars,
            forall|i: int| 0 <= i < vars ==> (#[trigger] r@[i]) is None,
    {
        let mut values: Vec<Option<bool>> = Vec::new();
        let mut i: usize = 0;
        while i < vars
            invariant
                i <= vars,
                values@.len() == i,
                forall|k: int| 0 <= k < i ==> (#[trigger] values@[k]) is None,
            decreases vars - i,
        {
            values.push(None);
            i = i + 1;
        }
        SolverFrame { vars, values }
    }

    /// Assigns `true` to the unassigned variable `var`.
    pub fn set_true(&mut self, var: u128)
        requires
            old(self).wf(),
            old(self).spec_unassigned(var),
        ensures
            final(self).wf(),
            final(self)@ == old(self)@.update(var - 1, Some(true)),
    {
        self.assign(var, true);
    }

    /// Assigns `false` to the unassigned variable `var`.
    pub fn set_false(&mut self, var: u128)
        requires
            old(self).wf(),
            old(self).spec_unassigned(var),
        ensures
            final(self).wf(),
            final(self)@ == old(self)@.update(var - 1, Some(false)),
    {
        self.assign(var, false);
    }

    fn assign(&mut self, var: u128, value: bool)
        requires
            old(self).wf(),
            old(self).spec_unassigned(var),
        ensures
            final(self).wf(),
            final(self)@ == old(self)@.update(var - 1, Some(value)),
    {
        let n = self.values.len();
        assert(var <= n);
        self.values.set((var - 1) as usize, Some(value));
    }

    /// Whether variable `v` is unassigned.
    pub fn is_unassigned(&self, v: u128) -> (r: bool)
        requires
            self.wf(),
        ensures
            r == self.spec_unassigned(v),
    {
        let n = self.values.len();
        if v < 1 || v > n as u128 {
            false
        } else {
            self.values[(v - 1) as usize].is_none()
        }
    }

    /// The number of variables.
    pub fn vars(&self) -> (r: usize)
        requires
            self.wf(),
        ensures
            r == self@.len(),
    {
        self.vars
    }
}

/// A literal: variable `id`, negated or not.
#[derive(Debug, Clone, Copy, PartialEq, Eq)]
pub struct Atom {
    pub id: u128,
    pub negated: bool,
}

pub type Clause = Vec<Atom>;

/// The literal is not over an unassigned variable.
pub open spec fn atom_assigned(a: Atom, f: Seq<Option<bool>>) -> bool {
    !(1 <= a.id <= f.len() && f[a.id - 1] is None)
}

/// The variable of the literal holds the value that makes it true.
pub open spec fn atom_satisfied(a: Atom, f: Seq<Option<bool>>) -> bool {
    1 <= a.id <= f.len() && f[a.id - 1] == Some(!a.negated)
}

impl Atom {
    pub fn pos(id: u128) -> (r: Atom)
        ensures
            r == (Atom { id, negated: false }),
    {
        Atom { id, negated: false }
    }

    pub fn neg(id: u128) -> (r: Atom)
        ensures
            r == (Atom { id, negated: true }),
    {
        Atom { id, negated: true }
    }

    pub fn assigned(&self, frame: &SolverFrame) -> (r: bool)
        requires
            frame.wf(),
        ensures
            r == atom_assigned(*self, frame@),
    {
        !frame.is_unassigned(self.id)
    }

    pub fn satisfied(&self, frame: &SolverFrame) -> (r: bool)
        requires
            frame.wf(),
        ensures
            r == atom_satisfied(*self, frame@),
    {
        let n = frame.values.len();
        if self.id < 1 || self.id > n as u128 {
            false
        } else {
            frame.values[(self.id - 1) as usize] == Some(!self.negated)
        }
    }
}

/// What a clause says under a frame.
#[derive(Debug, Clone, Copy, PartialEq, Eq)]
pub enum ClauseState {
    Satisfied,
    Conflicting,
    Unit,
    Unresolved,
}

/// The number of literals of `c` that are assigned under `f`.
pub open spec fn count_assigned(c: Seq<Atom>, f: Seq<Option<bool>>) -> nat
    decreases c.len(),
{
    if c.len() == 0 {
        0
    } else {
        count_assigned(c.drop_last(), f) + if atom_assigned(c.last(), f) {
            1nat
        } else {
            0nat
        }
    }
}

/// Satisfied if a literal holds; otherwise conflicting, unit or unresolved as
/// none, one or more of its literals are over unassigned variables.
pub open spec fn clause_state(c: Seq<Atom>, f: Seq<Option<bool>>) -> ClauseState {
    if exists|j: int| 0 <= j < c.len() && atom_satisfied(#[trigger] c[j], f) {
        ClauseState::Satisfied
    } else if count_assigned(c, f) == c.len() {
        ClauseState::Conflicting
    } else if count_assigned(c, f) + 1 == c.len() {
        ClauseState::Unit
    } else {
        ClauseState::Unresolved
    }
}

proof fn lemma_count_assigned_le(c: Seq<Atom>, f: Seq<Option<bool>>)
    ensures
        count_assigned(c, f) <= c.len(),
    decreases c.len(),
{
    if c.len() > 0 {
        lemma_count_assigned_le(c.drop_last(), f);
    }
}

/// Classifies the clause under the frame.
pub fn state_of_clause(clause: &Clause, f: &SolverFrame) -> (r: ClauseState)
    requires
        f.wf(),
    ensures
        r == clause_state(clause@, f@),
{
    let mut i: usize = 0;
    while i < clause.len()
        invariant
            f.wf(),
            i <= clause@.len(),
            forall|k: int| 0 <= k < i ==> !atom_satisfied(#[trigger] clause@[k], f@),
        decreases clause@.len() - i,
    {
        if clause[i].satisfied(f) {
            return ClauseState::Satisfied;
        }
        i = i + 1;
    }
    let mut assigned: usize = 0;
    let mut j: usize = 0;
    while j < clause.len()
        invariant
            f.wf(),
            j <= clause@.len(),
            assigned == count_assigned(clause@.subrange(0, j as int), f@),
        decreases clause@.len() - j,
    {
        proof {
            assert(clause@.subrange(0, j as int + 1).drop_last() =~= clause@.subrange(0, j as int));
            lemma_count_assigned_le(clause@.subrange(0, j as int), f@);
        }
        if clause[j].assigned(f) {
            assigned = assigned + 1;
        }
        j = j + 1;
    }
    assert(clause@.subrange(0, j as int) =~= clause@);
    proof {
        lemma_count_assigned_le(clause@, f@);
    }
    if assigned == clause.len() {
        ClauseState::Conflicting
    } else if assigned < clause.len() && assigned + 1 == clause.len() {
        ClauseState::Unit
    } else {
        ClauseState::Unresolved
    }
}


/// The index of a node in its graph.
#[derive(Debug, Clone, Copy, PartialEq, Eq, Hash)]
pub struct NodeId(pub usize);

/// A decision: variable `var` takes `direction`. The root decides nothing.
#[derive(Debug, Clone, Copy)]
pub struct Node {
    pub seen: bool,
    pub var: Option<u128>,
    pub direction: bool,
}

impl Node {
    pub fn mark(&mut self)
        ensures
            final(self).seen,
            final(self).var == old(self).var,
            final(self).direction == old(self).direction,
    {
        self.seen = true;
    }

    pub fn new_unexplored(var: u128, direction: bool) -> (r: Node)
        ensures
            r == (Node { seen: false, var: Some(var), direction }),
    {
        Node { seen: false, var: Some(var), direction }
    }

    pub fn new_root() -> (r: Node)
        ensures
            r == (Node { seen: true, var: None, direction: false }),
    {
        Node { seen: true, var: None, direction: false }
    }
}

/// The search tree: nodes, and for each node that has been expanded the list
/// of its children.
#[derive(Debug)]
pub struct Graph {
    pub nodes: Vec<Node>,
    pub neighbors: Vec<Option<Vec<NodeId>>>,
}

/// The unassigned variables of `f` in ascending order.
pub open spec fn unassigned_vars(f: Seq<Option<bool>>) -> Seq<u128>
    decreases f.len(),
{
    if f.len() == 0 {
        Seq::empty()
    } else {
        let p = unassigned_vars(f.drop_last());
        if f.last() is None {
            p.push(f.len() as u128)
        } else {
            p
        }
    }
}

proof fn lemma_unassigned_vars(f: Seq<Option<bool>>)
    requires
        f.len() <= u128::MAX,
    ensures
        unassigned_vars(f).len() == count_unassigned(f),
        forall|k: int|
            0 <= k < unassigned_vars(f).len() ==> 1 <= #[trigger] unassigned_vars(f)[k] <= f.len()
                && f[unassigned_vars(f)[k] - 1] is None,
    decreases f.len(),
{
    if f.len() > 0 {
        lemma_unassigned_vars(f.drop_last());
        let p = unassigned_vars(f.drop_last());
        assert forall|k: int| 0 <= k < unassigned_vars(f).len() implies 1 <= #[trigger] unassigned_vars(f)[k]
            <= f.len() && f[unassigned_vars(f)[k] - 1] is None by {
            if k < p.len() {
                assert(unassigned_vars(f)[k] == p[k]);
                assert(f.drop_last()[p[k] - 1] == f[p[k] - 1]);
            }
        }
    }
}

/// The children that expanding a node under frame `f` creates: for each
/// unassigned variable in ascending order, `true` then `false`.
pub open spec fn child_node(f: Seq<Option<bool>>, x: int) -> Node {
    Node { seen: false, var: Some(unassigned_vars(f)[x / 2]), direction: x % 2 == 0 }
}

impl Graph {
    pub open spec fn wf(&self) -> bool {
        &&& self.nodes@.len() == self.neighbors@.len()
        &&& forall|p: int, x: int|
            0 <= p < self.neighbors@.len() && self.neighbors@[p] is Some && 0 <= x
                < self.neighbors@[p]->Some_0@.len() ==> (#[trigger] self.neighbors@[p]->Some_0@[x]).0
                < self.nodes@.len()
    }

    pub open spec fn expanded(&self, p: int) -> bool {
        0 <= p < self.neighbors@.len() && self.neighbors@[p] is Some
    }

    pub open spec fn children(&self, p: int) -> Seq<NodeId> {
        self.neighbors@[p]->Some_0@
    }

    pub fn alloc_node(&mut self, node: Node) -> (r: NodeId)
        requires
            old(self).wf(),
        ensures
            final(self).wf(),
            final(self).nodes@ == old(self).nodes@.push(node),
            final(self).neighbors@ == old(self).neighbors@.push(None),
            r.0 == old(self).nodes@.len(),
    {
        self.nodes.push(node);
        self.neighbors.push(None);
        proof {
            assert forall|p: int, x: int|
                0 <= p < self.neighbors@.len() && self.neighbors@[p] is Some && 0 <= x
                    < self.neighbors@[p]->Some_0@.len() implies (#[trigger] self.neighbors@[p]->Some_0@[x]).0
                < self.nodes@.len() by {
                assert(self.neighbors@[p] == old(self).neighbors@[p]);
            }
        }
        NodeId(self.nodes.len() - 1)
    }

    pub fn neighbors(&self, id: NodeId) -> (r: &[NodeId])
        requires
            self.expanded(id.0 as int),
        ensures
            r@ == self.children(id.0 as int),
    {
        match &self.neighbors[id.0] {
            Some(v) => v.as_slice(),
            None => &[],
        }
    }

    pub fn get(&self, id: NodeId) -> (r: &Node)
        requires
            id.0 < self.nodes@.len(),
        ensures
            *r == self.nodes@[id.0 as int],
    {
        &self.nodes[id.0]
    }

    /// Gives the node `id`, if it has no children yet, a fresh unseen child
    /// for each value of each variable unassigned in `frame`.
    pub fn expand_frontier(&mut self, id: NodeId, frame: &SolverFrame)
        requires
            old(self).wf(),
            id.0 < old(self).nodes@.len(),
            frame.wf(),
        ensures
            final(self).wf(),
            final(self).expanded(id.0 as int),
            old(self).expanded(id.0 as int) ==> *final(self) == *old(self),
            !old(self).expanded(id.0 as int) ==> {
                let n0 = old(self).nodes@.len();
                let k = final(self).children(id.0 as int).len();
                &&& k == 2 * count_unassigned(frame@)
                &&& final(self).nodes@.len() == n0 + k
                &&& final(self).nodes@.subrange(0, n0 as int) == old(self).nodes@
                &&& forall|x: int| 0 <= x < k ==> (#[trigger] final(self).children(id.0 as int)[x]).0 == n0 + x
                &&& forall|x: int| 0 <= x < k ==> #[trigger] final(self).nodes@[n0 + x] == child_node(frame@, x)
                &&& forall|p: int| 0 <= p < n0 && p != id.0 ==> #[trigger] final(self).neighbors@[p] == old(self).neighbors@[p]
                &&& forall|p: int| n0 <= p < final(self).neighbors@.len() ==> #[trigger] final(self).neighbors@[p] is None
            },
    {
        if self.neighbors[id.0].is_some() {
            return;
        }
        let ghost g0 = *self;
        let ghost n0 = self.nodes@.len();
        let ghost f = frame@;
        proof {
            lemma_unassigned_vars(f);
        }
        let mut neighbors: Vec<NodeId> = Vec::new();
        let vars = frame.vars();
        let mut v: usize = 0;
        while v < vars
            invariant
                f == frame@,
                frame.wf(),
                vars == f.len(),
                v <= vars,
                self.wf(),
                !self.expanded(id.0 as int),
                id.0 < n0,
                neighbors@.len() == 2 * unassigned_vars(f.subrange(0, v as int)).len(),
                self.nodes@.len() == n0 + neighbors@.len(),
                self.nodes@.subrange(0, n0 as int) == g0.nodes@,
                forall|x: int| 0 <= x < neighbors@.len() ==> (#[trigger] neighbors@[x]).0 == n0 + x,
                forall|x: int| 0 <= x < neighbors@.len() ==> #[trigger] self.nodes@[n0 + x] == child_node(f, x),
                forall|p: int| 0 <= p < n0 ==> #[trigger] self.neighbors@[p] == g0.neighbors@[p],
                forall|p: int| n0 <= p < self.neighbors@.len() ==> #[trigger] self.neighbors@[p] is None,
            decreases vars - v,
        {
            proof {
                assert(f.subrange(0, v as int + 1).drop_last() =~= f.subrange(0, v as int));
                lemma_unassigned_prefix(f, v as int + 1);
            }
            if frame.is_unassigned((v + 1) as u128) {
                let ghost before = self.nodes@;
                let ghost k = neighbors@.len();
                let t = self.alloc_node(Node::new_unexplored((v + 1) as u128, true));
                neighbors.push(t);
                let u = self.alloc_node(Node::new_unexplored((v + 1) as u128, false));
                neighbors.push(u);
                proof {
                    assert(self.nodes@.subrange(0, n0 as int) =~= before.subrange(0, n0 as int));
                    assert forall|x: int| 0 <= x < neighbors@.len() implies #[trigger] self.nodes@[n0 + x]
                        == child_node(f, x) by {
                        if x < k {
                            assert(self.nodes@[n0 + x] == before[n0 + x]);
                        } else {
                            let b = unassigned_vars(f.subrange(0, v as int));
                            let a = unassigned_vars(f.subrange(0, v as int + 1));
                            assert(a == b.push((v + 1) as u128));
                            assert(x / 2 == b.len());
                            assert(a[b.len() as int] == unassigned_vars(f).subrange(0, a.len() as int)[b.len() as int]);
                            assert(unassigned_vars(f)[x / 2] == (v + 1) as u128);
                        }
                    }
                }
            }
            v = v + 1;
        }
        assert(f.subrange(0, v as int) =~= f);
        proof {
            lemma_unassigned_vars(f);
        }
        self.neighbors.set(id.0, Some(neighbors));
    }
}

/// Unassigned variables of a prefix of `f` are the first ones of `f`'s.
proof fn lemma_unassigned_prefix(f: Seq<Option<bool>>, j: int)
    requires
        0 <= j <= f.len(),
    ensures
        unassigned_vars(f.subrange(0, j)).len() <= unassigned_vars(f).len(),
        unassigned_vars(f.subrange(0, j)) == unassigned_vars(f).subrange(0, unassigned_vars(f.subrange(0, j)).len() as int),
    decreases f.len() - j,
{
    if j < f.len() {
        lemma_unassigned_prefix(f, j + 1);
        assert(f.subrange(0, j + 1).drop_last() =~= f.subrange(0, j));
        let a = unassigned_vars(f.subrange(0, j + 1));
        let b = unassigned_vars(f.subrange(0, j));
        let u = unassigned_vars(f);
        let g = f.subrange(0, j + 1);
        assert(g.last() == f[j]);
        if f[j] is None {
            assert(a == b.push(g.len() as u128));
        } else {
            assert(a == b);
        }
        assert(b =~= u.subrange(0, b.len() as int)) by {
            assert forall|k: int| 0 <= k < b.len() implies b[k] == u[k] by {
                assert(a[k] == b[k]);
                assert(a[k] == u.subrange(0, a.len() as int)[k]);
            }
        }
    } else {
        assert(f.subrange(0, j) =~= f);
        assert(unassigned_vars(f).subrange(0, unassigned_vars(f).len() as int) =~= unassigned_vars(f));
    }
}


/// The number of nodes in a full decision tree below a node with `k`
/// unassigned variables: the node, then a subtree for each value of each.
pub open spec fn tree_size(k: int) -> nat
    decreases k,
{
    if k <= 0 {
        1
    } else {
        (1 + 2 * k * tree_size(k - 1)) as nat
    }
}

/// The depth-first preorder position of the node reached from the root by
/// taking child `l[i]` at each depth `i >= 1`, in the full tree over `k`
/// variables.
pub open spec fn preorder(l: Seq<int>, k: int) -> int
    decreases l.len(),
{
    if l.len() <= 1 {
        0
    } else {
        preorder(l.drop_last(), k) + 1 + l.last() * tree_size(k - (l.len() - 1))
    }
}

pub open spec fn levels_in_tree(l: Seq<int>, k: int) -> bool {
    &&& 1 <= l.len() <= k + 1
    &&& forall|i: int| 1 <= i < l.len() ==> 0 <= #[trigger] l[i] < 2 * (k - i + 1)
}

proof fn lemma_tree_size_pos(k: int)
    ensures
        tree_size(k) >= 1,
    decreases k,
{
    if k > 0 {
        lemma_tree_size_pos(k - 1);
        assert(2 * k * tree_size(k - 1) >= 0) by (nonlinear_arith)
            requires
                k > 0,
        ;
    }
}

/// Below the node at depth `e` on the way, the rest of the way spans less
/// than the subtree of that node.
proof fn lemma_preorder_bound(l: Seq<int>, k: int, e: int)
    requires
        levels_in_tree(l, k),
        0 <= e < l.len(),
    ensures
        preorder(l, k) - preorder(l.subrange(0, e + 1), k) <= tree_size(k - e) - tree_size(k - (l.len() - 1)),
    decreases l.len(),
{
    let d = l.len() - 1;
    if e == d {
        assert(l.subrange(0, e + 1) =~= l);
    } else {
        let p = l.drop_last();
        assert(levels_in_tree(p, k)) by {
            assert forall|i: int| 1 <= i < p.len() implies 0 <= #[trigger] p[i] < 2 * (k - i + 1) by {
                assert(p[i] == l[i]);
            }
        }
        lemma_preorder_bound(p, k, e);
        assert(p.subrange(0, e + 1) =~= l.subrange(0, e + 1));
        let t = tree_size(k - d);
        let x = l[d];
        assert(0 <= x < 2 * (k - d + 1));
        assert(tree_size(k - d + 1) == 1 + 2 * (k - d + 1) * t);
        assert(x * t <= (2 * (k - d + 1) - 1) * t) by (nonlinear_arith)
            requires
                0 <= x <= 2 * (k - d + 1) - 1,
                t >= 0,
        ;
        assert((2 * (k - d + 1) - 1) * t == 2 * (k - d + 1) * t - t) by (nonlinear_arith);
    }
}

/// The state of the search: the tree built so far and the way from its root
/// to the node under consideration.
pub struct SolverState {
    pub shared_graph: Graph,
    pub current_path: Vec<NodeId>,
    /// For each node: its parent, its index among the parent's children, its depth.
    pub info: Ghost<Seq<(int, int, int)>>,
    /// For each depth `i >= 1` of the path, the index of the path's node among
    /// the children of the one before.
    pub levels: Ghost<Seq<int>>,
    /// How many children of the path's last node have been seen.
    pub next: Ghost<int>,
    /// For each node: the frame of the way from the root to it.
    pub frames: Ghost<Seq<Seq<Option<bool>>>>,
}

/// Every value that `f` gives, `m` gives too.
pub open spec fn frame_agrees(f: Seq<Option<bool>>, m: Seq<bool>) -> bool {
    forall|x: int| 0 <= x < f.len() && (#[trigger] f[x]) is Some ==> x < m.len() && f[x] == Some(m[x])
}

impl SolverState {
    pub open spec fn path(&self) -> Seq<NodeId> {
        self.current_path@
    }

    pub open spec fn node(&self, id: NodeId) -> Node {
        self.shared_graph.nodes@[id.0 as int]
    }

    pub open spec fn depth(&self) -> int {
        self.path().len() - 1
    }

    pub open spec fn last(&self) -> NodeId {
        self.path().last()
    }

    /// The assignment that the first `i + 1` nodes of the path make over `k`
    /// variables.
    pub open spec fn path_frame(&self, k: nat, i: int) -> Seq<Option<bool>>
        decreases i,
    {
        if i <= 0 {
            Seq::new(k, |_j: int| None)
        } else {
            let n = self.node(self.path()[i]);
            self.path_frame(k, i - 1).update(n.var->Some_0 - 1, Some(n.direction))
        }
    }

    /// Every child of node `q` has been seen.
    pub open spec fn all_seen(&self, q: int) -> bool {
        forall|x: int|
            0 <= x < self.shared_graph.children(q).len() ==> self.node(
                #[trigger] self.shared_graph.children(q)[x],
            ).seen
    }

    /// `new` and `r` are what backing up from `self` gives: the graph is kept
    /// and the path is cut back to its deepest node before the last that
    /// still has an unseen child; `Unsat`, with the path emptied, when no such
    /// node is left.
    pub open spec fn backed_up(&self, new: SolverState, r: Option<Answer>) -> bool {
        &&& new.shared_graph == self.shared_graph
        &&& new.info == self.info
        &&& new.frames == self.frames
        &&& r is Some ==> r->Some_0 is Unsat && new.path().len() == 0 && forall|j: int|
            0 <= j < self.depth() ==> #[trigger] self.all_seen(self.path()[j].0 as int)
        &&& r is None ==> {
            &&& 1 <= new.path().len() <= self.depth()
            &&& new.path() == self.path().subrange(0, new.path().len() as int)
            &&& !self.all_seen(new.last().0 as int)
            &&& forall|j: int| new.depth() < j < self.depth() ==> #[trigger] self.all_seen(self.path()[j].0 as int)
        }
    }

    /// Node `v` is on the path.
    pub open spec fn on_path(&self, v: int) -> bool {
        0 <= self.info@[v].2 < self.path().len() && self.path()[self.info@[v].2].0 == v
    }

    /// Every node that the search has left behind decides against `m`.
    pub open spec fn left_behind_disagree(&self, m: Seq<bool>) -> bool {
        forall|v: int|
            0 <= v < self.shared_graph.nodes@.len() && (#[trigger] self.shared_graph.nodes@[v]).seen
                && !self.on_path(v) ==> !frame_agrees(self.frames@[v], m)
    }

    /// The position, in the full tree's preorder, of the node the next
    /// decision will reach.
    pub open spec fn next_position(&self, k: nat) -> int {
        preorder(self.levels@, k as int) + 1 + self.next@ * tree_size(k - self.depth() - 1)
    }

    pub open spec fn inv(&self, k: nat) -> bool {
        let g = self.shared_graph;
        let p = self.path();
        let l = self.levels@;
        &&& g.wf()
        &&& self.info@.len() == g.nodes@.len()
        &&& k <= usize::MAX
        &&& 1 <= p.len() <= k + 1
        &&& l.len() == p.len()
        &&& levels_in_tree(l, k as int)
        &&& p[0].0 == 0
        &&& self.node(p[0]).var is None
        &&& forall|i: int| 0 <= i < p.len() ==> (#[trigger] p[i]).0 < g.nodes@.len()
        &&& forall|i: int| 0 <= i < p.len() ==> self.node(#[trigger] p[i]).seen
        &&& forall|i: int| 0 <= i < p.len() ==> self.info@[(#[trigger] p[i]).0 as int].2 == i
        &&& forall|i: int|
            1 <= i < p.len() ==> g.expanded(p[i - 1].0 as int) && 0 <= #[trigger] l[i] && l[i] < g.children(
                p[i - 1].0 as int,
            ).len() && g.children(p[i - 1].0 as int)[l[i]] == p[i]
        &&& forall|i: int, x: int|
            1 <= i < p.len() && 0 <= x < g.children(p[i - 1].0 as int).len() ==> (self.node(
                #[trigger] g.children(p[i - 1].0 as int)[x],
            ).seen <==> x <= l[i])
        &&& g.expanded(self.last().0 as int) ==> 0 <= self.next@ < g.children(self.last().0 as int).len()
            && forall|x: int|
            0 <= x < g.children(self.last().0 as int).len() ==> (self.node(
                #[trigger] g.children(self.last().0 as int)[x],
            ).seen <==> x < self.next@)
        &&& !g.expanded(self.last().0 as int) ==> self.next@ == 0
        &&& forall|q: int, x: int|
            g.expanded(q) && 0 <= x < g.children(q).len() ==> #[trigger] self.info@[g.children(q)[x].0 as int]
                == (q, x, self.info@[q].2 + 1)
        &&& self.info@[0].0 == -1
        &&& forall|q: int| #[trigger] g.expanded(q) ==> g.nodes@[q].seen
        &&& forall|i: int|
            0 <= i < p.len() ==> count_unassigned(#[trigger] self.path_frame(k, i)) == k - i
                && self.path_frame(k, i).len() == k
        &&& self.frames@.len() == g.nodes@.len()
        &&& forall|i: int| 1 <= i < p.len() ==> self.frames@[(#[trigger] p[i]).0 as int] == self.path_frame(k, i)
        &&& forall|i: int, x: int|
            0 <= i < p.len() && g.expanded(p[i].0 as int) && 0 <= x < g.children(p[i].0 as int).len() ==> {
                let ch = #[trigger] g.children(p[i].0 as int)[x];
                self.frames@[ch.0 as int] == self.path_frame(k, i).update(
                    self.node(ch).var->Some_0 - 1,
                    Some(self.node(ch).direction),
                )
            }
        &&& forall|i: int|
            0 <= i < p.len() && g.expanded((#[trigger] p[i]).0 as int) ==> {
                let f = self.path_frame(k, i);
                &&& g.children(p[i].0 as int).len() == 2 * count_unassigned(f)
                &&& forall|x: int|
                    0 <= x < g.children(p[i].0 as int).len() ==> self.node(
                        #[trigger] g.children(p[i].0 as int)[x],
                    ).var == Some(unassigned_vars(f)[x / 2]) && self.node(g.children(p[i].0 as int)[x]).direction
                        == (x % 2 == 0)
            }
    }
}


impl SolverState {
    /// The decision at depth `i` is over a variable unassigned before it.
    proof fn lemma_path_step(&self, k: nat, i: int)
        requires
            self.inv(k),
            1 <= i < self.path().len(),
        ensures
            self.node(self.path()[i]).var is Some,
            1 <= self.node(self.path()[i]).var->Some_0 <= k,
            self.path_frame(k, i - 1)[self.node(self.path()[i]).var->Some_0 - 1] is None,
    {
        let p = self.path();
        let g = self.shared_graph;
        let f = self.path_frame(k, i - 1);
        let l = self.levels@;
        assert(g.expanded(p[i - 1].0 as int) && 0 <= l[i] < g.children(p[i - 1].0 as int).len());
        assert(g.children(p[i - 1].0 as int)[l[i]] == p[i]);
        assert(count_unassigned(f) == k - (i - 1) && f.len() == k);
        lemma_unassigned_vars(f);
        assert(l[i] / 2 < unassigned_vars(f).len());
        assert(self.node(g.children(p[i - 1].0 as int)[l[i]]).var == Some(unassigned_vars(f)[l[i] / 2]));
    }

    /// The frame of the current path: every decision on it, applied in order.
    pub fn compute_frame(&self, size: usize) -> (r: SolverFrame)
        requires
            self.inv(size as nat),
        ensures
            r.wf(),
            r@ == self.path_frame(size as nat, self.depth()),
    {
        let ghost k = size as nat;
        let mut frame = SolverFrame::new(size);
        assert(frame@ =~= self.path_frame(k, 0));
        let mut i: usize = 0;
        while i < self.current_path.len()
            invariant
                self.inv(k),
                k == size,
                frame.wf(),
                i <= self.path().len(),
                frame@ == self.path_frame(k, i - 1),
            decreases self.path().len() - i,
        {
            let id = self.current_path[i];
            let node = self.shared_graph.get(id);
            if i == 0 {
                assert(node.var is None);
            } else {
                proof {
                    self.lemma_path_step(k, i as int);
                }
            }
            match node.var {
                Some(var) => {
                    if node.direction {
                        frame.set_true(var);
                    } else {
                        frame.set_false(var);
                    }
                },
                None => {},
            }
            i = i + 1;
        }
        frame
    }
}


/// The frame of a path prefix depends only on the decisions along it.
proof fn lemma_frame_stable(a: SolverState, b: SolverState, k: nat, i: int)
    requires
        0 <= i < a.path().len(),
        i < b.path().len(),
        forall|j: int| 0 <= j <= i ==> #[trigger] a.path()[j] == b.path()[j],
        forall|j: int|
            1 <= j <= i ==> (#[trigger] a.node(a.path()[j])).var == b.node(b.path()[j]).var && a.node(
                a.path()[j],
            ).direction == b.node(b.path()[j]).direction,
    ensures
        a.path_frame(k, i) == b.path_frame(k, i),
    decreases i,
{
    if i > 0 {
        lemma_frame_stable(a, b, k, i - 1);
        assert(a.node(a.path()[i]).var == b.node(b.path()[i]).var);
    }
}

/// The graph `b` holds every node of `a`, and each node but `except` is seen
/// in `b` exactly when it was seen in `a`; nodes new in `b` are unseen.
pub open spec fn seen_kept(a: Graph, b: Graph, except: int) -> bool {
    &&& a.nodes@.len() <= b.nodes@.len()
    &&& forall|v: int|
        0 <= v < b.nodes@.len() && v != except ==> (#[trigger] b.nodes@[v]).seen == (v < a.nodes@.len()
            && a.nodes@[v].seen)
}

impl SolverState {
    /// Expands the path's last node if needed and steps to its first unseen
    /// child, marking it. `None` when the frame leaves no variable to decide.
    pub fn make_decision(&mut self, frame: &SolverFrame) -> (r: Option<NodeId>)
        requires
            old(self).inv(frame@.len()),
            frame.wf(),
            frame@ == old(self).path_frame(frame@.len(), old(self).depth()),
        ensures
            r is None ==> {
                &&& count_unassigned(frame@) == 0
                &&& final(self).path() == old(self).path()
                &&& final(self).shared_graph.expanded(old(self).last().0 as int)
                &&& final(self).shared_graph.children(old(self).last().0 as int).len() == 0
                &&& seen_kept(old(self).shared_graph, final(self).shared_graph, -1)
            },
            r is Some ==> {
                let id = r->Some_0;
                let kids = final(self).shared_graph.children(old(self).last().0 as int);
                let x = final(self).levels@.last();
                &&& count_unassigned(frame@) > 0
                &&& 0 <= x < kids.len() && kids[x] == id
                &&& forall|y: int| 0 <= y < x ==> final(self).node(#[trigger] kids[y]).seen
                &&& final(self).node(id).seen
                &&& (id.0 >= old(self).shared_graph.nodes@.len() || !old(self).node(id).seen)
                &&& seen_kept(old(self).shared_graph, final(self).shared_graph, id.0 as int)
                &&& final(self).inv(frame@.len())
                &&& final(self).path() == old(self).path().push(r->Some_0)
                &&& preorder(final(self).levels@, frame@.len() as int) == old(self).next_position(frame@.len())
                &&& final(self).next@ == 0
                &&& forall|i: int|
                    0 <= i <= old(self).depth() ==> #[trigger] final(self).path_frame(frame@.len(), i)
                        == old(self).path_frame(frame@.len(), i)
                &&& forall|m: Seq<bool>| #[trigger] old(self).left_behind_disagree(m) ==> final(self).left_behind_disagree(m)
            },
    {
        let ghost k = frame@.len();
        let ghost s0 = *self;
        let ghost d = self.depth();
        let last_index = self.current_path.len() - 1;
        let current = self.current_path[last_index];
        let ghost n0 = self.shared_graph.nodes@.len() as int;
        let ghost was_expanded = self.shared_graph.expanded(current.0 as int);
        self.shared_graph.expand_frontier(current, frame);
        proof {
            if !was_expanded {
                let c = self.shared_graph.children(current.0 as int).len() as int;
                self.info = Ghost(
                    s0.info@ + Seq::new(c as nat, |x: int| (current.0 as int, x, s0.info@[current.0 as int].2 + 1)),
                );
                self.frames = Ghost(
                    s0.frames@ + Seq::new(
                        c as nat,
                        |x: int| frame@.update(unassigned_vars(frame@)[x / 2] - 1, Some(x % 2 == 0)),
                    ),
                );
            }
        }
        let ghost s1 = *self;
        proof {
            if was_expanded {
                assert(s1 == s0);
            }
            assert forall|j: int| 0 <= j <= d implies #[trigger] s0.path()[j] == s1.path()[j] by {}
            assert forall|j: int| 0 <= j < s1.path().len() implies s1.node(#[trigger] s1.path()[j]) == s0.node(
                s0.path()[j],
            ) by {
                assert(s0.path()[j].0 < n0);
                if !was_expanded {
                    assert(s1.shared_graph.nodes@[s0.path()[j].0 as int] == s1.shared_graph.nodes@.subrange(0, n0)[s0.path()[j].0 as int]);
                }
            }
            assert forall|j: int| 0 <= j <= d implies s0.path_frame(k, j) == s1.path_frame(k, j) by {
                lemma_frame_stable(s0, s1, k, j);
            }
            lemma_unassigned_vars(frame@);
        }
        let nbrs = self.shared_graph.neighbors(current);
        proof {
            assert forall|y: int| 0 <= y < nbrs@.len() implies (#[trigger] nbrs@[y]).0 < s1.shared_graph.nodes@.len() by {
                assert(s1.shared_graph.neighbors@[current.0 as int]->Some_0@[y] == nbrs@[y]);
            }
        }
        let mut x: usize = 0;
        while x < nbrs.len()
            invariant
                *self == s1,
                nbrs@ == s1.shared_graph.children(current.0 as int),
                x <= nbrs@.len(),
                s1.shared_graph.wf(),
                forall|y: int| 0 <= y < nbrs@.len() ==> (#[trigger] nbrs@[y]).0 < s1.shared_graph.nodes@.len(),
                forall|y: int| 0 <= y < x ==> s1.node(#[trigger] nbrs@[y]).seen,
            ensures
                x <= nbrs@.len(),
                forall|y: int| 0 <= y < x ==> s1.node(#[trigger] nbrs@[y]).seen,
                x < nbrs@.len() ==> !s1.node(nbrs@[x as int]).seen,
            decreases nbrs@.len() - x,
        {
            if !self.shared_graph.get(nbrs[x]).seen {
                break;
            }
            x = x + 1;
        }
        if x == nbrs.len() {
            proof {
                if nbrs@.len() > 0 {
                    if was_expanded {
                        assert(s1.node(nbrs@[s0.next@]).seen);
                    } else {
                        assert(s1.shared_graph.nodes@[n0 + 0] == child_node(frame@, 0));
                        assert(s1.node(nbrs@[0]).seen);
                    }
                }
            }
            return None;
        }
        let chosen = nbrs[x];
        proof {
            if was_expanded {
                assert(s1.shared_graph == s0.shared_graph);
                assert(!s0.node(nbrs@[x as int]).seen);
                if x > s0.next@ {
                    assert(s1.node(nbrs@[s0.next@]).seen);
                }
                assert(x == s0.next@);
            } else {
                assert(s1.shared_graph.nodes@[n0 + 0] == child_node(frame@, 0));
                assert(x == 0);
            }
        }
        let mut node = self.shared_graph.nodes[chosen.0];
        node.mark();
        self.shared_graph.nodes.set(chosen.0, node);
        self.current_path.push(chosen);
        self.levels = Ghost(self.levels@.push(x as int));
        self.next = Ghost(0);
        proof {
            lemma_expand_keeps_inv(s0, s1, k, frame@, n0, was_expanded);
            lemma_step_down(s1, *self, k, x as int, chosen);
            let g0 = s0.shared_graph;
            let g1 = s1.shared_graph;
            let g2 = self.shared_graph;
            let kids = g2.children(current.0 as int);
            assert(kids == nbrs@);
            assert(self.levels@.last() == x);
            assert(s1.inv(k));
            assert(s1.path()[d] == current);
            assert(g1.children(current.0 as int).len() == 2 * count_unassigned(s1.path_frame(k, d)));
            assert(s1.path_frame(k, d) == s0.path_frame(k, d));
            assert forall|v: int| 0 <= v < g1.nodes@.len() implies (#[trigger] g1.nodes@[v]).seen == (v
                < g0.nodes@.len() && g0.nodes@[v].seen) by {
                if !was_expanded {
                    if v < n0 {
                        assert(g1.nodes@[v] == g1.nodes@.subrange(0, n0)[v]);
                    } else {
                        assert(g1.nodes@[n0 + (v - n0)] == child_node(frame@, v - n0));
                    }
                }
            }
            assert forall|y: int| 0 <= y < x implies self.node(#[trigger] kids[y]).seen by {
                assert(s1.node(nbrs@[y]).seen);
                assert(nbrs@[y].0 != chosen.0);
            }
        }
        Some(chosen)
    }
}


/// Expanding the last node of the path, when it gets children, keeps the
/// invariant.
proof fn lemma_expand_keeps_inv(
    s0: SolverState,
    s1: SolverState,
    k: nat,
    f: Seq<Option<bool>>,
    n0: int,
    was_expanded: bool,
)
    requires
        s0.inv(k),
        f == s0.path_frame(k, s0.depth()),
        n0 == s0.shared_graph.nodes@.len(),
        was_expanded == s0.shared_graph.expanded(s0.last().0 as int),
        s1.path() == s0.path(),
        s1.levels == s0.levels,
        s1.next == s0.next,
        s1.shared_graph.wf(),
        s1.shared_graph.expanded(s0.last().0 as int),
        s1.shared_graph.children(s0.last().0 as int).len() > 0,
        was_expanded ==> s1 == s0,
        !was_expanded ==> {
            let cur = s0.last().0 as int;
            let c = s1.shared_graph.children(cur).len();
            &&& c == 2 * count_unassigned(f)
            &&& s1.shared_graph.nodes@.len() == n0 + c
            &&& s1.shared_graph.nodes@.subrange(0, n0) == s0.shared_graph.nodes@
            &&& forall|x: int| 0 <= x < c ==> (#[trigger] s1.shared_graph.children(cur)[x]).0 == n0 + x
            &&& forall|x: int| 0 <= x < c ==> #[trigger] s1.shared_graph.nodes@[n0 + x] == child_node(f, x)
            &&& forall|p: int| 0 <= p < n0 && p != cur ==> #[trigger] s1.shared_graph.neighbors@[p] == s0.shared_graph.neighbors@[p]
            &&& forall|p: int| n0 <= p < s1.shared_graph.neighbors@.len() ==> #[trigger] s1.shared_graph.neighbors@[p] is None
            &&& s1.info@ == s0.info@ + Seq::new(c, |x: int| (cur, x, s0.info@[cur].2 + 1))
            &&& s1.frames@ == s0.frames@ + Seq::new(c, |x: int| f.update(unassigned_vars(f)[x / 2] - 1, Some(x % 2 == 0)))
        },
    ensures
        s1.inv(k),
        forall|m: Seq<bool>| #[trigger] s0.left_behind_disagree(m) ==> s1.left_behind_disagree(m),
        forall|i: int| 0 <= i < s0.path().len() ==> #[trigger] s1.path_frame(k, i) == s0.path_frame(k, i),
{
    if was_expanded {
        return;
    }
    let cur = s0.last().0 as int;
    let g0 = s0.shared_graph;
    let g1 = s1.shared_graph;
    let p = s0.path();
    let d = s0.depth();
    let c = g1.children(cur).len() as int;
    assert forall|id: int| 0 <= id < n0 implies #[trigger] g1.nodes@[id] == g0.nodes@[id] && s1.info@[id] == s0.info@[id]
        && s1.frames@[id] == s0.frames@[id] by {
        assert(g1.nodes@[id] == g1.nodes@.subrange(0, n0)[id]);
    }
    assert forall|m: Seq<bool>| #[trigger] s0.left_behind_disagree(m) implies s1.left_behind_disagree(m) by {
        assert forall|v: int|
            0 <= v < g1.nodes@.len() && (#[trigger] g1.nodes@[v]).seen && !s1.on_path(v) implies !frame_agrees(
            s1.frames@[v],
            m,
        ) by {
            if v >= n0 {
                assert(g1.nodes@[n0 + (v - n0)] == child_node(f, v - n0));
            } else {
                assert(g0.nodes@[v].seen);
            }
        }
    }
    assert forall|q: int| #[trigger] g1.expanded(q) && q != cur implies 0 <= q < n0 && g0.expanded(q) && g1.children(q) == g0.children(q) by {
        if q >= n0 {
            assert(g1.neighbors@[q] is None);
        } else {
            assert(g1.neighbors@[q] == g0.neighbors@[q]);
        }
    }
    assert forall|i: int| 0 <= i < p.len() implies (#[trigger] p[i]).0 != cur || i == d by {
        if p[i].0 == cur {
            assert(s0.info@[p[i].0 as int].2 == i);
            assert(s0.info@[p[d].0 as int].2 == d);
        }
    }
    assert forall|i: int| 0 <= i < p.len() implies s1.path_frame(k, i) == s0.path_frame(k, i) by {
        assert forall|j: int| 1 <= j <= i implies (#[trigger] s1.node(s1.path()[j])).var == s0.node(s0.path()[j]).var
            && s1.node(s1.path()[j]).direction == s0.node(s0.path()[j]).direction by {
            assert(p[j].0 < n0);
        }
        lemma_frame_stable(s0, s1, k, i);
    }
    assert(s1.inv(k)) by {
        let l1 = s1.levels@;
        let pp = s1.path();
        assert forall|i: int| 0 <= i < p.len() implies (#[trigger] p[i]).0 < g1.nodes@.len() && s1.node(p[i]).seen
            && s1.info@[p[i].0 as int].2 == i by {
            assert(p[i].0 < n0);
        }
        assert forall|i: int| 1 <= i < pp.len() implies g1.expanded(pp[i - 1].0 as int) && 0 <= #[trigger] l1[i] && l1[i] < g1.children(pp[i - 1].0 as int).len() && g1.children(pp[i - 1].0 as int)[l1[i]] == pp[i] by {
            assert(pp[i - 1] == p[i - 1] && pp[i] == p[i]);
            assert(0 <= s0.levels@[i]);
            assert(g0.expanded(p[i - 1].0 as int));
            assert(p[i - 1].0 != cur);
            assert(g1.neighbors@[p[i - 1].0 as int] == g0.neighbors@[p[i - 1].0 as int]);
        }
        assert forall|i: int, x: int|
            1 <= i < p.len() && 0 <= x < g1.children(p[i - 1].0 as int).len() implies (s1.node(
                #[trigger] g1.children(p[i - 1].0 as int)[x],
            ).seen <==> x <= s1.levels@[i]) by {
            assert(p[i - 1].0 != cur);
            assert(g1.neighbors@[p[i - 1].0 as int] == g0.neighbors@[p[i - 1].0 as int]);
            assert(g0.children(p[i - 1].0 as int)[x].0 < n0);
        }
        assert forall|x: int| 0 <= x < g1.children(cur).len() implies (s1.node(
            #[trigger] g1.children(cur)[x],
        ).seen <==> x < s1.next@) by {
            assert(g1.nodes@[n0 + x] == child_node(f, x));
        }
        assert forall|q: int, x: int|
            g1.expanded(q) && 0 <= x < g1.children(q).len() implies #[trigger] s1.info@[g1.children(q)[x].0 as int]
            == (q, x, s1.info@[q].2 + 1) by {
            if q == cur {
                assert(g1.children(q)[x].0 == n0 + x);
            } else {
                assert(g0.children(q)[x].0 < n0);
                assert(s0.info@[g0.children(q)[x].0 as int] == (q, x, s0.info@[q].2 + 1));
            }
        }
        assert forall|q: int| #[trigger] g1.expanded(q) implies g1.nodes@[q].seen by {
            if q == cur {
                assert(s0.node(p[d]).seen);
            }
        }
        assert forall|i: int|
            0 <= i < p.len() && g1.expanded((#[trigger] p[i]).0 as int) implies {
                let fi = s1.path_frame(k, i);
                &&& g1.children(p[i].0 as int).len() == 2 * count_unassigned(fi)
                &&& forall|x: int|
                    0 <= x < g1.children(p[i].0 as int).len() ==> s1.node(
                        #[trigger] g1.children(p[i].0 as int)[x],
                    ).var == Some(unassigned_vars(fi)[x / 2]) && s1.node(g1.children(p[i].0 as int)[x]).direction
                        == (x % 2 == 0)
            } by {
            if p[i].0 == cur {
                assert(i == d);
                assert forall|x: int| 0 <= x < g1.children(cur).len() implies s1.node(#[trigger] g1.children(cur)[x])
                    == child_node(f, x) by {
                    assert(g1.children(cur)[x].0 == n0 + x);
                }
            } else {
                assert(g1.children(p[i].0 as int) == g0.children(p[i].0 as int));
                assert forall|x: int| 0 <= x < g0.children(p[i].0 as int).len() implies s1.node(
                    #[trigger] g1.children(p[i].0 as int)[x],
                ) == s0.node(g0.children(p[i].0 as int)[x]) by {
                    assert(g0.children(p[i].0 as int)[x].0 < n0);
                }
            }
        }
        assert forall|i: int| 1 <= i < pp.len() implies #[trigger] g1.expanded(pp[i - 1].0 as int) by {
            assert(0 <= l1[i]);
        }
        assert(forall|i: int| 1 <= i < pp.len() ==> 0 <= #[trigger] l1[i] && l1[i] < g1.children(pp[i - 1].0 as int).len());
        assert(forall|i: int| 1 <= i < pp.len() ==> #[trigger] g1.children(pp[i - 1].0 as int)[l1[i]] == pp[i]);
    }
}

/// Marking the first unseen child of the last node and stepping to it keeps
/// the invariant, and reaches the position the measure announced.
proof fn lemma_step_down(s1: SolverState, s2: SolverState, k: nat, x: int, ch: NodeId)
    requires
        s1.inv(k),
        s1.shared_graph.expanded(s1.last().0 as int),
        x == s1.next@,
        s1.shared_graph.children(s1.last().0 as int)[x] == ch,
        s2.shared_graph.neighbors@ == s1.shared_graph.neighbors@,
        s2.shared_graph.nodes@ == s1.shared_graph.nodes@.update(
            ch.0 as int,
            Node { seen: true, ..s1.node(ch) },
        ),
        s2.path() == s1.path().push(ch),
        s2.levels@ == s1.levels@.push(x),
        s2.next@ == 0,
        s2.info == s1.info,
        s2.frames == s1.frames,
    ensures
        s2.inv(k),
        preorder(s2.levels@, k as int) == s1.next_position(k),
        forall|m: Seq<bool>| #[trigger] s1.left_behind_disagree(m) ==> s2.left_behind_disagree(m),
        forall|i: int| 0 <= i <= s1.depth() ==> #[trigger] s2.path_frame(k, i) == s1.path_frame(k, i),
{
    let g1 = s1.shared_graph;
    let g2 = s2.shared_graph;
    let p1 = s1.path();
    let p2 = s2.path();
    let d = s1.depth();
    let cur = s1.last().0 as int;
    let c = ch.0 as int;
    let f = s1.path_frame(k, d);
    assert(p1[d] == s1.last());
    assert(g1.children(cur).len() == 2 * count_unassigned(f));
    assert(count_unassigned(f) == k - d);
    assert(d + 1 <= k);
    assert(s2.levels@.drop_last() =~= s1.levels@);
    assert(c < g1.nodes@.len());
    assert(s1.info@[c] == (cur, x, s1.info@[cur].2 + 1));
    assert(!s1.node(ch).seen);
    assert(!g1.expanded(c));
    // nodes other than the chosen one keep their state; the chosen keeps its decision
    assert forall|id: int| 0 <= id < g1.nodes@.len() && id != c implies #[trigger] g2.nodes@[id] == g1.nodes@[id] by {}
    assert forall|i: int| 0 <= i < p1.len() implies (#[trigger] p1[i]).0 != c by {
        assert(s1.info@[p1[i].0 as int].2 == i);
    }
    assert forall|i: int| 0 <= i <= d implies s2.path_frame(k, i) == s1.path_frame(k, i) by {
        assert forall|j: int| 0 <= j <= i implies #[trigger] s2.path()[j] == s1.path()[j] by {}
        assert forall|j: int| 1 <= j <= i implies (#[trigger] s2.node(s2.path()[j])).var == s1.node(s1.path()[j]).var
            && s2.node(s2.path()[j]).direction == s1.node(s1.path()[j]).direction by {
            assert(p2[j] == p1[j]);
        }
        lemma_frame_stable(s2, s1, k, i);
    }
    lemma_unassigned_vars(f);
    assert(s1.node(ch).var == Some(unassigned_vars(f)[x / 2]));
    let v = unassigned_vars(f)[x / 2];
    assert(s2.node(p2[d + 1]) == Node { seen: true, ..s1.node(ch) });
    assert(s2.path_frame(k, d + 1) == f.update(v - 1, Some(s1.node(ch).direction)));
    crate::dpllsolver::lemma_count_update(f, v - 1, Some(s1.node(ch).direction));
    assert forall|q: int| #[trigger] g2.children(q) == g1.children(q) && g2.expanded(q) == g1.expanded(q) by {}
    assert(s1.frames@[c] == f.update(s1.node(ch).var->Some_0 - 1, Some(s1.node(ch).direction)));
    assert forall|m: Seq<bool>| #[trigger] s1.left_behind_disagree(m) implies s2.left_behind_disagree(m) by {
        assert forall|v: int|
            0 <= v < g2.nodes@.len() && (#[trigger] g2.nodes@[v]).seen && !s2.on_path(v) implies !frame_agrees(
            s2.frames@[v],
            m,
        ) by {
            if v != c {
                assert(g1.nodes@[v].seen);
                let dv = s1.info@[v].2;
                if 0 <= dv < p1.len() && p1[dv].0 == v {
                    assert(p2[dv] == p1[dv]);
                }
            } else {
                assert(p2[d + 1] == ch);
            }
        }
    }
    assert(s2.inv(k)) by {
        assert forall|i: int| 1 <= i < p2.len() implies s2.frames@[(#[trigger] p2[i]).0 as int] == s2.path_frame(k, i) by {
            if i <= d {
                assert(p2[i] == p1[i]);
            } else {
                assert(p2[i] == ch);
            }
        }
        assert forall|i: int, y: int|
            0 <= i < p2.len() && g2.expanded(p2[i].0 as int) && 0 <= y < g2.children(p2[i].0 as int).len() implies {
                let cc = #[trigger] g2.children(p2[i].0 as int)[y];
                s2.frames@[cc.0 as int] == s2.path_frame(k, i).update(
                    s2.node(cc).var->Some_0 - 1,
                    Some(s2.node(cc).direction),
                )
            } by {
            assert(i <= d);
            assert(p2[i] == p1[i]);
            let cc = g1.children(p1[i].0 as int)[y];
            assert(s1.frames@[cc.0 as int] == s1.path_frame(k, i).update(
                s1.node(cc).var->Some_0 - 1,
                Some(s1.node(cc).direction),
            ));
        }
        assert forall|i: int| 0 <= i < p2.len() implies (#[trigger] p2[i]).0 < g2.nodes@.len() && s2.node(p2[i]).seen
            && s2.info@[p2[i].0 as int].2 == i by {
            if i <= d {
                assert(p2[i] == p1[i]);
            }
        }
        assert forall|i: int| 1 <= i < p2.len() implies g2.expanded(p2[i - 1].0 as int) && 0 <= #[trigger] s2.levels@[i]
            < g2.children(p2[i - 1].0 as int).len() && g2.children(p2[i - 1].0 as int)[s2.levels@[i]] == p2[i] by {
            if i <= d {
                assert(p2[i] == p1[i] && p2[i - 1] == p1[i - 1] && s2.levels@[i] == s1.levels@[i]);
            } else {
                assert(p2[i - 1] == p1[d]);
            }
        }
        assert forall|i: int, y: int|
            1 <= i < p2.len() && 0 <= y < g2.children(p2[i - 1].0 as int).len() implies (s2.node(
                #[trigger] g2.children(p2[i - 1].0 as int)[y],
            ).seen <==> y <= s2.levels@[i]) by {
            let q = p2[i - 1].0 as int;
            let id = g1.children(q)[y].0 as int;
            assert(s1.info@[id] == (q, y, s1.info@[q].2 + 1));
            if i <= d {
                assert(p2[i - 1] == p1[i - 1] && s2.levels@[i] == s1.levels@[i]);
                assert(s1.info@[q].2 == i - 1);
                assert(s1.info@[cur].2 == d);
                assert(id != c);
            } else {
                assert(p2[i - 1] == p1[d]);
                if y != x {
                    assert(id != c);
                }
            }
        }
        assert forall|i: int|
            0 <= i < p2.len() implies count_unassigned(#[trigger] s2.path_frame(k, i)) == k - i
                && s2.path_frame(k, i).len() == k by {
            if i <= d {
                assert(s2.path_frame(k, i) == s1.path_frame(k, i));
            }
        }
        assert forall|i: int|
            0 <= i < p2.len() && g2.expanded((#[trigger] p2[i]).0 as int) implies {
                let fi = s2.path_frame(k, i);
                &&& g2.children(p2[i].0 as int).len() == 2 * count_unassigned(fi)
                &&& forall|y: int|
                    0 <= y < g2.children(p2[i].0 as int).len() ==> s2.node(
                        #[trigger] g2.children(p2[i].0 as int)[y],
                    ).var == Some(unassigned_vars(fi)[y / 2]) && s2.node(g2.children(p2[i].0 as int)[y]).direction
                        == (y % 2 == 0)
            } by {
            assert(i <= d);
            assert(p2[i] == p1[i]);
            assert(s2.path_frame(k, i) == s1.path_frame(k, i));
            assert forall|y: int| 0 <= y < g1.children(p1[i].0 as int).len() implies s2.node(
                #[trigger] g2.children(p2[i].0 as int)[y],
            ).var == s1.node(g1.children(p1[i].0 as int)[y]).var && s2.node(g2.children(p2[i].0 as int)[y]).direction
                == s1.node(g1.children(p1[i].0 as int)[y]).direction by {}
        }
        assert forall|q: int| #[trigger] g2.expanded(q) implies g2.nodes@[q].seen by {
            assert(g1.expanded(q));
        }
        let l2 = s2.levels@;
        assert forall|i: int| 1 <= i < p2.len() implies #[trigger] g2.expanded(p2[i - 1].0 as int) by {
            assert(0 <= l2[i]);
        }
        assert(forall|i: int| 1 <= i < p2.len() ==> 0 <= #[trigger] l2[i] && l2[i] < g2.children(p2[i - 1].0 as int).len());
        assert(forall|i: int| 1 <= i < p2.len() ==> #[trigger] g2.children(p2[i - 1].0 as int)[l2[i]] == p2[i]);
    }
}


proof fn lemma_count_all_unassigned(k: nat)
    ensures
        count_unassigned(Seq::new(k, |_j: int| None::<bool>)) == k,
    decreases k,
{
    if k > 0 {
        lemma_count_all_unassigned((k - 1) as nat);
        assert(Seq::new(k, |_j: int| None::<bool>).drop_last() =~= Seq::new((k - 1) as nat, |_j: int| None::<bool>));
    }
}

proof fn lemma_count_zero_complete(f: Seq<Option<bool>>)
    requires
        count_unassigned(f) == 0,
    ensures
        forall|i: int| 0 <= i < f.len() ==> (#[trigger] f[i]) is Some,
    decreases f.len(),
{
    if f.len() > 0 {
        lemma_count_zero_complete(f.drop_last());
        assert forall|i: int| 0 <= i < f.len() implies (#[trigger] f[i]) is Some by {
            if i < f.len() - 1 {
                assert(f.drop_last()[i] == f[i]);
            }
        }
    }
}

/// The position the measure announces never passes the size of the full tree.
proof fn lemma_next_position_bound(st: SolverState, k: nat)
    requires
        st.inv(k),
    ensures
        st.next_position(k) <= tree_size(k as int),
{
    let l = st.levels@;
    let d = st.depth();
    lemma_preorder_bound(l, k as int, 0);
    assert(l.subrange(0, 1).len() == 1);
    let t = tree_size(k - d - 1);
    lemma_tree_size_pos(k - d - 1);
    if st.shared_graph.expanded(st.last().0 as int) {
        let p = st.path();
        assert(p[d] == st.last());
        assert(count_unassigned(st.path_frame(k, d)) == k - d);
        let n = st.next@;
        assert(0 <= n < 2 * (k - d));
        assert(tree_size(k - d) == 1 + 2 * (k - d) * t);
        assert(n * t <= (2 * (k - d) - 1) * t) by (nonlinear_arith)
            requires
                0 <= n <= 2 * (k - d) - 1,
                t >= 0,
        ;
        assert((2 * (k - d) - 1) * t == 2 * (k - d) * t - t) by (nonlinear_arith);
    }
}

proof fn lemma_count_assigned_full(c: Seq<Atom>, f: Seq<Option<bool>>)
    requires
        count_assigned(c, f) == c.len(),
    ensures
        forall|j: int| 0 <= j < c.len() ==> atom_assigned(#[trigger] c[j], f),
    decreases c.len(),
{
    if c.len() > 0 {
        lemma_count_assigned_le(c.drop_last(), f);
        lemma_count_assigned_full(c.drop_last(), f);
        assert forall|j: int| 0 <= j < c.len() implies atom_assigned(#[trigger] c[j], f) by {
            if j < c.len() - 1 {
                assert(c.drop_last()[j] == c[j]);
            }
        }
    }
}

/// A frame under which a clause conflicts disagrees with every assignment
/// that satisfies the clause.
proof fn lemma_conflict_disagrees(c: Seq<Atom>, f: Seq<Option<bool>>, m: Seq<bool>)
    requires
        clause_state(c, f) == ClauseState::Conflicting,
        model_satisfies(c, m),
        f.len() == m.len(),
    ensures
        !frame_agrees(f, m),
{
    lemma_count_assigned_full(c, f);
    let j = choose|j: int| 0 <= j < c.len() && 1 <= (#[trigger] c[j]).id <= m.len() && m[c[j].id - 1] == !c[j].negated;
    assert(atom_assigned(c[j], f));
    if frame_agrees(f, m) {
        assert(f[c[j].id - 1] is Some);
        assert(atom_satisfied(c[j], f));
    }
}

/// A node on the path whose children all disagree with `m` disagrees with it too.
proof fn lemma_parent_disagrees(st: SolverState, k: nat, e: int, m: Seq<bool>)
    requires
        st.inv(k),
        0 <= e < st.path().len(),
        e < k,
        m.len() == k,
        st.shared_graph.expanded(st.path()[e].0 as int),
        forall|x: int|
            0 <= x < st.shared_graph.children(st.path()[e].0 as int).len() ==> !frame_agrees(
                st.frames@[(#[trigger] st.shared_graph.children(st.path()[e].0 as int)[x]).0 as int],
                m,
            ),
    ensures
        !frame_agrees(st.path_frame(k, e), m),
{
    let f = st.path_frame(k, e);
    let q = st.path()[e].0 as int;
    let g = st.shared_graph;
    assert(count_unassigned(f) == k - e && f.len() == k);
    lemma_unassigned_vars(f);
    let u = unassigned_vars(f);
    let v = u[0];
    let x: int = if m[v - 1] { 0 } else { 1 };
    assert(x / 2 == 0);
    let ch = g.children(q)[x];
    assert(st.node(ch).var == Some(v));
    assert(st.node(ch).direction == m[v - 1]);
    assert(st.frames@[ch.0 as int] == f.update(v - 1, Some(m[v - 1])));
    if frame_agrees(f, m) {
        let h = f.update(v - 1, Some(m[v - 1]));
        assert forall|y: int| 0 <= y < h.len() && (#[trigger] h[y]) is Some implies y < m.len() && h[y] == Some(m[y]) by {
            if y != v - 1 {
                assert(f[y] is Some);
            }
        }
        assert(frame_agrees(h, m));
    }
}

/// Backing up from the last node to an ancestor that still has an unseen child
/// keeps the invariant and moves the announced position past every node below
/// the children already seen.
proof fn lemma_back_up(s0: SolverState, s1: SolverState, k: nat, e: int)
    requires
        s0.inv(k),
        0 <= e < s0.depth(),
        s1.shared_graph == s0.shared_graph,
        s1.info == s0.info,
        s1.path() == s0.path().subrange(0, e + 1),
        s1.levels@ == s0.levels@.subrange(0, e + 1),
        s1.next@ == s0.levels@[e + 1] + 1,
        s1.frames == s0.frames,
        exists|x: int|
            0 <= x < s0.shared_graph.children(s0.path()[e].0 as int).len() && !s0.node(
                #[trigger] s0.shared_graph.children(s0.path()[e].0 as int)[x],
            ).seen,
    ensures
        s1.inv(k),
        s1.next_position(k) > preorder(s0.levels@, k as int),
        forall|i: int| 0 <= i <= e ==> #[trigger] s1.path_frame(k, i) == s0.path_frame(k, i),
{
    let g = s0.shared_graph;
    let p0 = s0.path();
    let p1 = s1.path();
    let l0 = s0.levels@;
    let l1 = s1.levels@;
    let q = p0[e].0 as int;
    assert(0 <= l0[e + 1]);
    assert(g.expanded(q) && l0[e + 1] < g.children(q).len());
    let x = choose|x: int| 0 <= x < g.children(q).len() && !s0.node(#[trigger] g.children(q)[x]).seen;
    assert(x > l0[e + 1]);
    assert(p1.last() == p0[e]);
    assert forall|i: int| 0 <= i <= e implies s1.path_frame(k, i) == s0.path_frame(k, i) by {
        assert forall|j: int| 0 <= j <= i implies #[trigger] s1.path()[j] == s0.path()[j] by {}
        assert forall|j: int| 1 <= j <= i implies (#[trigger] s1.node(s1.path()[j])).var == s0.node(s0.path()[j]).var
            && s1.node(s1.path()[j]).direction == s0.node(s0.path()[j]).direction by {
            assert(p1[j] == p0[j]);
        }
        lemma_frame_stable(s1, s0, k, i);
    }
    assert(s1.inv(k)) by {
        assert forall|i: int| 1 <= i < p1.len() implies s1.frames@[(#[trigger] p1[i]).0 as int] == s1.path_frame(k, i) by {
            assert(p1[i] == p0[i]);
        }
        assert forall|i: int, y: int|
            0 <= i < p1.len() && g.expanded(p1[i].0 as int) && 0 <= y < g.children(p1[i].0 as int).len() implies {
                let cc = #[trigger] g.children(p1[i].0 as int)[y];
                s1.frames@[cc.0 as int] == s1.path_frame(k, i).update(
                    s1.node(cc).var->Some_0 - 1,
                    Some(s1.node(cc).direction),
                )
            } by {
            assert(p1[i] == p0[i]);
        }
        assert(levels_in_tree(l1, k as int)) by {
            assert forall|i: int| 1 <= i < l1.len() implies 0 <= #[trigger] l1[i] < 2 * (k - i + 1) by {
                assert(l1[i] == l0[i]);
            }
        }
        assert forall|i: int| 0 <= i < p1.len() implies (#[trigger] p1[i]).0 < g.nodes@.len() && s1.node(p1[i]).seen
            && s1.info@[p1[i].0 as int].2 == i by {
            assert(p1[i] == p0[i]);
        }
        assert forall|i: int| 1 <= i < p1.len() implies #[trigger] g.expanded(p1[i - 1].0 as int) by {
            assert(p1[i - 1] == p0[i - 1] && l1[i] == l0[i]);
            assert(0 <= l0[i]);
        }
        assert forall|i: int| 1 <= i < p1.len() implies 0 <= #[trigger] l1[i] && l1[i] < g.children(
            p1[i - 1].0 as int,
        ).len() && g.children(p1[i - 1].0 as int)[l1[i]] == p1[i] by {
            assert(p1[i - 1] == p0[i - 1] && l1[i] == l0[i] && p1[i] == p0[i]);
            assert(0 <= l0[i]);
        }
        assert forall|i: int, y: int|
            1 <= i < p1.len() && 0 <= y < g.children(p1[i - 1].0 as int).len() implies (s1.node(
                #[trigger] g.children(p1[i - 1].0 as int)[y],
            ).seen <==> y <= l1[i]) by {
            assert(p1[i - 1] == p0[i - 1] && l1[i] == l0[i]);
        }
        assert forall|y: int| 0 <= y < g.children(q).len() implies (s1.node(#[trigger] g.children(q)[y]).seen
            <==> y < s1.next@) by {}
        assert forall|i: int|
            0 <= i < p1.len() implies count_unassigned(#[trigger] s1.path_frame(k, i)) == k - i
                && s1.path_frame(k, i).len() == k by {}
        assert forall|i: int|
            0 <= i < p1.len() && g.expanded((#[trigger] p1[i]).0 as int) implies {
                let fi = s1.path_frame(k, i);
                &&& g.children(p1[i].0 as int).len() == 2 * count_unassigned(fi)
                &&& forall|y: int|
                    0 <= y < g.children(p1[i].0 as int).len() ==> s1.node(
                        #[trigger] g.children(p1[i].0 as int)[y],
                    ).var == Some(unassigned_vars(fi)[y / 2]) && s1.node(g.children(p1[i].0 as int)[y]).direction
                        == (y % 2 == 0)
            } by {
            assert(p1[i] == p0[i]);
        }
    }
    // the measure
    lemma_preorder_bound(l0, k as int, e + 1);
    let t = tree_size(k - e - 1);
    lemma_tree_size_pos(k - (l0.len() - 1));
    assert(l0.subrange(0, e + 2).drop_last() =~= l1);
    assert(preorder(l0.subrange(0, e + 2), k as int) == preorder(l1, k as int) + 1 + l0[e + 1] * t);
    assert((l0[e + 1] + 1) * t == l0[e + 1] * t + t) by (nonlinear_arith);
}

impl SolverState {
    /// Backs up the path to the nearest node that still has an unseen child.
    /// `Some(Unsat)` when none is left.
    fn backtrack(&mut self, k: Ghost<nat>) -> (r: Option<Answer>)
        requires
            old(self).inv(k@),
        ensures
            old(self).backed_up(*final(self), r),
            r is Some ==> r->Some_0 is Unsat,
            r is None ==> final(self).inv(k@) && final(self).next_position(k@) > preorder(old(self).levels@, k@ as int)
                && final(self).depth() < old(self).depth() && forall|i: int|
                0 <= i <= final(self).depth() ==> #[trigger] final(self).path_frame(k@, i) == old(self).path_frame(
                    k@,
                    i,
                ),
            forall|m: Seq<bool>|
                m.len() == k@ && #[trigger] old(self).left_behind_disagree(m) && !frame_agrees(
                    old(self).path_frame(k@, old(self).depth()),
                    m,
                ) ==> r is None && final(self).left_behind_disagree(m),
    {
        let ghost s0 = *self;
        let ghost g = self.shared_graph;
        loop
            invariant
                s0 == *old(self),
                s0.inv(k@),
                self.shared_graph == g,
                g == s0.shared_graph,
                self.info == s0.info,
                self.frames == s0.frames,
                forall|m: Seq<bool>|
                    m.len() == k@ && #[trigger] s0.left_behind_disagree(m) && !frame_agrees(
                        s0.path_frame(k@, s0.depth()),
                        m,
                    ) ==> self.left_behind_disagree(m) && !frame_agrees(s0.path_frame(k@, self.depth()), m),
                1 <= self.path().len() <= s0.path().len(),
                self.path() == s0.path().subrange(0, self.path().len() as int),
                self.path().len() < s0.path().len() ==> forall|x: int|
                    0 <= x < g.children(self.last().0 as int).len() ==> s0.node(
                        #[trigger] g.children(self.last().0 as int)[x],
                    ).seen,
                forall|j: int|
                    self.path().len() - 1 <= j < s0.path().len() - 1 ==> #[trigger] s0.all_seen(
                        s0.path()[j].0 as int,
                    ),
            decreases self.path().len(),
        {
            if self.current_path.pop().is_none() {
                return Some(Answer::Unsat);
            }
            if self.current_path.len() == 0 {
                return Some(Answer::Unsat);
            }
            let ghost m = self.path().len() as int;
            assert(self.path() =~= s0.path().subrange(0, m));
            let last = self.current_path[self.current_path.len() - 1];
            proof {
                assert(s0.path()[m - 1] == last);
                assert(0 <= s0.levels@[m]);
                assert(g.expanded(last.0 as int));
                assert forall|y: int| 0 <= y < g.children(last.0 as int).len() implies (#[trigger] g.children(
                    last.0 as int,
                )[y]).0 < g.nodes@.len() by {
                    assert(g.neighbors@[last.0 as int]->Some_0@[y] == g.children(last.0 as int)[y]);
                }
            }
            let nbrs = self.shared_graph.neighbors(last);
            let mut x: usize = 0;
            let mut found = false;
            while x < nbrs.len()
                invariant
                    self.shared_graph == g,
                    g == s0.shared_graph,
                    nbrs@ == g.children(last.0 as int),
                    x <= nbrs@.len(),
                    forall|y: int| 0 <= y < nbrs@.len() ==> (#[trigger] nbrs@[y]).0 < g.nodes@.len(),
                    !found ==> forall|y: int| 0 <= y < x ==> s0.node(#[trigger] nbrs@[y]).seen,
                    found ==> x < nbrs@.len() && !s0.node(nbrs@[x as int]).seen,
                ensures
                    found ==> x < nbrs@.len() && !s0.node(nbrs@[x as int]).seen,
                    !found ==> x == nbrs@.len() && forall|y: int| 0 <= y < x ==> s0.node(#[trigger] nbrs@[y]).seen,
                decreases nbrs@.len() - x,
            {
                if !self.shared_graph.get(nbrs[x]).seen {
                    found = true;
                    break;
                }
                x = x + 1;
            }
            assert(self.last() == last);
            proof {
                if !found {
                    assert forall|mm: Seq<bool>|
                        mm.len() == k@ && #[trigger] s0.left_behind_disagree(mm) && !frame_agrees(
                            s0.path_frame(k@, s0.depth()),
                            mm,
                        ) implies !frame_agrees(s0.path_frame(k@, m - 1), mm) by {
                        assert forall|y: int| 0 <= y < g.children(last.0 as int).len() implies !frame_agrees(
                            s0.frames@[(#[trigger] g.children(last.0 as int)[y]).0 as int],
                            mm,
                        ) by {
                            let cc = g.children(last.0 as int)[y];
                            assert(s0.info@[cc.0 as int] == (last.0 as int, y, s0.info@[last.0 as int].2 + 1));
                            assert(s0.info@[s0.path()[m - 1].0 as int].2 == m - 1);
                            assert(s0.node(nbrs@[y]).seen);
                            assert(cc.0 < g.nodes@.len());
                        }
                        assert(s0.path()[m - 1] == last);
                        assert(count_unassigned(s0.path_frame(k@, m - 1)) == k@ - (m - 1));
                        assert(m - 1 < k@);
                        lemma_parent_disagrees(s0, k@, m - 1, mm);
                    }
                }
            }
            proof {
                if !found {
                    assert(s0.all_seen(s0.path()[m - 1].0 as int)) by {
                        assert(s0.path()[m - 1] == last);
                        assert forall|y: int| 0 <= y < g.children(last.0 as int).len() implies s0.node(
                            #[trigger] g.children(last.0 as int)[y],
                        ).seen by {
                            assert(nbrs@[y] == g.children(last.0 as int)[y]);
                        }
                    }
                } else {
                    assert(s0.path()[m - 1] == last);
                    assert(!s0.node(g.children(last.0 as int)[x as int]).seen);
                    assert(!s0.all_seen(self.last().0 as int));
                }
            }
            if found {
                self.levels = Ghost(s0.levels@.subrange(0, m));
                self.next = Ghost(s0.levels@[m] + 1);
                proof {
                    assert(s0.path()[m - 1] == last);
                    assert(!s0.node(g.children(s0.path()[m - 1].0 as int)[x as int]).seen);
                    lemma_back_up(s0, *self, k@, m - 1);
                }
                return None;
            }
        }
    }

    /// Backs up when some clause conflicts with the frame of the path, as
    /// `backtrack` does; leaves everything as it is otherwise.
    pub fn analyze_conflict(&mut self, frame: SolverFrame, clauses: &[Clause]) -> (r: Option<Answer>)
        requires
            old(self).inv(frame@.len()),
            frame.wf(),
            frame@ == old(self).path_frame(frame@.len(), old(self).depth()),
        ensures
            (exists|i: int|
                0 <= i < clauses@.len() && clause_state(#[trigger] clauses@[i]@, frame@) == ClauseState::Conflicting)
                ==> old(self).backed_up(*final(self), r),
            forall|m: Seq<bool>|
                m.len() == frame@.len() && #[trigger] old(self).left_behind_disagree(m) && (forall|i: int|
                    0 <= i < clauses@.len() ==> model_satisfies(#[trigger] clauses@[i]@, m)) ==> r is None
                    && final(self).left_behind_disagree(m),
            r is Some ==> r->Some_0 is Unsat,
            (forall|i: int|
                0 <= i < clauses@.len() ==> clause_state(#[trigger] clauses@[i]@, frame@) != ClauseState::Conflicting)
                ==> r is None && *final(self) == *old(self),
            r is None ==> final(self).inv(frame@.len()) && ((*final(self) == *old(self) && forall|i: int|
                0 <= i < clauses@.len() ==> clause_state(#[trigger] clauses@[i]@, frame@) != ClauseState::Conflicting)
                || (final(self).next_position(frame@.len()) > preorder(old(self).levels@, frame@.len() as int)
                && final(self).depth() < old(self).depth() && forall|i: int|
                0 <= i <= final(self).depth() ==> #[trigger] final(self).path_frame(frame@.len(), i)
                    == old(self).path_frame(frame@.len(), i))),
    {
        let mut i: usize = 0;
        while i < clauses.len()
            invariant
                *self == *old(self),
                old(self).inv(frame@.len()),
                frame@ == old(self).path_frame(frame@.len(), old(self).depth()),
                frame.wf(),
                i <= clauses@.len(),
                forall|j: int|
                    0 <= j < i ==> clause_state(#[trigger] clauses@[j]@, frame@) != ClauseState::Conflicting,
            decreases clauses@.len() - i,
        {
            if matches!(state_of_clause(&clauses[i], &frame), ClauseState::Conflicting) {
                proof {
                    assert forall|m: Seq<bool>|
                        m.len() == frame@.len() && (forall|j: int|
                            0 <= j < clauses@.len() ==> model_satisfies(#[trigger] clauses@[j]@, m)) implies !frame_agrees(
                        frame@,
                        m,
                    ) by {
                        assert(model_satisfies(clauses@[i as int]@, m));
                        lemma_conflict_disagrees(clauses@[i as int]@, frame@, m);
                    }
                }
                let r = self.backtrack(Ghost(frame@.len()));
                proof {
                    assert forall|m: Seq<bool>|
                        m.len() == frame@.len() && #[trigger] old(self).left_behind_disagree(m) && (forall|j: int|
                            0 <= j < clauses@.len() ==> model_satisfies(#[trigger] clauses@[j]@, m)) implies r is None
                        && self.left_behind_disagree(m) by {
                        assert(!frame_agrees(frame@, m));
                    }
                }
                return r;
            }
            i = i + 1;
        }
        None
    }
}

impl Default for SolverState {
    /// The tree that holds only its root, with the path at the root.
    fn default() -> (r: SolverState)
        ensures
            r.path().len() == 1,
            forall|k: nat| k <= usize::MAX ==> #[trigger] r.inv(k) && r.next_position(k) == 1,
            forall|m: Seq<bool>| #[trigger] r.left_behind_disagree(m),
    {
        let mut shared_graph = Graph { nodes: Vec::new(), neighbors: Vec::new() };
        let root_id = shared_graph.alloc_node(Node::new_root());
        let current_path = vec![root_id];
        let r = SolverState {
            shared_graph,
            current_path,
            info: Ghost(Seq::empty().push((-1int, 0int, 0int))),
            levels: Ghost(Seq::empty().push(0int)),
            next: Ghost(0int),
            frames: Ghost(Seq::empty().push(Seq::empty())),
        };
        proof {
            assert forall|k: nat| k <= usize::MAX implies #[trigger] r.inv(k) && r.next_position(k) == 1 by {
                lemma_count_all_unassigned(k);
                assert(r.path_frame(k, 0) =~= Seq::new(k, |_j: int| None::<bool>));
                assert(r.path()[0] == root_id);
            }
            assert forall|m: Seq<bool>| #[trigger] r.left_behind_disagree(m) by {
                assert forall|v: int|
                    0 <= v < r.shared_graph.nodes@.len() && (#[trigger] r.shared_graph.nodes@[v]).seen && !r.on_path(v)
                    implies !frame_agrees(r.frames@[v], m) by {
                    assert(v == 0);
                    assert(r.path()[0] == root_id);
                }
            }
        }
        r
    }
}

/// Some literal of clause `c` holds in the total assignment `m`.
pub open spec fn model_satisfies(c: Seq<Atom>, m: Seq<bool>) -> bool {
    exists|j: int| 0 <= j < c.len() && 1 <= (#[trigger] c[j]).id <= m.len() && m[c[j].id - 1] == !c[j].negated
}

proof fn lemma_all_assigned_count(c: Seq<Atom>, f: Seq<Option<bool>>)
    requires
        forall|i: int| 0 <= i < f.len() ==> (#[trigger] f[i]) is Some,
    ensures
        count_assigned(c, f) == c.len(),
    decreases c.len(),
{
    if c.len() > 0 {
        lemma_all_assigned_count(c.drop_last(), f);
    }
}

/// Under a complete frame a clause that does not conflict has a satisfied literal.
proof fn lemma_complete_not_conflicting(c: Seq<Atom>, f: Seq<Option<bool>>)
    requires
        forall|i: int| 0 <= i < f.len() ==> (#[trigger] f[i]) is Some,
        clause_state(c, f) != ClauseState::Conflicting,
    ensures
        exists|j: int| 0 <= j < c.len() && atom_satisfied(#[trigger] c[j], f),
{
    lemma_all_assigned_count(c, f);
}

/// Searches the tree of decisions depth first, checking the clauses after
/// each decision; a path that decides every variable without a conflict is
/// the model returned, once every clause is checked to hold under it. The
/// search always ends: each round reaches
/// a node later in the full tree's preorder than the last.
pub fn sovler(vars: usize, b: Vec<Clause>) -> (r: Answer)
    ensures
        r is Sat ==> r->Sat_0@.len() == vars && forall|i: int|
            0 <= i < b@.len() ==> model_satisfies(#[trigger] b@[i]@, r->Sat_0@),
        r is Unsat ==> forall|m: Seq<bool>|
            m.len() == vars ==> exists|i: int| 0 <= i < b@.len() && !model_satisfies(#[trigger] b@[i]@, m),
{
    let mut state = SolverState::default();
    let ghost k = vars as nat;
    loop
        invariant
            state.inv(k),
            k == vars,
            forall|d: int, i: int|
                1 <= d <= state.depth() && 0 <= i < b@.len() ==> clause_state(
                    #[trigger] b@[i]@,
                    #[trigger] state.path_frame(k, d),
                ) != ClauseState::Conflicting,
            forall|m: Seq<bool>|
                m.len() == k && (forall|i: int| 0 <= i < b@.len() ==> model_satisfies(#[trigger] b@[i]@, m))
                    ==> #[trigger] state.left_behind_disagree(m),
        decreases tree_size(k as int) - state.next_position(k),
    {
        proof {
            lemma_next_position_bound(state, k);
        }
        let ghost pre = state;
        let current_frame = state.compute_frame(vars);
        match state.make_decision(&current_frame) {
            None => {
                proof {
                    lemma_count_zero_complete(current_frame@);
                    assert(count_unassigned(pre.path_frame(k, pre.depth())) == k - pre.depth());
                }
                let ghost f = current_frame@;
                let mut i: usize = 0;
                while i < b.len()
                    invariant
                        current_frame.wf(),
                        f == current_frame@,
                        k == vars,
                        pre.inv(k),
                        f == pre.path_frame(k, pre.depth()),
                        count_unassigned(f) == k - pre.depth(),
                        count_unassigned(f) == 0,
                        f.len() == k,
                        forall|d: int, j: int|
                            1 <= d <= pre.depth() && 0 <= j < b@.len() ==> clause_state(
                                #[trigger] b@[j]@,
                                #[trigger] pre.path_frame(k, d),
                            ) != ClauseState::Conflicting,
                        i <= b@.len(),
                        forall|j: int|
                            0 <= j < i ==> clause_state(#[trigger] b@[j]@, f) != ClauseState::Conflicting,
                    decreases b@.len() - i,
                {
                    if matches!(state_of_clause(&b[i], &current_frame), ClauseState::Conflicting) {
                        proof {
                            assert forall|m: Seq<bool>| m.len() == vars implies exists|j: int|
                                0 <= j < b@.len() && !model_satisfies(#[trigger] b@[j]@, m) by {
                                if model_satisfies(b@[i as int]@, m) {
                                    if pre.depth() >= 1 {
                                        assert(clause_state(b@[i as int]@, pre.path_frame(k, pre.depth()))
                                            != ClauseState::Conflicting);
                                    } else {
                                        assert(f.len() == 0);
                                        assert(frame_agrees(f, m));
                                        lemma_conflict_disagrees(b@[i as int]@, f, m);
                                    }
                                }
                                assert(!model_satisfies(b@[i as int]@, m));
                            }
                        }
                        return Answer::Unsat;
                    }
                    i = i + 1;
                }
                let m = Model::from_frame(current_frame);
                proof {
                    assert forall|i: int| 0 <= i < b@.len() implies model_satisfies(#[trigger] b@[i]@, m@) by {
                        lemma_complete_not_conflicting(b@[i]@, f);
                        let j = choose|j: int| 0 <= j < b@[i]@.len() && atom_satisfied(#[trigger] b@[i]@[j], f);
                        assert(m@[b@[i]@[j].id - 1] == !b@[i]@[j].negated);
                    }
                }
                return Answer::Sat(m);
            },
            Some(_) => {
                let new_frame = state.compute_frame(vars);
                let bs = b.as_slice();
                let ghost mid = state;
                if let Some(answer) = state.analyze_conflict(new_frame, bs) {
                    proof {
                        assert forall|m: Seq<bool>| m.len() == vars implies exists|i: int|
                            0 <= i < b@.len() && !model_satisfies(#[trigger] b@[i]@, m) by {
                            if forall|i: int| 0 <= i < b@.len() ==> model_satisfies(#[trigger] b@[i]@, m) {
                                assert(pre.left_behind_disagree(m));
                                assert(mid.left_behind_disagree(m));
                                assert(bs@ == b@);
                            }
                        }
                    }
                    return answer;
                }
                proof {
                    lemma_next_position_bound(state, k);
                    assert(bs@ == b@);
                    assert forall|m: Seq<bool>|
                        m.len() == k && (forall|i: int| 0 <= i < b@.len() ==> model_satisfies(#[trigger] b@[i]@, m))
                        implies #[trigger] state.left_behind_disagree(m) by {
                        assert(pre.left_behind_disagree(m));
                        assert(mid.left_behind_disagree(m));
                    }
                }
            },
        }
    }
}

} // verus!
