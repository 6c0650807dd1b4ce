//! Terms in three representations: an owned tree, a graph of shared nodes, and a flat arena
//! of indexed nodes, with the conversions between them.
use std::rc::Rc;
use vstd::prelude::*;
use vstd::std_specs::convert::FromSpecImpl;

use super::term_laws::lemma_alpha_reflexive;
use super::terms::{Term as Tree, Tm};
use crate::names::Name;

pub mod calc;
pub mod flat_type;

pub use calc::FlatTypeEnvironment;
pub use flat_type::{BoxedType, FlatType, FlatTypeRef, RcType, Type};

verus! {

/// One layer of a term over children of type `A`.
#[derive(Debug)]
pub enum Term<A> {
    Var(String),
    App { lhs: A, rhs: A },
    Abs { var: String, body: A },
    Let { var: String, expr: A, body: A },
}

impl<A: Clone> Clone for Term<A> {
    fn clone(&self) -> (copy: Self)
        ensures
            match (*self, copy) {
                (Term::Var(v), Term::Var(w)) => v == w,
                (Term::App { lhs: l1, rhs: r1 }, Term::App { lhs: l2, rhs: r2 }) => cloned(l1, l2)
                    && cloned(r1, r2),
                (Term::Abs { var: v, body: b1 }, Term::Abs { var: w, body: b2 }) => v == w
                    && cloned(b1, b2),
                (
                    Term::Let { var: v, expr: e1, body: b1 },
                    Term::Let { var: w, expr: e2, body: b2 },
                ) => v == w && cloned(e1, e2) && cloned(b1, b2),
                _ => false,
            },
    {
        match self {
            Term::Var(v) => Term::Var(v.clone()),
            Term::App { lhs, rhs } => Term::App { lhs: lhs.clone(), rhs: rhs.clone() },
            Term::Abs { var, body } => Term::Abs { var: var.clone(), body: body.clone() },
            Term::Let { var, expr, body } => Term::Let {
                var: var.clone(),
                expr: expr.clone(),
                body: body.clone(),
            },
        }
    }
}

/// A term as a tree that owns its children.
pub type BoxedTerm = Tree;

/// A term as a graph: a child may be shared between several parents.
#[derive(Debug)]
pub enum RcTerm {
    Var(String),
    App { lhs: Rc<RcTerm>, rhs: Rc<RcTerm> },
    Abs { var: String, body: Rc<RcTerm> },
    Let { var: String, expr: Rc<RcTerm>, body: Rc<RcTerm> },
}

/// The place of a node in a flat term.
#[derive(Debug, Clone, Copy)]
pub struct FlatTermRef {
    pub idx: usize,
}

impl FlatTermRef {
    /// Whether both references name the same place.
    pub fn ref_eq(self, other: FlatTypeRef) -> (same: bool)
        ensures
            same == (self.idx == other.idx),
    {
        self.idx == other.idx
    }
}

/// Whether the children of `node` have places before `i`.
pub open spec fn term_children_before(node: Term<FlatTermRef>, i: int) -> bool {
    match node {
        Term::Var(_) => true,
        Term::App { lhs, rhs } => lhs.idx < i && rhs.idx < i,
        Term::Abs { var, body } => body.idx < i,
        Term::Let { var, expr, body } => expr.idx < i && body.idx < i,
    }
}

/// Whether every node comes after its children.
pub open spec fn term_topological(nodes: Seq<Term<FlatTermRef>>) -> bool {
    forall|i: int| 0 <= i < nodes.len() ==> term_children_before(#[trigger] nodes[i], i)
}

/// The term that the node at place `i` stands for.
pub open spec fn term_at(nodes: Seq<Term<FlatTermRef>>, i: int) -> Tm
    decreases i,
{
    if 0 <= i < nodes.len() && term_children_before(nodes[i], i) {
        match nodes[i] {
            Term::Var(v) => Tm::Variable(v@),
            Term::App { lhs, rhs } => Tm::Application(
                Box::new(term_at(nodes, lhs.idx as int)),
                Box::new(term_at(nodes, rhs.idx as int)),
            ),
            Term::Abs { var, body } => Tm::Abstraction(
                var@,
                Box::new(term_at(nodes, body.idx as int)),
            ),
            Term::Let { var, expr, body } => Tm::Let(
                var@,
                Box::new(term_at(nodes, expr.idx as int)),
                Box::new(term_at(nodes, body.idx as int)),
            ),
        }
    } else {
        Tm::Variable(Seq::empty())
    }
}

/// Whether `a` is the beginning of `b`.
pub open spec fn term_prefix(a: Seq<Term<FlatTermRef>>, b: Seq<Term<FlatTermRef>>) -> bool {
    a.len() <= b.len() && forall|j: int| 0 <= j < a.len() ==> a[j] == b[j]
}

/// Nodes added at the end change nothing of what the earlier places stand for.
pub proof fn lemma_term_at_prefix(a: Seq<Term<FlatTermRef>>, b: Seq<Term<FlatTermRef>>, i: int)
    requires
        term_prefix(a, b),
        0 <= i < a.len(),
    ensures
        term_at(a, i) == term_at(b, i),
    decreases i,
{
    if term_children_before(a[i], i) {
        match a[i] {
            Term::Var(_) => {},
            Term::App { lhs, rhs } => {
                lemma_term_at_prefix(a, b, lhs.idx as int);
                lemma_term_at_prefix(a, b, rhs.idx as int);
            },
            Term::Abs { var, body } => {
                lemma_term_at_prefix(a, b, body.idx as int);
            },
            Term::Let { var, expr, body } => {
                lemma_term_at_prefix(a, b, expr.idx as int);
                lemma_term_at_prefix(a, b, body.idx as int);
            },
        }
    }
}

/// `Rc::clone` of std: a second pointer to the same allocation, and so to the same value.
#[verifier::external_body]
pub(crate) fn share<T>(node: &Rc<T>) -> (shared: Rc<T>)
    ensures
        *shared == **node,
{
    Rc::clone(node)
}

/// `Rc::ptr_eq` of std: whether both pointers lead to the same allocation. Where they do,
/// they lead to the same value; where they do not, nothing is known of the values.
#[verifier::external_body]
pub(crate) fn same<T>(a: &Rc<T>, b: &Rc<T>) -> (same: bool)
    ensures
        same ==> **a == **b,
{
    Rc::ptr_eq(a, b)
}

impl RcTerm {
    /// The mathematical value of the graph: the tree that it unfolds to.
    pub open spec fn model(&self) -> Tm
        decreases self,
    {
        match self {
            RcTerm::Var(v) => Tm::Variable(v@),
            RcTerm::App { lhs, rhs } => Tm::Application(
                Box::new(lhs.model()),
                Box::new(rhs.model()),
            ),
            RcTerm::Abs { var, body } => Tm::Abstraction(var@, Box::new(body.model())),
            RcTerm::Let { var, expr, body } => Tm::Let(
                var@,
                Box::new(expr.model()),
                Box::new(body.model()),
            ),
        }
    }

    /// The graph of a tree: no node is shared.
    pub fn from_tree(tree: BoxedTerm) -> (graph: Self)
        ensures
            graph@ == tree@,
            graph@.alpha_eq(tree@),
        decreases tree,
    {
        proof {
            lemma_alpha_reflexive(tree@);
        }
        match tree {
            Tree::Variable(v) => RcTerm::Var(v),
            Tree::Application(t, u) => RcTerm::App {
                lhs: Rc::new(RcTerm::from_tree(*t)),
                rhs: Rc::new(RcTerm::from_tree(*u)),
            },
            Tree::Abstraction(v, t) => RcTerm::Abs { var: v, body: Rc::new(RcTerm::from_tree(*t)) },
            Tree::Let(v, b, t) => RcTerm::Let {
                var: v,
                expr: Rc::new(RcTerm::from_tree(*b)),
                body: Rc::new(RcTerm::from_tree(*t)),
            },
        }
    }

    /// The graph of a flat term: one node for each place, shared by all the parents that
    /// refer to that place.
    pub fn from_flat(flat: FlatTerm) -> (graph: Self)
        ensures
            graph@ == flat@,
            graph@.alpha_eq(flat@),
    {
        proof {
            use_type_invariant(&flat);
            lemma_alpha_reflexive(flat@);
        }
        let mut values: Vec<Rc<RcTerm>> = Vec::new();
        let mut i: usize = 0;
        while i < flat.nodes.len()
            invariant
                i <= flat.nodes.len(),
                values@.len() == i,
                term_topological(flat.nodes@),
                forall|j: int|
                    0 <= j < i ==> (#[trigger] values@[j]).model() == term_at(flat.nodes@, j),
            decreases flat.nodes.len() - i,
        {
            let node = match &flat.nodes[i] {
                Term::Var(v) => RcTerm::Var(v.clone()),
                Term::App { lhs, rhs } => RcTerm::App {
                    lhs: share(&values[lhs.idx]),
                    rhs: share(&values[rhs.idx]),
                },
                Term::Abs { var, body } => RcTerm::Abs {
                    var: var.clone(),
                    body: share(&values[body.idx]),
                },
                Term::Let { var, expr, body } => RcTerm::Let {
                    var: var.clone(),
                    expr: share(&values[expr.idx]),
                    body: share(&values[body.idx]),
                },
            };
            assert(node.model() == term_at(flat.nodes@, i as int));
            values.push(Rc::new(node));
            i = i + 1;
        }
        let root = &values[values.len() - 1];
        (**root).clone()
    }
}


impl Clone for RcTerm {
    /// A graph that shares every child with this one.
    fn clone(&self) -> (copy: Self)
        ensures
            copy == *self,
    {
        match self {
            RcTerm::Var(v) => RcTerm::Var(v.clone()),
            RcTerm::App { lhs, rhs } => RcTerm::App { lhs: share(lhs), rhs: share(rhs) },
            RcTerm::Abs { var, body } => RcTerm::Abs { var: var.clone(), body: share(body) },
            RcTerm::Let { var, expr, body } => RcTerm::Let {
                var: var.clone(),
                expr: share(expr),
                body: share(body),
            },
        }
    }
}

impl View for RcTerm {
    type V = Tm;

    open spec fn view(&self) -> Tm {
        self.model()
    }
}

/// A term as a flat arena: a sequence of nodes whose children are named by their places.
/// Every node comes after its children, and the last node is the root.
#[derive(Debug)]
pub struct FlatTerm {
    nodes: Vec<Term<FlatTermRef>>,
}

impl View for FlatTerm {
    type V = Tm;

    closed spec fn view(&self) -> Tm {
        term_at(self.nodes@, self.nodes@.len() - 1)
    }
}

/// What the shared nodes met so far stand for: each is recorded with the place that stands
/// for the same term.
pub open spec fn term_table_valid(
    nodes: Seq<Term<FlatTermRef>>,
    table: Seq<(Rc<RcTerm>, FlatTermRef)>,
) -> bool {
    forall|k: int|
        0 <= k < table.len() ==> (#[trigger] table[k]).1.idx < nodes.len() && term_at(
            nodes,
            table[k].1.idx as int,
        ) == table[k].0.model()
}

/// What a node of a flat term holds: a name, and the places of its children.
pub enum TermLayer {
    Var(Name),
    App(int, int),
    Abs(Name, int),
    Let(Name, int, int),
}

/// What the node holds.
pub open spec fn term_layer(node: Term<FlatTermRef>) -> TermLayer {
    match node {
        Term::Var(v) => TermLayer::Var(v@),
        Term::App { lhs, rhs } => TermLayer::App(lhs.idx as int, rhs.idx as int),
        Term::Abs { var, body } => TermLayer::Abs(var@, body.idx as int),
        Term::Let { var, expr, body } => TermLayer::Let(var@, expr.idx as int, body.idx as int),
    }
}

/// What the nodes hold, in the order of their places.
pub open spec fn term_layers(nodes: Seq<Term<FlatTermRef>>) -> Seq<TermLayer> {
    nodes.map_values(|node: Term<FlatTermRef>| term_layer(node))
}

/// The nodes that a tree is written as from the place `base` on: the nodes of each child,
/// one child after the other, and then the node itself, which refers to the last node of
/// each child. Every occurrence of a subterm has a node of its own, and every node but the
/// last is referred to once.
pub open spec fn term_written(t: Tm, base: int) -> Seq<TermLayer>
    decreases t,
{
    match t {
        Tm::Variable(v) => seq![TermLayer::Var(v)],
        Tm::Abstraction(v, b) => {
            let inner = term_written(*b, base);
            inner.push(TermLayer::Abs(v, base + inner.len() - 1))
        },
        Tm::Application(f, a) => {
            let first = term_written(*f, base);
            let second = term_written(*a, base + first.len());
            (first + second).push(
                TermLayer::App(base + first.len() - 1, base + first.len() + second.len() - 1),
            )
        },
        Tm::Let(v, b, o) => {
            let first = term_written(*b, base);
            let second = term_written(*o, base + first.len());
            (first + second).push(
                TermLayer::Let(v, base + first.len() - 1, base + first.len() + second.len() - 1),
            )
        },
    }
}

/// A tree is written as one node for each of its nodes.
pub proof fn lemma_term_written_len(t: Tm, base: int)
    ensures
        term_written(t, base).len() == t.size(),
    decreases t,
{
    match t {
        Tm::Variable(_) => {},
        Tm::Abstraction(_, b) => {
            lemma_term_written_len(*b, base);
        },
        Tm::Application(f, a) => {
            lemma_term_written_len(*f, base);
            lemma_term_written_len(*a, base + f.size() as int);
        },
        Tm::Let(_, b, o) => {
            lemma_term_written_len(*b, base);
            lemma_term_written_len(*o, base + b.size() as int);
        },
    }
}

/// Writes the tree to the end of the nodes, children first, and gives the place of its
/// root.
fn push_tree(nodes: &mut Vec<Term<FlatTermRef>>, tree: BoxedTerm) -> (place: FlatTermRef)
    requires
        term_topological(old(nodes)@),
    ensures
        term_topological(final(nodes)@),
        term_prefix(old(nodes)@, final(nodes)@),
        final(nodes)@.len() == old(nodes)@.len() + tree@.size(),
        place.idx == final(nodes)@.len() - 1,
        term_at(final(nodes)@, place.idx as int) == tree@,
        term_layers(final(nodes)@) == term_layers(old(nodes)@) + term_written(
            tree@,
            old(nodes)@.len() as int,
        ),
    decreases tree,
{
    let ghost start = nodes@;
    let ghost whole = tree@;
    proof {
        lemma_term_written_len(whole, start.len() as int);
    }
    let node = match tree {
        Tree::Variable(v) => Term::Var(v),
        Tree::Application(t, u) => {
            proof {
                lemma_term_written_len(t@, start.len() as int);
                lemma_term_written_len(u@, (start.len() + t@.size()) as int);
            }
            let lhs = push_tree(nodes, *t);
            let ghost mid = nodes@;
            let rhs = push_tree(nodes, *u);
            proof {
                lemma_term_at_prefix(mid, nodes@, lhs.idx as int);
            }
            Term::App { lhs, rhs }
        },
        Tree::Abstraction(v, t) => {
            proof {
                lemma_term_written_len(t@, start.len() as int);
            }
            let body = push_tree(nodes, *t);
            Term::Abs { var: v, body }
        },
        Tree::Let(v, b, t) => {
            proof {
                lemma_term_written_len(b@, start.len() as int);
                lemma_term_written_len(t@, (start.len() + b@.size()) as int);
            }
            let expr = push_tree(nodes, *b);
            let ghost mid = nodes@;
            let body = push_tree(nodes, *t);
            proof {
                lemma_term_at_prefix(mid, nodes@, expr.idx as int);
            }
            Term::Let { var: v, expr, body }
        },
    };
    let ghost before = nodes@;
    let ghost pushed = node;
    nodes.push(node);
    let place = FlatTermRef { idx: nodes.len() - 1 };
    proof {
        assert(term_layers(nodes@) =~= term_layers(before).push(term_layer(pushed)));
        assert(term_layers(nodes@) =~= term_layers(start) + term_written(
            whole,
            start.len() as int,
        ));
        assert(term_prefix(before, nodes@));
        assert(term_children_before(pushed, place.idx as int));
        match pushed {
            Term::Var(_) => {},
            Term::App { lhs, rhs } => {
                lemma_term_at_prefix(before, nodes@, lhs.idx as int);
                lemma_term_at_prefix(before, nodes@, rhs.idx as int);
            },
            Term::Abs { var, body } => {
                lemma_term_at_prefix(before, nodes@, body.idx as int);
            },
            Term::Let { var, expr, body } => {
                lemma_term_at_prefix(before, nodes@, expr.idx as int);
                lemma_term_at_prefix(before, nodes@, body.idx as int);
            },
        }
    }
    place
}

/// Nodes added at the end leave the record of the shared nodes valid.
proof fn lemma_term_table_prefix(
    a: Seq<Term<FlatTermRef>>,
    b: Seq<Term<FlatTermRef>>,
    table: Seq<(Rc<RcTerm>, FlatTermRef)>,
)
    requires
        term_prefix(a, b),
        term_table_valid(a, table),
    ensures
        term_table_valid(b, table),
{
    assert forall|k: int| 0 <= k < table.len() implies (#[trigger] table[k]).1.idx < b.len()
        && term_at(b, table[k].1.idx as int) == table[k].0.model() by {
        lemma_term_at_prefix(a, b, table[k].1.idx as int);
    }
}

/// The place of a child: the place that it has in the record of shared nodes, or a new one
/// that is then recorded.
fn push_child(
    nodes: &mut Vec<Term<FlatTermRef>>,
    table: &mut Vec<(Rc<RcTerm>, FlatTermRef)>,
    child: &Rc<RcTerm>,
) -> (place: FlatTermRef)
    requires
        term_topological(old(nodes)@),
        term_table_valid(old(nodes)@, old(table)@),
    ensures
        term_topological(final(nodes)@),
        term_prefix(old(nodes)@, final(nodes)@),
        term_table_valid(final(nodes)@, final(table)@),
        place.idx < final(nodes)@.len(),
        term_at(final(nodes)@, place.idx as int) == child.model(),
    decreases **child, 1nat,
{
    let mut k: usize = 0;
    while k < table.len()
        invariant
            k <= table.len(),
            nodes@ == old(nodes)@,
            table@ == old(table)@,
            term_topological(nodes@),
            term_table_valid(nodes@, table@),
        decreases table.len() - k,
    {
        if same(&table[k].0, child) {
            return table[k].1;
        }
        k = k + 1;
    }
    let place = push_graph(nodes, table, &**child);
    let ghost before = table@;
    table.push((share(child), place));
    assert forall|j: int| 0 <= j < table@.len() implies (#[trigger] table@[j]).1.idx
        < nodes@.len() && term_at(nodes@, table@[j].1.idx as int) == table@[j].0.model() by {
        if j < before.len() {
            assert(table@[j] == before[j]);
        }
    }
    place
}

/// Writes the graph to the end of the nodes, children first, and gives the place of its
/// root.
fn push_graph(
    nodes: &mut Vec<Term<FlatTermRef>>,
    table: &mut Vec<(Rc<RcTerm>, FlatTermRef)>,
    graph: &RcTerm,
) -> (place: FlatTermRef)
    requires
        term_topological(old(nodes)@),
        term_table_valid(old(nodes)@, old(table)@),
    ensures
        term_topological(final(nodes)@),
        term_prefix(old(nodes)@, final(nodes)@),
        term_table_valid(final(nodes)@, final(table)@),
        place.idx == final(nodes)@.len() - 1,
        term_at(final(nodes)@, place.idx as int) == graph.model(),
    decreases *graph, 0nat,
{
    let node = match graph {
        RcTerm::Var(v) => Term::Var(v.clone()),
        RcTerm::App { lhs, rhs } => {
            let l = push_child(nodes, table, lhs);
            let ghost mid = nodes@;
            let r = push_child(nodes, table, rhs);
            proof {
                lemma_term_at_prefix(mid, nodes@, l.idx as int);
            }
            Term::App { lhs: l, rhs: r }
        },
        RcTerm::Abs { var, body } => {
            let b = push_child(nodes, table, body);
            Term::Abs { var: var.clone(), body: b }
        },
        RcTerm::Let { var, expr, body } => {
            let e = push_child(nodes, table, expr);
            let ghost mid = nodes@;
            let b = push_child(nodes, table, body);
            proof {
                lemma_term_at_prefix(mid, nodes@, e.idx as int);
            }
            Term::Let { var: var.clone(), expr: e, body: b }
        },
    };
    let ghost before = nodes@;
    let ghost pushed = node;
    nodes.push(node);
    let place = FlatTermRef { idx: nodes.len() - 1 };
    proof {
        assert(term_prefix(before, nodes@));
        lemma_term_table_prefix(before, nodes@, table@);
        assert(term_children_before(pushed, place.idx as int));
        match pushed {
            Term::Var(_) => {},
            Term::App { lhs, rhs } => {
                lemma_term_at_prefix(before, nodes@, lhs.idx as int);
                lemma_term_at_prefix(before, nodes@, rhs.idx as int);
            },
            Term::Abs { var, body } => {
                lemma_term_at_prefix(before, nodes@, body.idx as int);
            },
            Term::Let { var, expr, body } => {
                lemma_term_at_prefix(before, nodes@, expr.idx as int);
                lemma_term_at_prefix(before, nodes@, body.idx as int);
            },
        }
    }
    place
}

impl Clone for FlatTerm {
    fn clone(&self) -> (copy: Self)
        ensures
            copy.layers() == self.layers(),
            copy@ == self@,
    {
        proof {
            use_type_invariant(self);
        }
        let mut nodes: Vec<Term<FlatTermRef>> = Vec::new();
        let mut i: usize = 0;
        while i < self.nodes.len()
            invariant
                i <= self.nodes.len(),
                nodes@ == self.nodes@.take(i as int),
            decreases self.nodes.len() - i,
        {
            let node = match &self.nodes[i] {
                Term::Var(v) => Term::Var(v.clone()),
                Term::App { lhs, rhs } => Term::App { lhs: *lhs, rhs: *rhs },
                Term::Abs { var, body } => Term::Abs { var: var.clone(), body: *body },
                Term::Let { var, expr, body } => Term::Let {
                    var: var.clone(),
                    expr: *expr,
                    body: *body,
                },
            };
            nodes.push(node);
            assert(nodes@ =~= self.nodes@.take(i + 1));
            i = i + 1;
        }
        assert(self.nodes@.take(self.nodes@.len() as int) =~= self.nodes@);
        FlatTerm { nodes }
    }
}

impl FlatTerm {
    #[verifier::type_invariant]
    spec fn well_formed(self) -> bool {
        self.nodes@.len() > 0 && term_topological(self.nodes@)
    }

    /// The nodes in the order of their places.
    pub closed spec fn layers(&self) -> Seq<Term<FlatTermRef>> {
        self.nodes@
    }

    /// The number of nodes.
    pub fn len(&self) -> (n: usize)
        ensures
            n == self.layers().len(),
            n > 0,
            term_topological(self.layers()),
            self@ == term_at(self.layers(), n - 1),
    {
        proof {
            use_type_invariant(self);
        }
        self.nodes.len()
    }

    /// The place of the root: the last one.
    pub fn root(&self) -> (place: FlatTermRef)
        ensures
            place.idx == self.layers().len() - 1,
            term_at(self.layers(), place.idx as int) == self@,
    {
        proof {
            use_type_invariant(self);
        }
        FlatTermRef { idx: self.nodes.len() - 1 }
    }

    /// The node at a place.
    pub fn node(&self, place: FlatTermRef) -> (node: &Term<FlatTermRef>)
        requires
            place.idx < self.layers().len(),
        ensures
            *node == self.layers()[place.idx as int],
            term_children_before(*node, place.idx as int),
    {
        proof {
            use_type_invariant(self);
        }
        &self.nodes[place.idx]
    }

    /// The flat form of a tree: every occurrence of a subterm gets a place of its own, after
    /// the places of its children, so nothing is shared.
    pub fn from_tree(tree: BoxedTerm) -> (flat: Self)
        ensures
            flat@ == tree@,
            flat@.alpha_eq(tree@),
            flat.layers().len() == tree@.size(),
            term_layers(flat.layers()) == term_written(tree@, 0),
    {
        proof {
            lemma_alpha_reflexive(tree@);
        }
        let mut nodes: Vec<Term<FlatTermRef>> = Vec::new();
        assert(term_layers(nodes@) + term_written(tree@, 0) =~= term_written(tree@, 0));
        push_tree(&mut nodes, tree);
        FlatTerm { nodes }
    }

    /// The flat form of a graph: a child that was met before, by the identity of its node,
    /// keeps the place that it got then, so what the graph shares stays shared.
    pub fn from_shared(graph: RcTerm) -> (flat: Self)
        ensures
            flat@ == graph@,
            flat@.alpha_eq(graph@),
    {
        proof {
            lemma_alpha_reflexive(graph@);
        }
        let mut nodes: Vec<Term<FlatTermRef>> = Vec::new();
        let mut table: Vec<(Rc<RcTerm>, FlatTermRef)> = Vec::new();
        push_graph(&mut nodes, &mut table, &graph);
        FlatTerm { nodes }
    }

    /// The tree that the flat term stands for: a place that several parents share is
    /// written out once for each.
    pub fn to_tree(&self) -> (tree: BoxedTerm)
        ensures
            tree@ == self@,
            tree@.alpha_eq(self@),
    {
        proof {
            use_type_invariant(self);
            lemma_alpha_reflexive(self@);
        }
        self.tree_at(self.nodes.len() - 1)
    }

    /// The tree that the node at place `i` stands for.
    fn tree_at(&self, i: usize) -> (tree: BoxedTerm)
        requires
            i < self.nodes@.len(),
        ensures
            tree@ == term_at(self.nodes@, i as int),
        decreases i,
    {
        proof {
            use_type_invariant(self);
        }
        match &self.nodes[i] {
            Term::Var(v) => Tree::Variable(v.clone()),
            Term::App { lhs, rhs } => Tree::Application(
                Box::new(self.tree_at(lhs.idx)),
                Box::new(self.tree_at(rhs.idx)),
            ),
            Term::Abs { var, body } => Tree::Abstraction(
                var.clone(),
                Box::new(self.tree_at(body.idx)),
            ),
            Term::Let { var, expr, body } => Tree::Let(
                var.clone(),
                Box::new(self.tree_at(expr.idx)),
                Box::new(self.tree_at(body.idx)),
            ),
        }
    }
}

impl From<BoxedTerm> for FlatTerm {
    /// The flat form of a tree, as `from_tree` gives it.
    fn from(value: BoxedTerm) -> (flat: Self)
        ensures
            flat@ == value@,
            flat.layers().len() == value@.size(),
            term_layers(flat.layers()) == term_written(value@, 0),
    {
        FlatTerm::from_tree(value)
    }
}

impl FromSpecImpl<BoxedTerm> for FlatTerm {
    open spec fn obeys_from_spec() -> bool {
        false
    }

    open spec fn from_spec(value: BoxedTerm) -> Self {
        arbitrary()
    }
}

impl From<RcTerm> for FlatTerm {
    /// The flat form of a graph, as `from_shared` gives it.
    fn from(value: RcTerm) -> (flat: Self)
        ensures
            flat@ == value@,
    {
        FlatTerm::from_shared(value)
    }
}

impl FromSpecImpl<RcTerm> for FlatTerm {
    open spec fn obeys_from_spec() -> bool {
        false
    }

    open spec fn from_spec(value: RcTerm) -> Self {
        arbitrary()
    }
}

impl From<FlatTerm> for RcTerm {
    /// The graph of a flat term, as `from_flat` gives it.
    fn from(value: FlatTerm) -> (graph: Self)
        ensures
            graph@ == value@,
    {
        RcTerm::from_flat(value)
    }
}

impl FromSpecImpl<FlatTerm> for RcTerm {
    open spec fn obeys_from_spec() -> bool {
        false
    }

    open spec fn from_spec(value: FlatTerm) -> Self {
        arbitrary()
    }
}

} // verus!
