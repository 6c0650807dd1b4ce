//! Types in three representations: an owned tree, a graph of shared nodes, and a flat arena
//! of indexed nodes, with the conversions between them.
use std::rc::Rc;
use vstd::prelude::*;
use vstd::std_specs::convert::FromSpecImpl;

use super::super::types::{Ty, Type as TypeTree};
use crate::names::Name;
use super::{same, share};

verus! {

/// One layer of a type over children of type `A`.
#[derive(Debug)]
pub enum Type<A> {
    Var(String),
    GenVar(String),
    Fn { lhs: A, rhs: A },
}

impl<A: Clone> Clone for Type<A> {
    fn clone(&self) -> (copy: Self)
        ensures
            match (*self, copy) {
                (Type::Var(v), Type::Var(w)) => v == w,
                (Type::GenVar(v), Type::GenVar(w)) => v == w,
                (Type::Fn { lhs: l1, rhs: r1 }, Type::Fn { lhs: l2, rhs: r2 }) => cloned(l1, l2)
                    && cloned(r1, r2),
                _ => false,
            },
    {
        match self {
            Type::Var(v) => Type::Var(v.clone()),
            Type::GenVar(v) => Type::GenVar(v.clone()),
            Type::Fn { lhs, rhs } => Type::Fn { lhs: lhs.clone(), rhs: rhs.clone() },
        }
    }
}

/// A type as a tree that owns its children.
pub type BoxedType = TypeTree;

/// A type as a graph: a child may be shared between several parents.
#[derive(Debug)]
pub enum RcType {
    Var(String),
    GenVar(String),
    Fn { lhs: Rc<RcType>, rhs: Rc<RcType> },
}

/// The place of a node in a flat type.
#[derive(Debug, Clone, Copy)]
pub struct FlatTypeRef {
    pub idx: usize,
}

impl FlatTypeRef {
    /// Whether both references name the same place.
    pub fn ref_eq(self, other: FlatTypeRef) -> (same: bool)
        ensures
            same == (self.idx == other.idx),
    {
        self.idx == other.idx
    }
}

/// Whether the children of `node` have places before `i`.
pub open spec fn type_children_before(node: Type<FlatTypeRef>, i: int) -> bool {
    match node {
        Type::Var(_) => true,
        Type::GenVar(_) => true,
        Type::Fn { lhs, rhs } => lhs.idx < i && rhs.idx < i,
    }
}

/// Whether every node comes after its children.
pub open spec fn type_topological(nodes: Seq<Type<FlatTypeRef>>) -> bool {
    forall|i: int| 0 <= i < nodes.len() ==> type_children_before(#[trigger] nodes[i], i)
}

/// The type that the node at place `i` stands for.
pub open spec fn type_at(nodes: Seq<Type<FlatTypeRef>>, i: int) -> Ty
    decreases i,
{
    if 0 <= i < nodes.len() && type_children_before(nodes[i], i) {
        match nodes[i] {
            Type::Var(v) => Ty::Variable(v@),
            Type::GenVar(v) => Ty::GenVariable(v@),
            Type::Fn { lhs, rhs } => Ty::Fn(
                Box::new(type_at(nodes, lhs.idx as int)),
                Box::new(type_at(nodes, rhs.idx as int)),
            ),
        }
    } else {
        Ty::Variable(Seq::empty())
    }
}

/// Whether `a` is the beginning of `b`.
pub open spec fn type_prefix(a: Seq<Type<FlatTypeRef>>, b: Seq<Type<FlatTypeRef>>) -> bool {
    a.len() <= b.len() && forall|j: int| 0 <= j < a.len() ==> a[j] == b[j]
}

/// Nodes added at the end change nothing of what the earlier places stand for.
pub proof fn lemma_type_at_prefix(a: Seq<Type<FlatTypeRef>>, b: Seq<Type<FlatTypeRef>>, i: int)
    requires
        type_prefix(a, b),
        0 <= i < a.len(),
    ensures
        type_at(a, i) == type_at(b, i),
    decreases i,
{
    if type_children_before(a[i], i) {
        match a[i] {
            Type::Fn { lhs, rhs } => {
                lemma_type_at_prefix(a, b, lhs.idx as int);
                lemma_type_at_prefix(a, b, rhs.idx as int);
            },
            _ => {},
        }
    }
}

impl RcType {
    /// The mathematical value of the graph: the tree that it unfolds to.
    pub open spec fn model(&self) -> Ty
        decreases self,
    {
        match self {
            RcType::Var(v) => Ty::Variable(v@),
            RcType::GenVar(v) => Ty::GenVariable(v@),
            RcType::Fn { lhs, rhs } => Ty::Fn(Box::new(lhs.model()), Box::new(rhs.model())),
        }
    }

    /// The graph of a tree: no node is shared.
    pub fn from_tree(tree: BoxedType) -> (graph: Self)
        ensures
            graph@ == tree@,
        decreases tree,
    {
        match tree {
            TypeTree::Variable(v) => RcType::Var(v),
            TypeTree::GenVariable(v) => RcType::GenVar(v),
            TypeTree::Fn(t, u) => RcType::Fn {
                lhs: Rc::new(RcType::from_tree(*t)),
                rhs: Rc::new(RcType::from_tree(*u)),
            },
        }
    }

    /// The graph of a flat type: one node for each place, shared by all the parents that
    /// refer to that place.
    pub fn from_flat(flat: FlatType) -> (graph: Self)
        ensures
            graph@ == flat@,
    {
        proof {
            use_type_invariant(&flat);
        }
        let mut values: Vec<Rc<RcType>> = Vec::new();
        let mut i: usize = 0;
        while i < flat.nodes.len()
            invariant
                i <= flat.nodes.len(),
                values@.len() == i,
                type_topological(flat.nodes@),
                forall|j: int|
                    0 <= j < i ==> (#[trigger] values@[j]).model() == type_at(flat.nodes@, j),
            decreases flat.nodes.len() - i,
        {
            let node = match &flat.nodes[i] {
                Type::Var(v) => RcType::Var(v.clone()),
                Type::GenVar(v) => RcType::GenVar(v.clone()),
                Type::Fn { lhs, rhs } => RcType::Fn {
                    lhs: share(&values[lhs.idx]),
                    rhs: share(&values[rhs.idx]),
                },
            };
            assert(node.model() == type_at(flat.nodes@, i as int));
            values.push(Rc::new(node));
            i = i + 1;
        }
        let root = &values[values.len() - 1];
        (**root).clone()
    }
}


impl Clone for RcType {
    /// A graph that shares every child with this one.
    fn clone(&self) -> (copy: Self)
        ensures
            copy == *self,
    {
        match self {
            RcType::Var(v) => RcType::Var(v.clone()),
            RcType::GenVar(v) => RcType::GenVar(v.clone()),
            RcType::Fn { lhs, rhs } => RcType::Fn { lhs: share(lhs), rhs: share(rhs) },
        }
    }
}

impl View for RcType {
    type V = Ty;

    open spec fn view(&self) -> Ty {
        self.model()
    }
}

/// A type as a flat arena: a sequence of nodes whose children are named by their places.
/// Every node comes after its children, and the last node is the root.
#[derive(Debug)]
pub struct FlatType {
    nodes: Vec<Type<FlatTypeRef>>,
}

impl View for FlatType {
    type V = Ty;

    closed spec fn view(&self) -> Ty {
        type_at(self.nodes@, self.nodes@.len() - 1)
    }
}

/// What the shared nodes met so far stand for: each is recorded with the place that stands
/// for the same type.
pub open spec fn type_table_valid(
    nodes: Seq<Type<FlatTypeRef>>,
    table: Seq<(Rc<RcType>, FlatTypeRef)>,
) -> bool {
    forall|k: int|
        0 <= k < table.len() ==> (#[trigger] table[k]).1.idx < nodes.len() && type_at(
            nodes,
            table[k].1.idx as int,
        ) == table[k].0.model()
}

/// What a node of a flat type holds: a name, or the places of its children.
pub enum TypeLayer {
    Var(Name),
    GenVar(Name),
    Fn(int, int),
}

/// What the node holds.
pub open spec fn type_layer(node: Type<FlatTypeRef>) -> TypeLayer {
    match node {
        Type::Var(v) => TypeLayer::Var(v@),
        Type::GenVar(v) => TypeLayer::GenVar(v@),
        Type::Fn { lhs, rhs } => TypeLayer::Fn(lhs.idx as int, rhs.idx as int),
    }
}

/// What the nodes hold, in the order of their places.
pub open spec fn type_layers(nodes: Seq<Type<FlatTypeRef>>) -> Seq<TypeLayer> {
    nodes.map_values(|node: Type<FlatTypeRef>| type_layer(node))
}

/// The nodes that a tree is written as from the place `base` on: the nodes of the left
/// child, those of the right child, and then the node itself, which refers to the last node
/// of each child. Every occurrence of a part has a node of its own, and every node but the
/// last is referred to once.
pub open spec fn type_written(t: Ty, base: int) -> Seq<TypeLayer>
    decreases t,
{
    match t {
        Ty::Variable(v) => seq![TypeLayer::Var(v)],
        Ty::GenVariable(v) => seq![TypeLayer::GenVar(v)],
        Ty::Fn(l, r) => {
            let first = type_written(*l, base);
            let second = type_written(*r, base + first.len());
            (first + second).push(
                TypeLayer::Fn(base + first.len() - 1, base + first.len() + second.len() - 1),
            )
        },
    }
}

/// A tree is written as one node for each of its nodes.
pub proof fn lemma_type_written_len(t: Ty, base: int)
    ensures
        type_written(t, base).len() == t.size(),
    decreases t,
{
    match t {
        Ty::Fn(l, r) => {
            lemma_type_written_len(*l, base);
            lemma_type_written_len(*r, base + l.size() as int);
        },
        _ => {},
    }
}

/// Writes the tree to the end of the nodes, children first, and gives the place of its
/// root.
fn push_tree(nodes: &mut Vec<Type<FlatTypeRef>>, tree: BoxedType) -> (place: FlatTypeRef)
    requires
        type_topological(old(nodes)@),
    ensures
        type_topological(final(nodes)@),
        type_prefix(old(nodes)@, final(nodes)@),
        final(nodes)@.len() == old(nodes)@.len() + tree@.size(),
        place.idx == final(nodes)@.len() - 1,
        type_at(final(nodes)@, place.idx as int) == tree@,
        type_layers(final(nodes)@) == type_layers(old(nodes)@) + type_written(
            tree@,
            old(nodes)@.len() as int,
        ),
    decreases tree,
{
    let ghost start = nodes@;
    let ghost whole = tree@;
    proof {
        lemma_type_written_len(whole, start.len() as int);
    }
    let node = match tree {
        TypeTree::Variable(v) => Type::Var(v),
        TypeTree::GenVariable(v) => Type::GenVar(v),
        TypeTree::Fn(t, u) => {
            proof {
                lemma_type_written_len(t@, start.len() as int);
                lemma_type_written_len(u@, (start.len() + t@.size()) as int);
            }
            let lhs = push_tree(nodes, *t);
            let ghost mid = nodes@;
            let rhs = push_tree(nodes, *u);
            proof {
                lemma_type_at_prefix(mid, nodes@, lhs.idx as int);
            }
            Type::Fn { lhs, rhs }
        },
    };
    let ghost before = nodes@;
    let ghost pushed = node;
    nodes.push(node);
    let place = FlatTypeRef { idx: nodes.len() - 1 };
    proof {
        assert(type_layers(nodes@) =~= type_layers(before).push(type_layer(pushed)));
        assert(type_layers(nodes@) =~= type_layers(start) + type_written(
            whole,
            start.len() as int,
        ));
        assert(type_prefix(before, nodes@));
        assert(type_children_before(pushed, place.idx as int));
        match pushed {
            Type::Fn { lhs, rhs } => {
                lemma_type_at_prefix(before, nodes@, lhs.idx as int);
                lemma_type_at_prefix(before, nodes@, rhs.idx as int);
            },
            _ => {},
        }
    }
    place
}

/// Nodes added at the end leave the record of the shared nodes valid.
proof fn lemma_type_table_prefix(
    a: Seq<Type<FlatTypeRef>>,
    b: Seq<Type<FlatTypeRef>>,
    table: Seq<(Rc<RcType>, FlatTypeRef)>,
)
    requires
        type_prefix(a, b),
        type_table_valid(a, table),
    ensures
        type_table_valid(b, table),
{
    assert forall|k: int| 0 <= k < table.len() implies (#[trigger] table[k]).1.idx < b.len()
        && type_at(b, table[k].1.idx as int) == table[k].0.model() by {
        lemma_type_at_prefix(a, b, table[k].1.idx as int);
    }
}

/// The place of a child: the place that it has in the record of shared nodes, or a new one
/// that is then recorded.
fn push_child(
    nodes: &mut Vec<Type<FlatTypeRef>>,
    table: &mut Vec<(Rc<RcType>, FlatTypeRef)>,
    child: &Rc<RcType>,
) -> (place: FlatTypeRef)
    requires
        type_topological(old(nodes)@),
        type_table_valid(old(nodes)@, old(table)@),
    ensures
        type_topological(final(nodes)@),
        type_prefix(old(nodes)@, final(nodes)@),
        type_table_valid(final(nodes)@, final(table)@),
        place.idx < final(nodes)@.len(),
        type_at(final(nodes)@, place.idx as int) == child.model(),
    decreases **child, 1nat,
{
    let mut k: usize = 0;
    while k < table.len()
        invariant
            k <= table.len(),
            nodes@ == old(nodes)@,
            table@ == old(table)@,
            type_topological(nodes@),
            type_table_valid(nodes@, table@),
        decreases table.len() - k,
    {
        if same(&table[k].0, child) {
            return table[k].1;
        }
        k = k + 1;
    }
    let place = push_graph(nodes, table, &**child);
    let ghost before = table@;
    table.push((share(child), place));
    assert forall|j: int| 0 <= j < table@.len() implies (#[trigger] table@[j]).1.idx
        < nodes@.len() && type_at(nodes@, table@[j].1.idx as int) == table@[j].0.model() by {
        if j < before.len() {
            assert(table@[j] == before[j]);
        }
    }
    place
}

/// Writes the graph to the end of the nodes, children first, and gives the place of its
/// root.
fn push_graph(
    nodes: &mut Vec<Type<FlatTypeRef>>,
    table: &mut Vec<(Rc<RcType>, FlatTypeRef)>,
    graph: &RcType,
) -> (place: FlatTypeRef)
    requires
        type_topological(old(nodes)@),
        type_table_valid(old(nodes)@, old(table)@),
    ensures
        type_topological(final(nodes)@),
        type_prefix(old(nodes)@, final(nodes)@),
        type_table_valid(final(nodes)@, final(table)@),
        place.idx == final(nodes)@.len() - 1,
        type_at(final(nodes)@, place.idx as int) == graph.model(),
    decreases *graph, 0nat,
{
    let node = match graph {
        RcType::Var(v) => Type::Var(v.clone()),
        RcType::GenVar(v) => Type::GenVar(v.clone()),
        RcType::Fn { lhs, rhs } => {
            let l = push_child(nodes, table, lhs);
            let ghost mid = nodes@;
            let r = push_child(nodes, table, rhs);
            proof {
                lemma_type_at_prefix(mid, nodes@, l.idx as int);
            }
            Type::Fn { lhs: l, rhs: r }
        },
    };
    let ghost before = nodes@;
    let ghost pushed = node;
    nodes.push(node);
    let place = FlatTypeRef { idx: nodes.len() - 1 };
    proof {
        assert(type_prefix(before, nodes@));
        lemma_type_table_prefix(before, nodes@, table@);
        assert(type_children_before(pushed, place.idx as int));
        match pushed {
            Type::Fn { lhs, rhs } => {
                lemma_type_at_prefix(before, nodes@, lhs.idx as int);
                lemma_type_at_prefix(before, nodes@, rhs.idx as int);
            },
            _ => {},
        }
    }
    place
}

/// A copy of a node.
pub fn copy_node(node: &Type<FlatTypeRef>) -> (copy: Type<FlatTypeRef>)
    ensures
        copy == *node,
{
    match node {
        Type::Var(v) => Type::Var(v.clone()),
        Type::GenVar(v) => Type::GenVar(v.clone()),
        Type::Fn { lhs, rhs } => Type::Fn { lhs: *lhs, rhs: *rhs },
    }
}

impl Clone for FlatType {
    fn clone(&self) -> (copy: Self)
        ensures
            copy.layers() == self.layers(),
            copy@ == self@,
    {
        proof {
            use_type_invariant(self);
        }
        let mut nodes: Vec<Type<FlatTypeRef>> = Vec::new();
        let mut i: usize = 0;
        while i < self.nodes.len()
            invariant
                i <= self.nodes.len(),
                nodes@ == self.nodes@.take(i as int),
            decreases self.nodes.len() - i,
        {
            nodes.push(copy_node(&self.nodes[i]));
            assert(nodes@ =~= self.nodes@.take(i + 1));
            i = i + 1;
        }
        assert(self.nodes@.take(self.nodes@.len() as int) =~= self.nodes@);
        FlatType { nodes }
    }
}

impl FlatType {
    #[verifier::type_invariant]
    spec fn well_formed(self) -> bool {
        self.nodes@.len() > 0 && type_topological(self.nodes@)
    }

    /// The nodes in the order of their places.
    pub closed spec fn layers(&self) -> Seq<Type<FlatTypeRef>> {
        self.nodes@
    }

    /// The number of nodes.
    pub fn len(&self) -> (n: usize)
        ensures
            n == self.layers().len(),
            n > 0,
            type_topological(self.layers()),
            self@ == type_at(self.layers(), n - 1),
    {
        proof {
            use_type_invariant(self);
        }
        self.nodes.len()
    }

    /// The place of the root: the last one.
    pub fn root(&self) -> (place: FlatTypeRef)
        ensures
            place.idx == self.layers().len() - 1,
            type_at(self.layers(), place.idx as int) == self@,
    {
        proof {
            use_type_invariant(self);
        }
        FlatTypeRef { idx: self.nodes.len() - 1 }
    }

    /// The node at a place.
    pub fn node(&self, place: FlatTypeRef) -> (node: &Type<FlatTypeRef>)
        requires
            place.idx < self.layers().len(),
        ensures
            *node == self.layers()[place.idx as int],
            type_children_before(*node, place.idx as int),
    {
        proof {
            use_type_invariant(self);
        }
        &self.nodes[place.idx]
    }

    /// The flat form of a tree: every occurrence of a part gets a place of its own, after
    /// the places of its children, so nothing is shared.
    pub fn from_tree(tree: BoxedType) -> (flat: Self)
        ensures
            flat@ == tree@,
            flat.layers().len() == tree@.size(),
            type_layers(flat.layers()) == type_written(tree@, 0),
    {
        let mut nodes: Vec<Type<FlatTypeRef>> = Vec::new();
        assert(type_layers(nodes@) + type_written(tree@, 0) =~= type_written(tree@, 0));
        push_tree(&mut nodes, tree);
        FlatType { nodes }
    }

    /// The flat form of a graph: a child that was met before, by the identity of its node,
    /// keeps the place that it got then, so what the graph shares stays shared.
    pub fn from_shared(graph: RcType) -> (flat: Self)
        ensures
            flat@ == graph@,
    {
        let mut nodes: Vec<Type<FlatTypeRef>> = Vec::new();
        let mut table: Vec<(Rc<RcType>, FlatTypeRef)> = Vec::new();
        push_graph(&mut nodes, &mut table, &graph);
        FlatType { nodes }
    }

    /// The tree that the flat type stands for: a place that several parents share is
    /// written out once for each.
    pub fn to_tree(&self) -> (tree: BoxedType)
        ensures
            tree@ == self@,
    {
        proof {
            use_type_invariant(self);
        }
        self.tree_at(self.nodes.len() - 1)
    }

    /// The tree that the node at place `i` stands for.
    fn tree_at(&self, i: usize) -> (tree: BoxedType)
        requires
            i < self.nodes@.len(),
        ensures
            tree@ == type_at(self.nodes@, i as int),
        decreases i,
    {
        proof {
            use_type_invariant(self);
        }
        match &self.nodes[i] {
            Type::Var(v) => TypeTree::Variable(v.clone()),
            Type::GenVar(v) => TypeTree::GenVariable(v.clone()),
            Type::Fn { lhs, rhs } => TypeTree::Fn(
                Box::new(self.tree_at(lhs.idx)),
                Box::new(self.tree_at(rhs.idx)),
            ),
        }
    }
}

impl From<BoxedType> for FlatType {
    /// The flat form of a tree, as `from_tree` gives it.
    fn from(value: BoxedType) -> (flat: Self)
        ensures
            flat@ == value@,
            flat.layers().len() == value@.size(),
            type_layers(flat.layers()) == type_written(value@, 0),
    {
        FlatType::from_tree(value)
    }
}

impl FromSpecImpl<BoxedType> for FlatType {
    open spec fn obeys_from_spec() -> bool {
        false
    }

    open spec fn from_spec(value: BoxedType) -> Self {
        arbitrary()
    }
}

impl From<RcType> for FlatType {
    /// The flat form of a graph, as `from_shared` gives it.
    fn from(value: RcType) -> (flat: Self)
        ensures
            flat@ == value@,
    {
        FlatType::from_shared(value)
    }
}

impl FromSpecImpl<RcType> for FlatType {
    open spec fn obeys_from_spec() -> bool {
        false
    }

    open spec fn from_spec(value: RcType) -> Self {
        arbitrary()
    }
}

impl From<FlatType> for RcType {
    /// The graph of a flat type, as `from_flat` gives it.
    fn from(value: FlatType) -> (graph: Self)
        ensures
            graph@ == value@,
    {
        RcType::from_flat(value)
    }
}

impl FromSpecImpl<FlatType> for RcType {
    open spec fn obeys_from_spec() -> bool {
        false
    }

    open spec fn from_spec(value: FlatType) -> Self {
        arbitrary()
    }
}

} // verus!
