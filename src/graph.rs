use petgraph::graph::{Graph, NodeIndex};
use petgraph::Directed;
use vstd::prelude::*;

verus! {

/// The closed vocabulary of node tags.
#[derive(Debug, Clone, Copy, PartialEq, Eq, Structural)]
pub enum NodeType {
    Variable,
    Functor,
    Argument,
    Application,
    Equality,
    Disequality,
    Negation,
    Axiom,
    NegatedConjecture,
    Selected,
    Action,
}

/// The numeric code of a tag: its position in the enumeration.
pub open spec fn node_code(t: NodeType) -> i64 {
    match t {
        NodeType::Variable => 0,
        NodeType::Functor => 1,
        NodeType::Argument => 2,
        NodeType::Application => 3,
        NodeType::Equality => 4,
        NodeType::Disequality => 5,
        NodeType::Negation => 6,
        NodeType::Axiom => 7,
        NodeType::NegatedConjecture => 8,
        NodeType::Selected => 9,
        NodeType::Action => 10,
    }
}

impl NodeType {
    pub fn code(self) -> (r: i64)
        ensures
            r == node_code(self),
    {
        match self {
            NodeType::Variable => 0,
            NodeType::Functor => 1,
            NodeType::Argument => 2,
            NodeType::Application => 3,
            NodeType::Equality => 4,
            NodeType::Disequality => 5,
            NodeType::Negation => 6,
            NodeType::Axiom => 7,
            NodeType::NegatedConjecture => 8,
            NodeType::Selected => 9,
            NodeType::Action => 10,
        }
    }
}

#[verifier::external_type_specification]
#[verifier::external_body]
#[verifier::reject_recursive_types(N)]
#[verifier::reject_recursive_types(E)]
#[verifier::reject_recursive_types(Ty)]
#[verifier::reject_recursive_types(Ix)]
pub struct ExGraph<N, E, Ty, Ix>(Graph<N, E, Ty, Ix>);

#[verifier::external_type_specification]
#[verifier::external_body]
pub struct ExDirected(Directed);

/// The arena in which the compiled graph lives.
pub type TypedGraph = Graph<NodeType, (), Directed, u32>;

/// The tags of the graph's nodes, in order of creation.
pub uninterp spec fn graph_nodes(g: Graph<NodeType, (), Directed, u32>) -> Seq<NodeType>;

/// The (source, target) pairs of the graph's edges, in order of creation.
pub uninterp spec fn graph_edges(g: Graph<NodeType, (), Directed, u32>) -> Seq<(u32, u32)>;

/// Relies on petgraph's `Graph::new`: a graph with no nodes and no edges.
#[verifier::external_body]
pub(crate) fn graph_new() -> (r: TypedGraph)
    ensures
        graph_nodes(r) == Seq::<NodeType>::empty(),
        graph_edges(r) == Seq::<(u32, u32)>::empty(),
{
    Graph::new()
}

/// Relies on petgraph's `Graph::add_node`: appends a node and returns its
/// position; it panics only when the index type is exhausted.
#[verifier::external_body]
pub(crate) fn graph_add_node(g: &mut TypedGraph, t: NodeType) -> (r: u32)
    requires
        graph_nodes(*old(g)).len() < u32::MAX,
    ensures
        graph_nodes(*final(g)) == graph_nodes(*old(g)).push(t),
        graph_edges(*final(g)) == graph_edges(*old(g)),
        r as int == graph_nodes(*old(g)).len(),
{
    g.add_node(t).index() as u32
}

/// Relies on petgraph's `Graph::add_edge`: appends an edge; it panics when an
/// endpoint is not a node or the index type is exhausted.
#[verifier::external_body]
pub(crate) fn graph_add_edge(g: &mut TypedGraph, a: u32, b: u32)
    requires
        (a as int) < graph_nodes(*old(g)).len(),
        (b as int) < graph_nodes(*old(g)).len(),
        graph_edges(*old(g)).len() < u32::MAX,
    ensures
        graph_nodes(*final(g)) == graph_nodes(*old(g)),
        graph_edges(*final(g)) == graph_edges(*old(g)).push((a, b)),
{
    g.add_edge(NodeIndex::new(a as usize), NodeIndex::new(b as usize), ());
}

/// Relies on petgraph's `Graph::node_count`: the number of nodes.
#[verifier::external_body]
pub(crate) fn graph_node_count(g: &TypedGraph) -> (r: usize)
    ensures
        r as int == graph_nodes(*g).len(),
{
    g.node_count()
}

/// Relies on petgraph's `Graph::edge_count`: the number of edges.
#[verifier::external_body]
pub(crate) fn graph_edge_count(g: &TypedGraph) -> (r: usize)
    ensures
        r as int == graph_edges(*g).len(),
{
    g.edge_count()
}

/// Relies on petgraph's `Graph::raw_nodes`: the nodes in order of creation,
/// each holding its tag.
#[verifier::external_body]
pub(crate) fn graph_node_at(g: &TypedGraph, i: usize) -> (r: NodeType)
    requires
        (i as int) < graph_nodes(*g).len(),
    ensures
        r == graph_nodes(*g)[i as int],
{
    g.raw_nodes()[i].weight
}

/// Relies on petgraph's `Graph::raw_edges`: the edges in order of creation,
/// each with its source and target.
#[verifier::external_body]
pub(crate) fn graph_edge_at(g: &TypedGraph, i: usize) -> (r: (u32, u32))
    requires
        (i as int) < graph_edges(*g).len(),
    ensures
        r == graph_edges(*g)[i as int],
{
    let e = &g.raw_edges()[i];
    (e.source().index() as u32, e.target().index() as u32)
}

} // verus!
