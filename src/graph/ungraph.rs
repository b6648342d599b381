//! The undirected graph map of the `petgraph` crate, over nodes that are pairs
//! of integers and edges tagged with an [`Edge`], seen by contracts as a set of
//! nodes and a map from node pairs to tags.
use vstd::prelude::*;

use crate::graph::unitig::Edge;

verus! {

/// A node of the unitig graph: `(0, kmer)` for an endpoint k-mer, `(1, id)` for
/// a unitig.
pub type NodeKey = (u64, u64);

/// The unitig graph.
pub type UnitigGraph = petgraph::graphmap::GraphMap<NodeKey, Edge, petgraph::Undirected>;

#[verifier::external_type_specification]
#[verifier::external_body]
#[verifier::reject_recursive_types(N)]
#[verifier::reject_recursive_types(E)]
#[verifier::reject_recursive_types(Ty)]
pub struct ExGraphMap<N, E, Ty>(petgraph::graphmap::GraphMap<N, E, Ty>);

#[verifier::external_type_specification]
#[verifier::external_body]
pub struct ExUndirected(petgraph::Undirected);

/// The nodes of the graph.
pub uninterp spec fn graph_nodes(g: petgraph::graphmap::GraphMap<(u64, u64), Edge, petgraph::Undirected>) -> Set<(u64, u64)>;

/// The edges of the graph, keyed by their two ends in increasing order.
pub uninterp spec fn graph_edges(g: petgraph::graphmap::GraphMap<(u64, u64), Edge, petgraph::Undirected>) -> Map<((u64, u64), (u64, u64)), Edge>;

/// A graph with no node and no edge.
pub open spec fn is_empty_graph(nodes: Set<NodeKey>, edges: Map<(NodeKey, NodeKey), Edge>) -> bool {
    nodes == Set::<NodeKey>::empty() && edges == Map::<(NodeKey, NodeKey), Edge>::empty()
}

/// The lexicographic order of pairs.
pub open spec fn key_le(a: NodeKey, b: NodeKey) -> bool {
    a.0 < b.0 || (a.0 == b.0 && a.1 <= b.1)
}

/// The key of the undirected edge between `a` and `b`.
pub open spec fn edge_key(a: NodeKey, b: NodeKey) -> (NodeKey, NodeKey) {
    if key_le(a, b) {
        (a, b)
    } else {
        (b, a)
    }
}

/// `a` and `b` are joined by an edge.
pub open spec fn adj(g: UnitigGraph, a: NodeKey, b: NodeKey) -> bool {
    graph_edges(g).contains_key(edge_key(a, b))
}

/// The tag of the edge between `a` and `b`, if there is one.
pub open spec fn tag(g: UnitigGraph, a: NodeKey, b: NodeKey) -> Option<Edge> {
    if adj(g, a, b) {
        Some(graph_edges(g)[edge_key(a, b)])
    } else {
        None
    }
}

/// Relies on `GraphMap::new`: a graph with no node and no edge.
#[verifier::external_body]
pub(crate) fn graph_new() -> (r: UnitigGraph)
    ensures
        is_empty_graph(graph_nodes(r), graph_edges(r)),
{
    petgraph::graphmap::UnGraphMap::new()
}

/// Relies on `GraphMap::add_node`: `n` becomes a node; edges are unchanged.
#[verifier::external_body]
pub(crate) fn graph_add_node(g: &mut UnitigGraph, n: NodeKey)
    ensures
        graph_nodes(*final(g)) == graph_nodes(*old(g)).insert(n),
        graph_edges(*final(g)) == graph_edges(*old(g)),
{
    g.add_node(n);
}

/// Relies on `GraphMap::add_edge`: both ends become nodes, and the edge gets
/// the tag `w`, replacing the tag it had.
#[verifier::external_body]
pub(crate) fn graph_add_edge(g: &mut UnitigGraph, a: NodeKey, b: NodeKey, w: Edge)
    ensures
        graph_nodes(*final(g)) == graph_nodes(*old(g)).insert(a).insert(b),
        graph_edges(*final(g)) == graph_edges(*old(g)).insert(edge_key(a, b), w),
{
    g.add_edge(a, b, w);
}

/// Relies on `GraphMap::contains_node`.
#[verifier::external_body]
pub(crate) fn graph_contains_node(g: &UnitigGraph, n: NodeKey) -> (r: bool)
    ensures
        r == graph_nodes(*g).contains(n),
{
    g.contains_node(n)
}

/// Relies on `GraphMap::edge_weight`: the tag of the edge between `a` and `b`.
#[verifier::external_body]
pub(crate) fn graph_edge_weight(g: &UnitigGraph, a: NodeKey, b: NodeKey) -> (r: Option<Edge>)
    ensures
        r == tag(*g, a, b),
{
    g.edge_weight(a, b).copied()
}

/// Relies on `GraphMap::nodes`: the nodes of the graph.
#[verifier::external_body]
pub(crate) fn graph_node_list(g: &UnitigGraph) -> (r: Vec<NodeKey>)
    ensures
        forall|n: NodeKey| r@.contains(n) <==> graph_nodes(*g).contains(n),
{
    g.nodes().collect()
}

/// Relies on `GraphMap::neighbors`: in an undirected graph map, the nodes
/// joined to `a` by an edge.
#[verifier::external_body]
pub(crate) fn graph_neighbors(g: &UnitigGraph, a: NodeKey) -> (r: Vec<NodeKey>)
    ensures
        forall|b: NodeKey| r@.contains(b) <==> adj(*g, a, b),
{
    g.neighbors(a).collect()
}

} // verus!
