//! The graph container and what is taken on trust about it.
//!
//! The engine keeps its nodes and edges in a `petgraph` stable graph. Verus
//! does not look inside that container, so this module gives its contents two
//! names, `graph_nodes` and `graph_edges`, and states for each method that the
//! engine calls what the method does to them. Those statements are believed,
//! not proved; everything built on them is proved.
//!
//! Handles are `u32`: the container indexes nodes and edges by `u32`, and its
//! index types convert to and from that integer without loss.

use vstd::prelude::*;
use petgraph::stable_graph::StableGraph;
use petgraph::graph::NodeIndex;
use petgraph::graph::EdgeIndex;
use petgraph::Direction;
use petgraph::Directed;
use crate::node::{Nil, Node, NodeView};

verus! {

/// `petgraph::stable_graph::StableGraph`, taken as it is: nothing is said of
/// what is inside it but through `graph_nodes` and `graph_edges`.
#[verifier::external_type_specification]
#[verifier::external_body]
#[verifier::reject_recursive_types(N)]
#[verifier::reject_recursive_types(E)]
#[verifier::reject_recursive_types(Ty)]
#[verifier::reject_recursive_types(Ix)]
pub struct ExStableGraph<N, E, Ty, Ix>(StableGraph<N, E, Ty, Ix>);

/// `petgraph::Directed`, the marker of a graph whose edges have a direction.
#[verifier::external_type_specification]
#[verifier::external_body]
pub struct ExDirected(Directed);

/// The graph of the engine: nodes weighted by `Node`, edges without a label.
pub type MyGraph = StableGraph<Node, Nil>;

/// The live nodes of a graph: each handle in use, with the view of its weight.
pub uninterp spec fn graph_nodes(g: StableGraph<Node, Nil>) -> Map<u32, NodeView>;

/// The live edges of a graph: each edge index in use, with the handles of its
/// source and of its target.
pub uninterp spec fn graph_edges(g: StableGraph<Node, Nil>) -> Map<u32, (u32, u32)>;

/// The indices of the edges that lead from `a` to `b`.
pub open spec fn edges_between(edges: Map<u32, (u32, u32)>, a: u32, b: u32) -> Set<u32> {
    Set::new(|e: u32| edges.contains_key(e) && edges[e] == (a, b))
}

/// The edges that are left when every edge from or to `a` is taken away.
pub open spec fn edges_clear_of(edges: Map<u32, (u32, u32)>, a: u32) -> Map<u32, (u32, u32)> {
    Map::new(
        |e: u32| edges.contains_key(e) && edges[e].0 != a && edges[e].1 != a,
        |e: u32| edges[e],
    )
}

/// `StableGraph::new`: a graph without nodes and without edges.
#[verifier::external_body]
pub(crate) fn graph_new() -> (g: MyGraph)
    ensures
        graph_nodes(g).dom() == Set::<u32>::empty(),
        graph_edges(g).dom() == Set::<u32>::empty(),
{
    StableGraph::new()
}

/// `StableGraph::node_count`: the number of live nodes.
#[verifier::external_body]
pub(crate) fn node_count(g: &MyGraph) -> (n: usize)
    ensures
        n == graph_nodes(*g).dom().len(),
{
    g.node_count()
}

/// `StableGraph::edge_count`: the number of live edges.
#[verifier::external_body]
pub(crate) fn edge_count(g: &MyGraph) -> (n: usize)
    ensures
        n == graph_edges(*g).dom().len(),
{
    g.edge_count()
}

/// `StableGraph::add_node`: puts a node with the given weight under a handle
/// that was not in use, and returns the handle. Edges are untouched. The
/// method panics when the container cannot number one more node; with fewer
/// than `u32::MAX` live nodes it can.
#[verifier::external_body]
pub(crate) fn add_node(g: &mut MyGraph, weight: Node) -> (a: u32)
    requires
        graph_nodes(*old(g)).dom().len() < u32::MAX,
    ensures
        !graph_nodes(*old(g)).contains_key(a),
        graph_nodes(*final(g)) == graph_nodes(*old(g)).insert(a, weight@),
        graph_edges(*final(g)) == graph_edges(*old(g)),
{
    g.add_node(weight).index() as u32
}

/// `StableGraph::add_edge`: adds an edge from `a` to `b` under an edge index
/// that was not in use, and returns the index. An edge between the same two
/// nodes may exist already; the new one then stands beside it. The method
/// panics when an endpoint is not a live node or when the container cannot
/// number one more edge; with fewer than `u32::MAX` live edges it can.
#[verifier::external_body]
pub(crate) fn add_edge(g: &mut MyGraph, a: u32, b: u32, weight: Nil) -> (e: u32)
    requires
        graph_nodes(*old(g)).contains_key(a),
        graph_nodes(*old(g)).contains_key(b),
        graph_edges(*old(g)).dom().len() < u32::MAX,
    ensures
        !graph_edges(*old(g)).contains_key(e),
        graph_edges(*final(g)) == graph_edges(*old(g)).insert(e, (a, b)),
        graph_nodes(*final(g)) == graph_nodes(*old(g)),
{
    g.add_edge(NodeIndex::new(a as usize), NodeIndex::new(b as usize), weight).index() as u32
}

/// `StableGraph::remove_node`: takes the node `a` out, together with every
/// edge from or to it, and returns its weight; `None`, and nothing changed,
/// when `a` is not a live node.
#[verifier::external_body]
pub(crate) fn remove_node(g: &mut MyGraph, a: u32) -> (r: Option<Node>)
    ensures
        match r {
            Some(n) => graph_nodes(*old(g)).contains_key(a) && graph_nodes(*old(g))[a] == n@,
            None => !graph_nodes(*old(g)).contains_key(a),
        },
        graph_nodes(*final(g)) == graph_nodes(*old(g)).remove(a),
        r is Some ==> graph_edges(*final(g)) == edges_clear_of(graph_edges(*old(g)), a),
        r is None ==> graph_edges(*final(g)) == graph_edges(*old(g)),
{
    g.remove_node(NodeIndex::new(a as usize))
}

/// `StableGraph::remove_edge`: takes the edge `e` out and returns its weight;
/// `None`, and nothing changed, when `e` is not a live edge. Nodes are
/// untouched.
#[verifier::external_body]
pub(crate) fn remove_edge(g: &mut MyGraph, e: u32) -> (r: Option<Nil>)
    ensures
        r is Some <==> graph_edges(*old(g)).contains_key(e),
        graph_edges(*final(g)) == graph_edges(*old(g)).remove(e),
        graph_nodes(*final(g)) == graph_nodes(*old(g)),
{
    g.remove_edge(EdgeIndex::new(e as usize))
}

/// `StableGraph::find_edge`: the index of an edge from `a` to `b`, or `None`
/// when there is none. Where several lead from `a` to `b`, any of them may
/// be the one returned.
#[verifier::external_body]
pub(crate) fn find_edge(g: &MyGraph, a: u32, b: u32) -> (r: Option<u32>)
    ensures
        match r {
            Some(e) => edges_between(graph_edges(*g), a, b).contains(e),
            None => edges_between(graph_edges(*g), a, b) == Set::<u32>::empty(),
        },
{
    g.find_edge(NodeIndex::new(a as usize), NodeIndex::new(b as usize)).map(|e| e.index() as u32)
}

/// `StableGraph::node_weight`: the weight of the node `a`, if `a` is live.
#[verifier::external_body]
pub(crate) fn node_weight(g: &MyGraph, a: u32) -> (r: Option<&Node>)
    ensures
        match r {
            Some(n) => graph_nodes(*g).contains_key(a) && graph_nodes(*g)[a] == n@,
            None => !graph_nodes(*g).contains_key(a),
        },
{
    g.node_weight(NodeIndex::new(a as usize))
}

/// `StableGraph::node_weight_mut`: mutable access to the weight of the node
/// `a`, if `a` is live. What the caller leaves behind the reference is the
/// weight of `a` afterwards; nothing else changes.
#[verifier::external_body]
pub(crate) fn node_weight_mut(g: &mut MyGraph, a: u32) -> (r: Option<&mut Node>)
    ensures
        match r {
            Some(n) => graph_nodes(*old(g)).contains_key(a) && graph_nodes(*old(g))[a] == n@
                && graph_nodes(*final(g)) == graph_nodes(*old(g)).insert(a, final(n)@),
            None => !graph_nodes(*old(g)).contains_key(a)
                && graph_nodes(*final(g)) == graph_nodes(*old(g)),
        },
        graph_edges(*final(g)) == graph_edges(*old(g)),
{
    g.node_weight_mut(NodeIndex::new(a as usize))
}

/// `StableGraph::neighbors`: the targets of the edges that leave `a`, one for
/// each such edge, in the order in which the container walks them.
#[verifier::external_body]
pub(crate) fn neighbors_out(g: &MyGraph, a: u32) -> (r: Vec<u32>)
    ensures
        forall|b: u32| #[trigger] r@.to_multiset().count(b) == edges_between(graph_edges(*g), a, b).len(),
{
    g.neighbors(NodeIndex::new(a as usize)).map(|n| n.index() as u32).collect()
}

/// `StableGraph::neighbors_directed` with `Direction::Incoming`: the sources
/// of the edges that enter `a`, one for each such edge, in the order in which
/// the container walks them.
#[verifier::external_body]
pub(crate) fn neighbors_in(g: &MyGraph, a: u32) -> (r: Vec<u32>)
    ensures
        forall|b: u32| #[trigger] r@.to_multiset().count(b) == edges_between(graph_edges(*g), b, a).len(),
{
    g.neighbors_directed(NodeIndex::new(a as usize), Direction::Incoming).map(|n| n.index() as u32).collect()
}

} // verus!
