//! The state graph: a directed graph of fingerprints with weighted edges,
//! kept by `petgraph`, and the search for a cheapest walk through it.

use crate::paths::{costs_fit, is_cheapest};
use petgraph::algo::astar;
use petgraph::graph::Graph;
use petgraph::graph::NodeIndex;
use petgraph::Directed;
use vstd::prelude::*;

verus! {

/// `petgraph::graph::Graph`, of which nothing is known but what the
/// functions of this file say.
#[verifier::external_type_specification]
#[verifier::external_body]
#[verifier::reject_recursive_types(N)]
#[verifier::reject_recursive_types(E)]
#[verifier::reject_recursive_types(Ty)]
#[verifier::reject_recursive_types(Ix)]
pub struct ExGraph<N, E, Ty, Ix>(Graph<N, E, Ty, Ix>);

/// `petgraph::Directed`, the marker of graphs whose edges have a direction.
#[verifier::external_type_specification]
#[verifier::external_body]
pub struct ExDirected(Directed);

/// The node weights of a graph, in the order of the node indices.
pub uninterp spec fn graph_nodes(g: Graph<u64, i32>) -> Seq<u64>;

/// The edges of a graph as source, target and weight, in the order of the
/// edge indices.
pub uninterp spec fn graph_edges(g: Graph<u64, i32>) -> Seq<(usize, usize, i32)>;

/// What `petgraph::algo::astar` returns for a graph of `node_count` nodes
/// with the edges `edges`, from `start` to the one node `goal`, with the edge
/// weights as costs and no estimate: a function of these alone.
pub uninterp spec fn astar_route(
    node_count: nat,
    edges: Seq<(usize, usize, i32)>,
    start: usize,
    goal: usize,
) -> Option<(i32, Seq<usize>)>;

/// `Graph::new`: a directed graph without nodes or edges.
#[verifier::external_body]
pub(crate) fn graph_new() -> (g: Graph<u64, i32>)
    ensures
        graph_nodes(g) == Seq::<u64>::empty(),
        graph_edges(g) == Seq::<(usize, usize, i32)>::empty(),
{
    Graph::new()
}

/// `Graph::node_count`.
#[verifier::external_body]
pub(crate) fn graph_node_count(g: &Graph<u64, i32>) -> (n: usize)
    ensures
        n == graph_nodes(*g).len(),
{
    g.node_count()
}

/// `Graph::edge_count`.
#[verifier::external_body]
pub(crate) fn graph_edge_count(g: &Graph<u64, i32>) -> (n: usize)
    ensures
        n == graph_edges(*g).len(),
{
    g.edge_count()
}

/// `Graph::add_node`: appends a node with the given weight and returns its
/// index, the number of nodes before. It panics when the indices run out,
/// which the `requires` keeps away.
#[verifier::external_body]
pub(crate) fn graph_add_node(g: &mut Graph<u64, i32>, weight: u64) -> (id: usize)
    requires
        graph_nodes(*old(g)).len() < u32::MAX,
    ensures
        id == graph_nodes(*old(g)).len(),
        graph_nodes(*final(g)) == graph_nodes(*old(g)).push(weight),
        graph_edges(*final(g)) == graph_edges(*old(g)),
{
    g.add_node(weight).index()
}

/// `Graph::add_edge`: appends an edge between two nodes of the graph;
/// parallel edges are kept. It panics for a node that is not there and when
/// the indices run out, which the `requires` keeps away.
#[verifier::external_body]
pub(crate) fn graph_add_edge(g: &mut Graph<u64, i32>, from: usize, to: usize, weight: i32)
    requires
        from < graph_nodes(*old(g)).len(),
        to < graph_nodes(*old(g)).len(),
        graph_edges(*old(g)).len() < u32::MAX,
    ensures
        graph_nodes(*final(g)) == graph_nodes(*old(g)),
        graph_edges(*final(g)) == graph_edges(*old(g)).push((from, to, weight)),
{
    g.add_edge(NodeIndex::new(from), NodeIndex::new(to), weight);
}

/// Whether `node` is the node looked for.
pub fn is_node(node: usize, goal: usize) -> (same: bool)
    ensures
        same == (node == goal),
{
    node == goal
}

/// The estimate of the cost that is still to come: none.
pub fn no_estimate() -> (cost: i32)
    ensures
        cost == 0,
{
    0
}

/// A found route as plain mathematics.
pub open spec fn route_view(found: Option<(i32, Vec<usize>)>) -> Option<(i32, Seq<usize>)> {
    match found {
        None => None,
        Some((cost, nodes)) => Some((cost, nodes@)),
    }
}

/// `petgraph::algo::astar` from `start` to `goal` with the edge weights as
/// costs and no estimate. With costs of at least zero it finds a cheapest
/// walk if there is any walk: the contract states that, and names the result,
/// which depends on the graph and the two nodes alone. It adds costs that it
/// does not check for overflow: the cost of a walk that passes no node twice
/// and that of one more edge, which `costs_fit` keeps in range.
#[verifier::external_body]
pub(crate) fn graph_astar(g: &Graph<u64, i32>, start: usize, goal: usize) -> (found: Option<
    (i32, Vec<usize>),
>)
    requires
        start < graph_nodes(*g).len(),
        goal < graph_nodes(*g).len(),
        costs_fit(graph_nodes(*g).len(), graph_edges(*g)),
    ensures
        route_view(found) == astar_route(graph_nodes(*g).len(), graph_edges(*g), start, goal),
        is_cheapest(graph_edges(*g), start, goal, route_view(found)),
{
    let found = astar(
        g,
        NodeIndex::new(start),
        |n| is_node(n.index(), goal),
        |e| *e.weight(),
        |_| no_estimate(),
    );
    found.map(|(cost, path)| (cost, path.into_iter().map(|n| n.index()).collect()))
}

} // verus!
