//! What a search keeps: the state graph, a snapshot of the state behind each
//! node, the table from fingerprints to nodes, and the nodes that won.

use crate::graph::{
    graph_add_edge, graph_add_node, graph_edge_count, graph_edges, graph_new, graph_node_count,
    graph_nodes,
};
use crate::pos::Action;
use crate::puzzle::{Puzzle, MAX_STEP_COST};
use petgraph::graph::Graph;
use std::collections::HashMap;
use vstd::prelude::*;

verus! {

/// A search gives up rather than hold more nodes than this. With so many
/// nodes at most, and no edge heavier than `MAX_STEP_COST`, the cost of a
/// walk that passes no node twice stays in the range of a cost.
pub const NODE_LIMIT: usize = 0x400_0000;

/// A search gives up rather than hold more edges than this, which is fewer
/// than the graph has indices for.
pub const EDGE_LIMIT: usize = 0x1000_0000;

/// Why a search gave up.
#[derive(Clone, Copy, Debug, PartialEq, Eq, Structural)]
pub enum SearchError {
    /// A new state turned up at the depth at which the search may not go on.
    TooDeep,
    /// The graph has no room for another node or edge.
    GraphFull,
}

/// The state graph of one search, with the table that finds a node by the
/// fingerprint of its state.
pub struct StateGraph<S> {
    pub graph: Graph<u64, i32>,
    pub boards: Vec<S>,
    pub table: HashMap<u64, usize>,
    pub winners: Vec<usize>,
}

/// A state graph as plain mathematics. Node `i` has the fingerprint
/// `nodes[i]` and the state `boards[i]`; an edge is source, target, weight.
pub struct GraphView<M> {
    pub nodes: Seq<u64>,
    pub edges: Seq<(usize, usize, i32)>,
    pub boards: Seq<M>,
    pub table: Map<u64, usize>,
    pub winners: Seq<usize>,
}

impl<M> GraphView<M> {
    pub open spec fn empty() -> GraphView<M> {
        GraphView {
            nodes: Seq::empty(),
            edges: Seq::empty(),
            boards: Seq::empty(),
            table: Map::empty(),
            winners: Seq::empty(),
        }
    }

    /// The graph with one more node, which the table now finds by `h`.
    pub open spec fn with_node(self, m: M, h: u64) -> GraphView<M> {
        GraphView {
            nodes: self.nodes.push(h),
            boards: self.boards.push(m),
            table: self.table.insert(h, self.nodes.len() as usize),
            ..self
        }
    }

    pub open spec fn with_edge(self, from: usize, to: usize, weight: i32) -> GraphView<M> {
        GraphView { edges: self.edges.push((from, to, weight)), ..self }
    }

    pub open spec fn with_winner(self, node: usize) -> GraphView<M> {
        GraphView { winners: self.winners.push(node), ..self }
    }

    pub open spec fn node_room(self) -> bool {
        self.nodes.len() < NODE_LIMIT
    }

    pub open spec fn edge_room(self) -> bool {
        self.edges.len() < EDGE_LIMIT
    }

    /// The graph with an edge from `source`, where there is one, to `to`.
    pub open spec fn linked(self, source: Option<usize>, to: usize, weight: i32) -> Result<
        GraphView<M>,
        SearchError,
    > {
        match source {
            None => Ok(self),
            Some(from) => if self.edge_room() {
                Ok(self.with_edge(from, to, weight))
            } else {
                Err(SearchError::GraphFull)
            },
        }
    }

    /// The graph with one more node for the state `m`, reached from `source`.
    pub open spec fn attached(self, m: M, h: u64, source: Option<usize>, weight: i32) -> Result<
        GraphView<M>,
        SearchError,
    > {
        if self.node_room() {
            self.with_node(m, h).linked(source, self.nodes.len() as usize, weight)
        } else {
            Err(SearchError::GraphFull)
        }
    }

    /// Whether `other` holds all that this graph holds, at the same places.
    pub open spec fn within(self, other: GraphView<M>) -> bool {
        &&& self.nodes.len() <= other.nodes.len()
        &&& self.boards.len() <= other.boards.len()
        &&& self.edges.len() <= other.edges.len()
        &&& self.winners.len() <= other.winners.len()
        &&& forall|i: int| 0 <= i < self.nodes.len() ==> self.nodes[i] == other.nodes[i]
        &&& forall|i: int| 0 <= i < self.boards.len() ==> self.boards[i] == other.boards[i]
        &&& forall|i: int| 0 <= i < self.edges.len() ==> self.edges[i] == other.edges[i]
        &&& forall|i: int| 0 <= i < self.winners.len() ==> self.winners[i] == other.winners[i]
        &&& forall|h: u64| self.table.contains_key(h) ==> other.table.contains_key(h)
    }
}

/// Whether the action `a` leads from the state `from` to a state with the
/// fingerprint `to`, by a move or by a win.
pub open spec fn leads<S: Puzzle>(from: S::V, a: Action, to: u64) -> bool {
    &&& S::step(from, a).0 is Moved || S::step(from, a).0 is Victory
    &&& S::digest(S::step(from, a).1) == to
}

/// Whether some action that costs `weight` leads from the state `from` to
/// a state with the fingerprint `to`.
pub open spec fn some_action_leads<S: Puzzle>(from: S::V, to: u64, weight: i32) -> bool {
    exists|a: Action| #[trigger] leads::<S>(from, a, to) && S::price(a) == weight
}

/// Every edge stands for an action: one that leads from the state of its
/// source to a state with the fingerprint of its target, and costs what the
/// edge weighs.
pub open spec fn explained<S: Puzzle>(g: GraphView<S::V>) -> bool {
    forall|e: int|
        0 <= e < g.edges.len() ==> some_action_leads::<S>(
            g.boards[(#[trigger] g.edges[e]).0 as int],
            g.nodes[g.edges[e].1 as int],
            g.edges[e].2,
        )
}

/// Whether some edge leads to the node `i` from a node of a smaller index.
pub open spec fn has_parent(edges: Seq<(usize, usize, i32)>, i: int) -> bool {
    exists|e: int| 0 <= e < edges.len() && (#[trigger] edges[e]).1 == i && edges[e].0 < i
}

/// The parts of a graph fit together: a state and a fingerprint for every
/// node, which the table knows; edges between nodes of the graph, with
/// weights that an action can have; and a table and a list of winners that
/// speak of nodes of the graph.
pub open spec fn sound<S: Puzzle>(g: GraphView<S::V>) -> bool {
    &&& g.nodes.len() == g.boards.len()
    &&& g.nodes.len() <= NODE_LIMIT
    &&& g.edges.len() <= EDGE_LIMIT
    &&& forall|i: int|
        0 <= i < g.nodes.len() ==> {
            &&& #[trigger] g.nodes[i] == S::digest(g.boards[i])
            &&& S::valid(g.boards[i])
            &&& g.table.contains_key(g.nodes[i])
        }
    &&& forall|e: int|
        0 <= e < g.edges.len() ==> {
            &&& (#[trigger] g.edges[e]).0 < g.nodes.len()
            &&& g.edges[e].1 < g.nodes.len()
            &&& 1 <= g.edges[e].2 <= MAX_STEP_COST
        }
    &&& forall|h: u64| #[trigger]
        g.table.contains_key(h) ==> g.table[h] < g.nodes.len() && g.nodes[g.table[h] as int] == h
    &&& forall|k: int| 0 <= k < g.winners.len() ==> (#[trigger] g.winners[k]) < g.nodes.len()
}

/// Every node but the first was reached from an earlier one.
pub open spec fn rooted<M>(g: GraphView<M>) -> bool {
    forall|i: int| 0 < i < g.nodes.len() ==> #[trigger] has_parent(g.edges, i)
}

/// A sound graph with room is still sound with one more node, and holds
/// all it held.
pub proof fn lemma_with_node<S: Puzzle>(a: GraphView<S::V>, m: S::V)
    requires
        sound::<S>(a),
        a.node_room(),
        S::valid(m),
    ensures
        sound::<S>(a.with_node(m, S::digest(m))),
        a.within(a.with_node(m, S::digest(m))),
        explained::<S>(a) ==> explained::<S>(a.with_node(m, S::digest(m))),
{
    let hash = S::digest(m);
    let b = a.with_node(m, hash);
    if explained::<S>(a) {
        assert forall|e: int| 0 <= e < b.edges.len() implies some_action_leads::<S>(
            b.boards[(#[trigger] b.edges[e]).0 as int],
            b.nodes[b.edges[e].1 as int],
            b.edges[e].2,
        ) by {
            assert(a.edges[e].0 < a.nodes.len());
            assert(some_action_leads::<S>(
                a.boards[a.edges[e].0 as int],
                a.nodes[a.edges[e].1 as int],
                a.edges[e].2,
            ));
        }
    }
    assert forall|i: int| 0 <= i < b.nodes.len() implies {
        &&& #[trigger] b.nodes[i] == S::digest(b.boards[i])
        &&& S::valid(b.boards[i])
        &&& b.table.contains_key(b.nodes[i])
    } by {
        if i < a.nodes.len() {
            assert(a.nodes[i] == S::digest(a.boards[i]));
        }
    }
    assert forall|e: int| 0 <= e < b.edges.len() implies {
        &&& (#[trigger] b.edges[e]).0 < b.nodes.len()
        &&& b.edges[e].1 < b.nodes.len()
        &&& 1 <= b.edges[e].2 <= MAX_STEP_COST
    } by {
        assert(a.edges[e].0 < a.nodes.len());
    }
    assert forall|h: u64| #[trigger] b.table.contains_key(h) implies b.table[h] < b.nodes.len()
        && b.nodes[b.table[h] as int] == h by {
        if h != hash {
            assert(a.table.contains_key(h));
        }
    }
    assert forall|k: int| 0 <= k < b.winners.len() implies (#[trigger] b.winners[k])
        < b.nodes.len() by {
        assert(a.winners[k] < a.nodes.len());
    }
}

/// A sound graph with room is still sound with one more edge between two of
/// its nodes, and holds all it held.
pub proof fn lemma_with_edge<S: Puzzle>(a: GraphView<S::V>, from: usize, to: usize, weight: i32)
    requires
        sound::<S>(a),
        a.edge_room(),
        from < a.nodes.len(),
        to < a.nodes.len(),
        1 <= weight <= MAX_STEP_COST,
    ensures
        sound::<S>(a.with_edge(from, to, weight)),
        a.within(a.with_edge(from, to, weight)),
        explained::<S>(a) && some_action_leads::<S>(
            a.boards[from as int],
            a.nodes[to as int],
            weight,
        ) ==> explained::<S>(a.with_edge(from, to, weight)),
{
    let b = a.with_edge(from, to, weight);
    if explained::<S>(a) && some_action_leads::<S>(
        a.boards[from as int],
        a.nodes[to as int],
        weight,
    ) {
        assert forall|e: int| 0 <= e < b.edges.len() implies some_action_leads::<S>(
            b.boards[(#[trigger] b.edges[e]).0 as int],
            b.nodes[b.edges[e].1 as int],
            b.edges[e].2,
        ) by {
            if e < a.edges.len() {
                assert(some_action_leads::<S>(
                    a.boards[a.edges[e].0 as int],
                    a.nodes[a.edges[e].1 as int],
                    a.edges[e].2,
                ));
            }
        }
    }
    assert forall|e: int| 0 <= e < b.edges.len() implies {
        &&& (#[trigger] b.edges[e]).0 < b.nodes.len()
        &&& b.edges[e].1 < b.nodes.len()
        &&& 1 <= b.edges[e].2 <= MAX_STEP_COST
    } by {
        if e < a.edges.len() {
            assert(a.edges[e].0 < a.nodes.len());
        }
    }
}

/// A node keeps its parent when edges are added.
pub proof fn lemma_parent_survives(
    edges: Seq<(usize, usize, i32)>,
    more: Seq<(usize, usize, i32)>,
    i: int,
)
    requires
        has_parent(edges, i),
        edges.len() <= more.len(),
        forall|e: int| 0 <= e < edges.len() ==> edges[e] == more[e],
    ensures
        has_parent(more, i),
{
    let e = choose|e: int| 0 <= e < edges.len() && (#[trigger] edges[e]).1 == i && edges[e].0 < i;
    assert(more[e].1 == i && more[e].0 < i);
}

/// A new node that is linked to an earlier one leaves a rooted graph rooted;
/// so does the first node of an empty graph.
pub proof fn lemma_attached<S: Puzzle>(a: GraphView<S::V>, m: S::V, source: Option<usize>, weight: i32)
    requires
        sound::<S>(a),
        rooted(a),
        S::valid(m),
        source matches Some(from) ==> from < a.nodes.len(),
        source is None ==> a.nodes.len() == 0,
        1 <= weight <= MAX_STEP_COST,
    ensures
        a.attached(m, S::digest(m), source, weight) matches Ok(b) ==> {
            &&& sound::<S>(b)
            &&& rooted(b)
            &&& explained::<S>(a) && (source matches Some(from) ==> some_action_leads::<S>(
                a.boards[from as int],
                S::digest(m),
                weight,
            )) ==> explained::<S>(b)
            &&& a.within(b)
            &&& b.nodes.len() == a.nodes.len() + 1
            &&& b.boards[a.nodes.len() as int] == m
            &&& b.table.contains_key(S::digest(m))
            &&& b.winners == a.winners
        },
{
    if let Ok(b) = a.attached(m, S::digest(m), source, weight) {
        let id = a.nodes.len() as usize;
        let mid = a.with_node(m, S::digest(m));
        lemma_with_node::<S>(a, m);
        if let Some(from) = source {
            lemma_with_edge::<S>(mid, from, id, weight);
            assert(b.edges[a.edges.len() as int] == (from, id, weight));
            assert(has_parent(b.edges, id as int));
        }
        assert forall|i: int| 0 < i < b.nodes.len() implies #[trigger] has_parent(b.edges, i) by {
            if i < a.nodes.len() {
                assert(has_parent(a.edges, i));
                lemma_parent_survives(a.edges, b.edges, i);
            }
        }
    }
}

/// An edge from an earlier node, or none, leaves a sound and rooted graph
/// so, and changes nothing but the list of edges.
pub proof fn lemma_linked<S: Puzzle>(a: GraphView<S::V>, source: Option<usize>, to: usize, weight: i32)
    requires
        sound::<S>(a),
        rooted(a),
        to < a.nodes.len(),
        source matches Some(from) ==> from < a.nodes.len(),
        1 <= weight <= MAX_STEP_COST,
    ensures
        a.linked(source, to, weight) matches Ok(b) ==> {
            &&& sound::<S>(b)
            &&& rooted(b)
            &&& explained::<S>(a) && (source matches Some(from) ==> some_action_leads::<S>(
                a.boards[from as int],
                a.nodes[to as int],
                weight,
            )) ==> explained::<S>(b)
            &&& a.within(b)
            &&& b.nodes == a.nodes
            &&& b.boards == a.boards
            &&& b.table == a.table
            &&& b.winners == a.winners
        },
{
    if let Ok(b) = a.linked(source, to, weight) {
        if let Some(from) = source {
            lemma_with_edge::<S>(a, from, to, weight);
        }
        assert forall|i: int| 0 < i < b.nodes.len() implies #[trigger] has_parent(b.edges, i) by {
            assert(has_parent(a.edges, i));
            lemma_parent_survives(a.edges, b.edges, i);
        }
    }
}

/// A graph that holds what another holds, holds what that one holds.
pub proof fn lemma_within_trans<M>(a: GraphView<M>, b: GraphView<M>, c: GraphView<M>)
    requires
        a.within(b),
        b.within(c),
    ensures
        a.within(c),
{
}

impl<S: Puzzle> View for StateGraph<S> {
    type V = GraphView<S::V>;

    open spec fn view(&self) -> GraphView<S::V> {
        GraphView {
            nodes: graph_nodes(self.graph),
            edges: graph_edges(self.graph),
            boards: Seq::new(self.boards@.len(), |i: int| self.boards@[i]@),
            table: self.table@,
            winners: self.winners@,
        }
    }
}

impl<S: Puzzle> StateGraph<S> {
    /// The graph is sound, every node of it hangs on the first, and every
    /// edge stands for an action.
    pub open spec fn wf(&self) -> bool {
        sound::<S>(self@) && rooted(self@) && explained::<S>(self@)
    }

    /// A graph without nodes.
    pub fn new() -> (g: StateGraph<S>)
        ensures
            g@ == GraphView::<S::V>::empty(),
            g.wf(),
    {
        let g = StateGraph {
            graph: graph_new(),
            boards: Vec::new(),
            table: HashMap::new(),
            winners: Vec::new(),
        };
        assert(g@.boards =~= Seq::<S::V>::empty());
        g
    }

    pub fn node_count(&self) -> (n: usize)
        ensures
            n == self@.nodes.len(),
    {
        graph_node_count(&self.graph)
    }

    /// Adds an edge from `source`, where there is one, to the node `to`.
    pub fn link(&mut self, source: Option<usize>, to: usize, weight: i32) -> (r: Result<
        (),
        SearchError,
    >)
        requires
            sound::<S>(old(self)@),
            to < old(self)@.nodes.len(),
            source matches Some(from) ==> from < old(self)@.nodes.len(),
            1 <= weight <= MAX_STEP_COST,
        ensures
            match old(self)@.linked(source, to, weight) {
                Ok(gv) => r is Ok && final(self)@ == gv && sound::<S>(gv),
                Err(e) => r == Err::<(), SearchError>(e),
            },
    {
        match source {
            None => Ok(()),
            Some(from) => {
                if graph_edge_count(&self.graph) >= EDGE_LIMIT {
                    return Err(SearchError::GraphFull);
                }
                graph_add_edge(&mut self.graph, from, to, weight);
                Ok(())
            },
        }
    }
}

/// Adds a node for `board`, linked from `source` where there is one; gives
/// the node's index, or gives up where the graph is full.
pub fn attach<S: Puzzle>(g: &mut StateGraph<S>, board: S, source: Option<usize>, weight: i32) -> (r:
    Result<usize, SearchError>)
    requires
        sound::<S>(old(g)@),
        S::valid(board@),
        source matches Some(from) ==> from < old(g)@.nodes.len(),
        1 <= weight <= MAX_STEP_COST,
    ensures
        match old(g)@.attached(board@, S::digest(board@), source, weight) {
            Ok(gv) => r == Ok::<usize, SearchError>(old(g)@.nodes.len() as usize) && final(g)@ == gv,
            Err(e) => r == Err::<usize, SearchError>(e),
        },
{
    if g.node_count() >= NODE_LIMIT {
        return Err(SearchError::GraphFull);
    }
    let id = add_node(g, board);
    match g.link(source, id, weight) {
        Ok(()) => Ok(id),
        Err(e) => Err(e),
    }
}

/// Adds a node for `board`, under its fingerprint; gives the node's index.
pub fn add_node<S: Puzzle>(g: &mut StateGraph<S>, board: S) -> (id: usize)
    requires
        sound::<S>(old(g)@),
        old(g)@.node_room(),
        S::valid(board@),
    ensures
        id == old(g)@.nodes.len(),
        final(g)@ == old(g)@.with_node(board@, S::digest(board@)),
        sound::<S>(final(g)@),
{
    let hash = board.fingerprint();
    let id = graph_add_node(&mut g.graph, hash);
    g.boards.push(board);
    g.table.insert(hash, id);
    assert(g@.boards =~= old(g)@.boards.push(board@));
    proof {
        lemma_with_node::<S>(old(g)@, board@);
    }
    id
}

} // verus!
