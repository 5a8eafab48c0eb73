//! From a searched graph to an answer: the cheapest walk from the first node
//! to each winner, and the best of those.

use crate::board::Board;
use crate::chart::is_winner;
use crate::explore::{recurse, visit_spec};
use crate::graph::{astar_route, graph_astar};
use crate::paths::{
    chained, costs_fit, is_cheapest, lemma_walk_extend, lemma_walk_nodes, walk_cost, walk_nodes,
};
use crate::pos::{Action, ACTION_COUNT};
use crate::puzzle::{Outcome, Puzzle};
use crate::store::{
    explained, has_parent, leads, rooted, some_action_leads, sound, GraphView, SearchError,
    StateGraph,
};
use vstd::prelude::*;

verus! {

/// The depth at which the search of a chase board gives up.
pub const CHASE_MAX_DEPTH: usize = 1000;

/// A way to win: what it costs, the nodes it passes from the first state to
/// the winning one, a snapshot of the state at each of them, and an action
/// for each step from one to the next.
#[derive(Debug)]
pub struct Solution<S> {
    pub cost: i32,
    pub nodes: Vec<usize>,
    pub states: Vec<S>,
    pub actions: Vec<Action>,
}

/// A solution as plain mathematics.
pub struct SolutionView<M> {
    pub cost: int,
    pub nodes: Seq<usize>,
    pub states: Seq<M>,
    pub actions: Seq<Action>,
}

impl<S: Puzzle> View for Solution<S> {
    type V = SolutionView<S::V>;

    open spec fn view(&self) -> SolutionView<S::V> {
        SolutionView {
            cost: self.cost as int,
            nodes: self.nodes@,
            states: Seq::new(self.states@.len(), |i: int| self.states@[i]@),
            actions: self.actions@,
        }
    }
}

/// The first action from number `k` on, in the order of the actions, that
/// leads from the state `from` to a state with the fingerprint `to`; the
/// last action if none does.
pub open spec fn first_leading<S: Puzzle>(from: S::V, to: u64, k: nat) -> Action
    decreases ACTION_COUNT - k,
{
    if k + 1 >= ACTION_COUNT || leads::<S>(from, Action::nth(k), to) {
        Action::nth(k)
    } else {
        first_leading::<S>(from, to, k + 1)
    }
}

/// Whether the list of nodes `a` comes before `b` in the order of a
/// dictionary.
pub open spec fn nodes_before(a: Seq<usize>, b: Seq<usize>) -> bool
    decreases a.len(),
{
    if b.len() == 0 {
        false
    } else if a.len() == 0 {
        true
    } else if a[0] != b[0] {
        a[0] < b[0]
    } else {
        nodes_before(a.drop_first(), b.drop_first())
    }
}

/// Whether the route `a` is to be preferred to `b`: it costs less, or it
/// costs the same and its nodes come first.
pub open spec fn route_before(a: (i32, Seq<usize>), b: (i32, Seq<usize>)) -> bool {
    a.0 < b.0 || (a.0 == b.0 && nodes_before(a.1, b.1))
}

/// The cheapest route from the first node to the winner number `k`.
pub open spec fn winner_route<M>(g: GraphView<M>, k: int) -> Option<(i32, Seq<usize>)> {
    astar_route(g.nodes.len(), g.edges, 0, g.winners[k])
}

/// The preferred one among the cheapest routes to the first `k` winners.
pub open spec fn best_route<M>(g: GraphView<M>, k: nat) -> Option<(i32, Seq<usize>)>
    decreases k,
{
    if k == 0 {
        None
    } else {
        let earlier = best_route(g, (k - 1) as nat);
        match (winner_route(g, k - 1), earlier) {
            (None, _) => earlier,
            (Some(r), None) => Some(r),
            (Some(r), Some(b)) => if route_before(r, b) {
                Some(r)
            } else {
                Some(b)
            },
        }
    }
}

/// The solution that a route through a graph stands for: the states of its
/// nodes, and for each step the first action that leads to a state with the
/// fingerprint of the next node.
pub open spec fn route_solution<S: Puzzle>(g: GraphView<S::V>, route: (i32, Seq<usize>)) -> SolutionView<
    S::V,
> {
    SolutionView {
        cost: route.0 as int,
        nodes: route.1,
        states: Seq::new(route.1.len(), |i: int| g.boards[route.1[i] as int]),
        actions: Seq::new(
            (route.1.len() - 1) as nat,
            |i: int|
                first_leading::<S>(
                    g.boards[route.1[i] as int],
                    g.nodes[route.1[i + 1] as int],
                    0,
                ),
        ),
    }
}

/// Whether some edge leads from the node `from` to the node `to`.
pub open spec fn joined_by(edges: Seq<(usize, usize, i32)>, from: usize, to: usize) -> bool {
    exists|e: int| 0 <= e < edges.len() && (#[trigger] edges[e]).0 == from && edges[e].1 == to
}

/// Whether a route lies in a graph: it starts at the first node, passes
/// nodes of the graph only, and goes along its edges.
pub open spec fn fits<M>(g: GraphView<M>, nodes: Seq<usize>) -> bool {
    &&& nodes.len() > 0
    &&& nodes[0] == 0
    &&& forall|i: int| 0 <= i < nodes.len() ==> (#[trigger] nodes[i]) < g.nodes.len()
    &&& forall|i: int|
        0 <= i < nodes.len() - 1 ==> joined_by(g.edges, #[trigger] nodes[i], nodes[i + 1])
}

/// Along a route that lies in an explained graph, some action leads from
/// each state to a state with the fingerprint of the next.
pub proof fn lemma_fits_leads<S: Puzzle>(g: GraphView<S::V>, nodes: Seq<usize>, i: int)
    requires
        explained::<S>(g),
        fits(g, nodes),
        0 <= i < nodes.len() - 1,
    ensures
        exists|a: Action| #[trigger]
            leads::<S>(g.boards[nodes[i] as int], a, g.nodes[nodes[i + 1] as int]),
{
    assert(joined_by(g.edges, nodes[i], nodes[i + 1]));
    let e = choose|e: int|
        0 <= e < g.edges.len() && (#[trigger] g.edges[e]).0 == nodes[i] && g.edges[e].1 == nodes[i
            + 1];
    assert(some_action_leads::<S>(
        g.boards[g.edges[e].0 as int],
        g.nodes[g.edges[e].1 as int],
        g.edges[e].2,
    ));
}

/// Whether a walk through the edges stands behind a route: it leads from the
/// first node along the nodes of the route and costs what the route costs.
pub open spec fn backed(edges: Seq<(usize, usize, i32)>, cost: int, nodes: Seq<usize>) -> bool {
    exists|walk: Seq<int>|
        {
            &&& #[trigger] chained(edges, walk, 0, nodes.last() as int)
            &&& walk_cost(edges, walk) == cost
            &&& walk_nodes(edges, walk, 0) == nodes
        }
}

/// Whether a route is a cheapest way to win in a graph: it lies in the
/// graph, ends at a winner, a walk stands behind it, and no walk from the
/// first node to any winner costs less.
pub open spec fn cheapest_win<M>(g: GraphView<M>, cost: int, nodes: Seq<usize>) -> bool {
    &&& fits(g, nodes)
    &&& is_winner(g, nodes.last() as int)
    &&& backed(g.edges, cost, nodes)
    &&& forall|k: int, walk: Seq<int>|
        0 <= k < g.winners.len() && #[trigger] chained(
            g.edges,
            walk,
            0,
            (#[trigger] g.winners[k]) as int,
        ) ==> cost <= walk_cost(g.edges, walk)
}

/// What the exhaustive search has to say of a graph: the best route to a
/// winner, or nothing where nothing won.
pub open spec fn answer<S: Puzzle>(g: GraphView<S::V>) -> Option<SolutionView<S::V>> {
    match best_route(g, g.winners.len()) {
        None => None,
        Some(route) => Some(route_solution::<S>(g, route)),
    }
}

/// The graph of all that the actions lead to from the state `root`.
pub open spec fn explore_spec<S: Puzzle>(root: S::V, max_depth: nat) -> Result<
    GraphView<S::V>,
    SearchError,
> {
    visit_spec::<S>(GraphView::empty(), root, 0, None, 1, max_depth)
}

/// What the exhaustive search answers for the state `root`.
pub open spec fn solve_spec<S: Puzzle>(root: S::V, max_depth: nat) -> Result<
    Option<SolutionView<S::V>>,
    SearchError,
> {
    match explore_spec::<S>(root, max_depth) {
        Err(e) => Err(e),
        Ok(g) => Ok(answer::<S>(g)),
    }
}

/// In a sound and rooted graph a walk leads from the first node to every
/// node.
pub proof fn lemma_rooted_reaches<S: Puzzle>(g: GraphView<S::V>, node: int)
    requires
        sound::<S>(g),
        rooted(g),
        0 <= node < g.nodes.len(),
    ensures
        exists|walk: Seq<int>| #[trigger] chained(g.edges, walk, 0, node),
    decreases node,
{
    if node == 0 {
        assert(chained(g.edges, Seq::<int>::empty(), 0, 0));
    } else {
        assert(has_parent(g.edges, node));
        let e = choose|e: int|
            0 <= e < g.edges.len() && (#[trigger] g.edges[e]).1 == node && g.edges[e].0 < node;
        lemma_rooted_reaches::<S>(g, g.edges[e].0 as int);
        let walk = choose|walk: Seq<int>| #[trigger]
            chained(g.edges, walk, 0, g.edges[e].0 as int);
        lemma_walk_extend(g.edges, walk, 0, e);
    }
}

/// The weights of a sound graph are such that the costs of its walks fit.
pub proof fn lemma_sound_costs_fit<S: Puzzle>(g: GraphView<S::V>)
    requires
        sound::<S>(g),
    ensures
        costs_fit(g.nodes.len(), g.edges),
{
    assert forall|i: int| 0 <= i < g.edges.len() implies 0 <= (#[trigger] g.edges[i]).2
        && g.edges[i].2 * g.nodes.len() <= i32::MAX by {
        let w = g.edges[i].2 as int;
        let n = g.nodes.len() as int;
        assert(w * n <= i32::MAX) by (nonlinear_arith)
            requires
                0 <= w <= 16,
                0 <= n <= 0x400_0000,
        ;
    }
}

/// The nodes of a walk through a sound graph are nodes of the graph.
pub proof fn lemma_route_in_graph<S: Puzzle>(
    g: GraphView<S::V>,
    walk: Seq<int>,
    from: usize,
    to: int,
)
    requires
        sound::<S>(g),
        from < g.nodes.len(),
        chained(g.edges, walk, from as int, to),
    ensures
        forall|i: int|
            0 <= i < walk_nodes(g.edges, walk, from).len() ==> (#[trigger] walk_nodes(
                g.edges,
                walk,
                from,
            )[i]) < g.nodes.len(),
{
    lemma_walk_nodes(g.edges, walk, from, to);
    let nodes = walk_nodes(g.edges, walk, from);
    assert forall|i: int| 0 <= i < nodes.len() implies (#[trigger] nodes[i]) < g.nodes.len() by {
        if i > 0 {
            assert(0 <= walk[i - 1] < g.edges.len());
            assert(g.edges[walk[i - 1]].1 == nodes[i]);
        }
    }
}

impl<S: Puzzle> StateGraph<S> {
    /// The cheapest route from the first node to the node `goal`: its cost
    /// and its nodes.
    pub fn shortest_path(&self, goal: usize) -> (route: (i32, Vec<usize>))
        requires
            self.wf(),
            goal < self@.nodes.len(),
        ensures
            Some((route.0, route.1@)) == astar_route(self@.nodes.len(), self@.edges, 0, goal),
            is_cheapest(self@.edges, 0, goal, Some((route.0, route.1@))),
            fits(self@, route.1@),
            route.1@.last() == goal,
            backed(self@.edges, route.0 as int, route.1@),
    {
        proof {
            lemma_sound_costs_fit::<S>(self@);
            lemma_rooted_reaches::<S>(self@, goal as int);
        }
        match graph_astar(&self.graph, 0, goal) {
            Some(route) => {
                proof {
                    let walk = choose|walk: Seq<int>|
                        {
                            &&& #[trigger] chained(self@.edges, walk, 0, goal as int)
                            &&& walk_cost(self@.edges, walk) == route.0
                            &&& walk_nodes(self@.edges, walk, 0) == route.1@
                        };
                    lemma_route_in_graph::<S>(self@, walk, 0, goal as int);
                    lemma_walk_nodes(self@.edges, walk, 0, goal as int);
                    let nodes = route.1@;
                    assert forall|i: int| 0 <= i < nodes.len() - 1 implies joined_by(
                        self@.edges,
                        #[trigger] nodes[i],
                        nodes[i + 1],
                    ) by {
                        assert(0 <= walk[i] < self@.edges.len());
                        assert(self@.edges[walk[i]].0 == nodes[i]);
                        assert(self@.edges[walk[i]].1 == nodes[i + 1]);
                    }
                }
                route
            },
            None => {
                proof {
                    let walk = choose|walk: Seq<int>| #[trigger]
                        chained(self@.edges, walk, 0, goal as int);
                    assert(false);
                }
                (0, Vec::new())
            },
        }
    }

    /// Snapshots of the states at the nodes of a route.
    pub fn states_along(&self, nodes: &Vec<usize>) -> (states: Vec<S>)
        requires
            forall|i: int| 0 <= i < nodes@.len() ==> (#[trigger] nodes@[i]) < self.boards@.len(),
        ensures
            states@.len() == nodes@.len(),
            forall|i: int|
                0 <= i < nodes@.len() ==> (#[trigger] states@[i])@ == self.boards@[nodes@[i] as int]@,
    {
        let mut states: Vec<S> = Vec::new();
        let mut i: usize = 0;
        while i < nodes.len()
            invariant
                i <= nodes@.len(),
                states@.len() == i,
                forall|j: int| 0 <= j < nodes@.len() ==> (#[trigger] nodes@[j]) < self.boards@.len(),
                forall|j: int|
                    0 <= j < i ==> (#[trigger] states@[j])@ == self.boards@[nodes@[j] as int]@,
            decreases nodes@.len() - i,
        {
            let node = nodes[i];
            states.push(self.boards[node].snapshot());
            i += 1;
        }
        states
    }

    /// An action for each step of a route: the first one that leads from
    /// the state of a node to a state with the fingerprint of the next node.
    pub fn actions_along(&self, nodes: &Vec<usize>) -> (actions: Vec<Action>)
        requires
            sound::<S>(self@),
            explained::<S>(self@),
            fits(self@, nodes@),
        ensures
            actions@.len() == nodes@.len() - 1,
            forall|i: int|
                0 <= i < nodes@.len() - 1 ==> {
                    &&& #[trigger] actions@[i] == first_leading::<S>(
                        self@.boards[nodes@[i] as int],
                        self@.nodes[nodes@[i + 1] as int],
                        0,
                    )
                    &&& leads::<S>(
                        self@.boards[nodes@[i] as int],
                        actions@[i],
                        self@.nodes[nodes@[i + 1] as int],
                    )
                },
    {
        let mut actions: Vec<Action> = Vec::new();
        let mut i: usize = 0;
        while i < nodes.len() - 1
            invariant
                sound::<S>(self@),
                explained::<S>(self@),
                fits(self@, nodes@),
                i + 1 <= nodes@.len(),
                actions@.len() == i,
                forall|j: int|
                    0 <= j < i ==> {
                        &&& #[trigger] actions@[j] == first_leading::<S>(
                            self@.boards[nodes@[j] as int],
                            self@.nodes[nodes@[j + 1] as int],
                            0,
                        )
                        &&& leads::<S>(
                            self@.boards[nodes@[j] as int],
                            actions@[j],
                            self@.nodes[nodes@[j + 1] as int],
                        )
                    },
            decreases nodes@.len() - i,
        {
            let from = nodes[i];
            let to = nodes[i + 1];
            assert(nodes@[i as int] < self@.nodes.len());
            assert(nodes@[i + 1] < self@.nodes.len());
            let ghost state = self@.boards[from as int];
            let ghost want = self@.nodes[to as int];
            proof {
                lemma_fits_leads::<S>(self@, nodes@, i as int);
            }
            assert(self@.nodes[from as int] == S::digest(state));
            assert(self@.nodes[to as int] == S::digest(self@.boards[to as int]));
            let target = self.boards[to].fingerprint();
            let mut k: usize = 0;
            let mut found = false;
            while k + 1 < ACTION_COUNT && !found
                invariant
                    k < ACTION_COUNT,
                    from < self.boards@.len(),
                    state == self.boards@[from as int]@,
                    S::valid(state),
                    want == target,
                    forall|j: nat| j < k ==> !leads::<S>(state, Action::nth(j), want),
                    found ==> leads::<S>(state, Action::nth(k as nat), want),
                    first_leading::<S>(state, want, 0) == first_leading::<S>(state, want, k as nat),
                decreases ACTION_COUNT - k, !found as int,
            {
                let (outcome, next) = self.boards[from].apply(Action::from_index(k));
                let moves = match outcome {
                    Outcome::Moved => true,
                    Outcome::Victory => true,
                    _ => false,
                };
                if moves && next.fingerprint() == target {
                    found = true;
                } else {
                    k += 1;
                }
            }
            proof {
                let a = choose|a: Action| #[trigger] leads::<S>(state, a, want);
                assert(Action::nth(a.rank()) == a);
                assert(a.rank() < ACTION_COUNT);
                if !found {
                    assert(k + 1 == ACTION_COUNT);
                    assert(a.rank() >= k);
                }
            }
            actions.push(Action::from_index(k));
            i += 1;
        }
        actions
    }
}

/// Whether the list of nodes `a` comes before `b` in the order of a
/// dictionary.
pub fn comes_before(a: &Vec<usize>, b: &Vec<usize>) -> (before: bool)
    ensures
        before == nodes_before(a@, b@),
{
    let mut i: usize = 0;
    assert(a@.skip(0) =~= a@ && b@.skip(0) =~= b@);
    while i < a.len() && i < b.len()
        invariant
            i <= a@.len(),
            i <= b@.len(),
            nodes_before(a@, b@) == nodes_before(a@.skip(i as int), b@.skip(i as int)),
        decreases a@.len() - i,
    {
        let ghost x = a@.skip(i as int);
        let ghost y = b@.skip(i as int);
        assert(x[0] == a@[i as int] && y[0] == b@[i as int]);
        assert(x.drop_first() =~= a@.skip(i + 1) && y.drop_first() =~= b@.skip(i + 1));
        if a[i] != b[i] {
            return a[i] < b[i];
        }
        i += 1;
    }
    assert(a@.skip(i as int).len() == a@.len() - i);
    assert(b@.skip(i as int).len() == b@.len() - i);
    i < b.len()
}

/// The solution that a route through a graph stands for.
pub fn solution_along<S: Puzzle>(g: &StateGraph<S>, route: (i32, Vec<usize>)) -> (solution: Solution<
    S,
>)
    requires
        g.wf(),
        fits(g@, route.1@),
    ensures
        solution@ == route_solution::<S>(g@, (route.0, route.1@)),
{
    let states = g.states_along(&route.1);
    let actions = g.actions_along(&route.1);
    let solution = Solution { cost: route.0, nodes: route.1, states, actions };
    assert(solution@.states =~= route_solution::<S>(g@, (route.0, route.1@)).states);
    assert(solution@.actions =~= route_solution::<S>(g@, (route.0, route.1@)).actions);
    solution
}

/// The best route to a winner of a searched graph, with the states along it.
pub fn best_solution<S: Puzzle>(g: &StateGraph<S>) -> (best: Option<Solution<S>>)
    requires
        g.wf(),
    ensures
        match best {
            None => answer::<S>(g@).is_none() && g@.winners.len() == 0,
            Some(solution) => answer::<S>(g@) == Some(solution@) && cheapest_win(
                g@,
                solution@.cost,
                solution@.nodes,
            ),
        },
{
    let mut best: Option<(i32, Vec<usize>)> = None;
    let mut k: usize = 0;
    while k < g.winners.len()
        invariant
            g.wf(),
            k <= g@.winners.len(),
            match best {
                None => best_route(g@, k as nat).is_none(),
                Some(route) => best_route(g@, k as nat) == Some((route.0, route.1@)),
            },
            best is None ==> k == 0,
            best matches Some(route) ==> {
                &&& fits(g@, route.1@)
                &&& backed(g@.edges, route.0 as int, route.1@)
                &&& exists|j: int| 0 <= j < k && #[trigger] g@.winners[j] == route.1@.last()
                &&& forall|j: int, walk: Seq<int>|
                    0 <= j < k && #[trigger] chained(
                        g@.edges,
                        walk,
                        0,
                        (#[trigger] g@.winners[j]) as int,
                    ) ==> route.0 <= walk_cost(g@.edges, walk)
            },
        decreases g@.winners.len() - k,
    {
        let route = g.shortest_path(g.winners[k]);
        assert(g@.winners[k as int] == route.1@.last());
        let better = match &best {
            None => true,
            Some(b) => route.0 < b.0 || (route.0 == b.0 && comes_before(&route.1, &b.1)),
        };
        if better {
            best = Some(route);
        }
        k += 1;
    }
    match best {
        None => None,
        Some(route) => Some(solution_along(g, route)),
    }
}

/// Searches all that the actions lead to from `board` and gives the best
/// way to win, if there is any.
pub fn solve_exhaustive<S: Puzzle>(board: S, max_depth: usize) -> (r: Result<
    Option<Solution<S>>,
    SearchError,
>)
    requires
        S::valid(board@),
    ensures
        match solve_spec::<S>(board@, max_depth as nat) {
            Err(e) => r == Err::<Option<Solution<S>>, SearchError>(e),
            Ok(None) => r matches Ok(None),
            Ok(Some(s)) => r matches Ok(Some(solution)) && solution@ == s,
        },
        match r {
            Err(_) => true,
            Ok(None) => explore_spec::<S>(board@, max_depth as nat)->Ok_0.winners.len() == 0,
            Ok(Some(solution)) => {
                &&& cheapest_win(
                    explore_spec::<S>(board@, max_depth as nat)->Ok_0,
                    solution@.cost,
                    solution@.nodes,
                )
                &&& solution@.states.len() == solution@.nodes.len()
                &&& solution@.actions.len() == solution@.nodes.len() - 1
                &&& solution@.states[0] == board@
            },
        },
{
    let ghost root = board@;
    let mut g: StateGraph<S> = StateGraph::new();
    match recurse(&mut g, board, 0, None, 1, max_depth) {
        Err(e) => Err(e),
        Ok(()) => {
            proof {
                crate::laws::lemma_explore_charted::<S>(root, max_depth as nat);
            }
            Ok(best_solution(&g))
        },
    }
}

/// The best way to win the chase on `board`, if there is any.
pub fn auto_play(board: Board) -> (r: Result<Option<Solution<Board>>, SearchError>)
    requires
        board.wf(),
    ensures
        match solve_spec::<Board>(board@, CHASE_MAX_DEPTH as nat) {
            Err(e) => r == Err::<Option<Solution<Board>>, SearchError>(e),
            Ok(None) => r matches Ok(None),
            Ok(Some(s)) => r matches Ok(Some(solution)) && solution@ == s,
        },
        match r {
            Err(_) => true,
            Ok(None) => explore_spec::<Board>(board@, CHASE_MAX_DEPTH as nat)->Ok_0.winners.len()
                == 0,
            Ok(Some(solution)) => {
                &&& cheapest_win(
                    explore_spec::<Board>(board@, CHASE_MAX_DEPTH as nat)->Ok_0,
                    solution@.cost,
                    solution@.nodes,
                )
                &&& solution@.states.len() == solution@.nodes.len()
                &&& solution@.actions.len() == solution@.nodes.len() - 1
                &&& solution@.states[0] == board@
            },
        },
{
    solve_exhaustive(board, CHASE_MAX_DEPTH)
}

} // verus!
