//! What holds of the searches, stated over the game itself.

use crate::bound::{
    bound_search_spec, ceiling_of, costs_at_most, covers, lemma_bound_visit_keeps,
    lemma_bound_visit_traced,
};
use crate::paths::{chained, lemma_walk_nodes, walk_cost, walk_nodes};
use crate::chart::{
    closed_from, closed_node, fresh, handled, holds_winner, is_winner, lemma_visit_charted,
    lemma_visit_wins, node_traced, traced, winners_differ,
};
use crate::explore::lemma_visit_keeps;
use crate::pos::Action;
use crate::puzzle::Puzzle;
use crate::reach::{
    all_move, in_play, lemma_move_in_play, lemma_root_in_play, lemma_win_from_play,
    lemma_won_solvable, play, prices_rise, reached, solvable, told_apart, total_price, wins,
    won_once,
};
use crate::solve::{
    answer, best_route, cheapest_win, explore_spec, first_leading, fits, joined_by,
    lemma_fits_leads, route_solution, solve_spec,
};
use crate::store::{explained, leads, rooted, some_action_leads, sound, GraphView};
use vstd::prelude::*;

verus! {

/// The graph of an exhaustive search that came to an end is sound, hangs on
/// its first node, which is the state the search began with, and tells of
/// the game: every node is a state that play reaches, no node that is no
/// winner repeats a fingerprint, and every such node has all its actions
/// seen to.
pub proof fn lemma_explore_charted<S: Puzzle>(root: S::V, max_depth: nat)
    requires
        S::valid(root),
    ensures
        explore_spec::<S>(root, max_depth) matches Ok(g) ==> {
            &&& sound::<S>(g)
            &&& rooted(g)
            &&& explained::<S>(g)
            &&& traced::<S>(g, root)
            &&& fresh(g)
            &&& closed_from::<S>(g, 0)
            &&& g.nodes.len() > 0
            &&& g.boards[0] == root
        },
{
    let empty = GraphView::<S::V>::empty();
    lemma_root_in_play::<S>(root);
    lemma_visit_keeps::<S>(empty, root, 0, None, 1, max_depth);
    lemma_visit_charted::<S>(empty, root, 0, None, 1, max_depth, root);
    if let Ok(g) = explore_spec::<S>(root, max_depth) {
        assert(g.table.contains_key(S::digest(root)));
        assert(g.table[S::digest(root)] < g.nodes.len());
    }
}

/// Where the game cannot be won, the exhaustive search finds no way to win.
pub proof fn lemma_unwinnable_exhaustive<S: Puzzle>(root: S::V, max_depth: nat)
    requires
        S::valid(root),
        !solvable::<S>(root),
    ensures
        !(solve_spec::<S>(root, max_depth) matches Ok(Some(_))),
{
    lemma_explore_charted::<S>(root, max_depth);
    if let Ok(g) = explore_spec::<S>(root, max_depth) {
        if g.winners.len() > 0 {
            let w = g.winners[0];
            assert(is_winner(g, w as int));
            assert(node_traced::<S>(g, root, w as int));
            lemma_won_solvable::<S>(root, g.boards[w as int]);
        }
        assert(best_route(g, 0) is None);
    }
}

/// The graph of a branch-and-bound search that came to an end is sound,
/// hangs on its first node, and tells of the game: every node is a state
/// that play reaches, and every edge stands for an action.
pub proof fn lemma_bounded_charted<S: Puzzle>(root: S::V, max_depth: nat, max_score: Option<i32>)
    requires
        S::valid(root),
    ensures
        bound_search_spec::<S>(root, max_depth, max_score) matches Ok((g, _)) ==> {
            &&& sound::<S>(g)
            &&& rooted(g)
            &&& explained::<S>(g)
            &&& traced::<S>(g, root)
        },
{
    lemma_root_in_play::<S>(root);
    lemma_bound_visit_keeps::<S>(
        GraphView::empty(),
        None,
        root,
        0,
        0,
        None,
        1,
        max_depth,
        ceiling_of(max_score),
    );
    lemma_bound_visit_traced::<S>(
        GraphView::empty(),
        None,
        root,
        0,
        0,
        None,
        1,
        max_depth,
        ceiling_of(max_score),
        root,
    );
}

/// Where the game cannot be won, the branch-and-bound search finds no way
/// to win.
pub proof fn lemma_unwinnable_bounded<S: Puzzle>(root: S::V, max_depth: nat, max_score: Option<i32>)
    requires
        S::valid(root),
        !solvable::<S>(root),
    ensures
        !(bound_search_spec::<S>(root, max_depth, max_score) matches Ok((_, Some(_)))),
{
    lemma_root_in_play::<S>(root);
    lemma_bound_visit_traced::<S>(
        GraphView::empty(),
        None,
        root,
        0,
        0,
        None,
        1,
        max_depth,
        ceiling_of(max_score),
        root,
    );
}

/// Where fingerprints tell the states of the game apart, the graph of an
/// exhaustive search that came to an end has a node that is no winner for
/// every state that actions that move lead to.
pub proof fn lemma_state_in_play_has_node<S: Puzzle>(root: S::V, max_depth: nat, acts: Seq<Action>)
    requires
        S::valid(root),
        told_apart::<S>(root),
        explore_spec::<S>(root, max_depth) is Ok,
        all_move::<S>(root, acts),
    ensures
        exists|i: int|
            0 <= i < explore_spec::<S>(root, max_depth)->Ok_0.nodes.len() && !is_winner(
                explore_spec::<S>(root, max_depth)->Ok_0,
                i,
            ) && #[trigger] explore_spec::<S>(root, max_depth)->Ok_0.boards[i] == play::<S>(
                root,
                acts,
            ),
    decreases acts.len(),
{
    let g = explore_spec::<S>(root, max_depth)->Ok_0;
    lemma_explore_charted::<S>(root, max_depth);
    lemma_root_in_play::<S>(root);
    if acts.len() == 0 {
        assert(node_traced::<S>(g, root, 0));
        assert(!is_winner(g, 0));
        assert(g.boards[0] == play::<S>(root, acts));
    } else {
        let front = acts.drop_last();
        let a = acts.last();
        lemma_state_in_play_has_node::<S>(root, max_depth, front);
        let i = choose|i: int|
            0 <= i < g.nodes.len() && !is_winner(g, i) && #[trigger] g.boards[i] == play::<S>(
                root,
                front,
            );
        let s = g.boards[i];
        let t = S::step(s, a).1;
        assert(in_play::<S>(root, s)) by {
            assert(all_move::<S>(root, front));
        }
        lemma_move_in_play::<S>(root, s, a);
        assert(closed_node::<S>(g, i));
        assert(handled::<S>(g, s, a));
        let j = g.table[S::digest(t)] as int;
        assert(g.nodes[j] == S::digest(g.boards[j]));
        assert(node_traced::<S>(g, root, j));
        assert(reached::<S>(root, g.boards[j]));
        assert(reached::<S>(root, t));
        assert(g.boards[j] == t);
    }
}

/// Where fingerprints tell the states of the game apart, the graph of an
/// exhaustive search that came to an end has a winner for every state in
/// which the game is won.
pub proof fn lemma_won_state_has_node<S: Puzzle>(root: S::V, max_depth: nat, acts: Seq<Action>)
    requires
        S::valid(root),
        told_apart::<S>(root),
        explore_spec::<S>(root, max_depth) is Ok,
        wins::<S>(root, acts),
    ensures
        holds_winner(explore_spec::<S>(root, max_depth)->Ok_0, play::<S>(root, acts)),
{
    let g = explore_spec::<S>(root, max_depth)->Ok_0;
    lemma_explore_charted::<S>(root, max_depth);
    let front = acts.drop_last();
    lemma_state_in_play_has_node::<S>(root, max_depth, front);
    let i = choose|i: int|
        0 <= i < g.nodes.len() && !is_winner(g, i) && #[trigger] g.boards[i] == play::<S>(
            root,
            front,
        );
    assert(closed_node::<S>(g, i));
    assert(handled::<S>(g, g.boards[i], acts.last()));
}

/// The nodes of the graph of an exhaustive search that came to an end are
/// the states that play reaches: each node is such a state and, where
/// fingerprints tell the states of the game apart, each such state is a
/// node; and no node that is no winner has the fingerprint of an earlier
/// node.
pub proof fn lemma_nodes_are_reached_states<S: Puzzle>(root: S::V, max_depth: nat)
    requires
        S::valid(root),
        explore_spec::<S>(root, max_depth) is Ok,
    ensures
        forall|i: int|
            0 <= i < explore_spec::<S>(root, max_depth)->Ok_0.nodes.len() ==> reached::<S>(
                root,
                #[trigger] explore_spec::<S>(root, max_depth)->Ok_0.boards[i],
            ),
        fresh(explore_spec::<S>(root, max_depth)->Ok_0),
        told_apart::<S>(root) ==> forall|s: S::V| #[trigger]
            reached::<S>(root, s) ==> exists|i: int|
                0 <= i < explore_spec::<S>(root, max_depth)->Ok_0.nodes.len()
                    && #[trigger] explore_spec::<S>(root, max_depth)->Ok_0.boards[i] == s,
{
    let g = explore_spec::<S>(root, max_depth)->Ok_0;
    lemma_explore_charted::<S>(root, max_depth);
    assert forall|i: int| 0 <= i < g.nodes.len() implies reached::<S>(
        root,
        #[trigger] g.boards[i],
    ) by {
        assert(node_traced::<S>(g, root, i));
    }
    if told_apart::<S>(root) {
        assert forall|s: S::V| #[trigger] reached::<S>(root, s) implies exists|i: int|
            0 <= i < g.nodes.len() && #[trigger] g.boards[i] == s by {
            if in_play::<S>(root, s) {
                let acts = choose|acts: Seq<Action>| #[trigger]
                    all_move::<S>(root, acts) && play::<S>(root, acts) == s;
                lemma_state_in_play_has_node::<S>(root, max_depth, acts);
            } else {
                let acts = choose|acts: Seq<Action>| #[trigger]
                    wins::<S>(root, acts) && play::<S>(root, acts) == s;
                lemma_won_state_has_node::<S>(root, max_depth, acts);
                let k = choose|k: int|
                    0 <= k < g.winners.len() && g.boards[(#[trigger] g.winners[k]) as int] == s;
                assert(g.winners[k] < g.nodes.len());
            }
        }
    }
}

/// The fingerprints of the states that play reaches from `root`.
pub open spec fn reached_digests<S: Puzzle>(root: S::V) -> Set<u64> {
    Set::new(|h: u64| exists|s: S::V| #[trigger] reached::<S>(root, s) && S::digest(s) == h)
}

/// Where fingerprints tell the states of the game apart and every won
/// state is won once only, no two winners of the graph of an exhaustive
/// search that came to an end share a fingerprint.
pub proof fn lemma_explore_wins<S: Puzzle>(root: S::V, max_depth: nat)
    requires
        S::valid(root),
        told_apart::<S>(root),
        won_once::<S>(root),
    ensures
        explore_spec::<S>(root, max_depth) matches Ok(g) ==> winners_differ(g),
{
    lemma_root_in_play::<S>(root);
    lemma_visit_wins::<S>(GraphView::empty(), root, 0, None, 1, max_depth, root);
}

/// Where fingerprints tell the states of the game apart and every won
/// state is won once only, the graph of an exhaustive search that came to an
/// end has as many nodes as the states that play reaches have fingerprints:
/// no fingerprint twice, and none left out.
pub proof fn lemma_node_count<S: Puzzle>(root: S::V, max_depth: nat)
    requires
        S::valid(root),
        told_apart::<S>(root),
        won_once::<S>(root),
        explore_spec::<S>(root, max_depth) is Ok,
    ensures
        explore_spec::<S>(root, max_depth)->Ok_0.nodes.no_duplicates(),
        explore_spec::<S>(root, max_depth)->Ok_0.nodes.to_set() == reached_digests::<S>(root),
        explore_spec::<S>(root, max_depth)->Ok_0.nodes.len() == reached_digests::<S>(root).len(),
{
    let g = explore_spec::<S>(root, max_depth)->Ok_0;
    lemma_explore_charted::<S>(root, max_depth);
    lemma_explore_wins::<S>(root, max_depth);
    lemma_nodes_are_reached_states::<S>(root, max_depth);
    assert forall|i: int, j: int| 0 <= i < g.nodes.len() && 0 <= j < g.nodes.len() && i != j
        implies g.nodes[i] != g.nodes[j] by {
        let (lo, hi) = if i < j {
            (i, j)
        } else {
            (j, i)
        };
        assert(node_traced::<S>(g, root, lo));
        assert(node_traced::<S>(g, root, hi));
        assert(g.nodes[lo] == S::digest(g.boards[lo]));
        assert(g.nodes[hi] == S::digest(g.boards[hi]));
        assert(reached::<S>(root, g.boards[lo]));
        assert(reached::<S>(root, g.boards[hi]));
        if !is_winner(g, hi) {
            assert(g.nodes[lo] != g.nodes[hi]);
        } else if is_winner(g, lo) {
            assert(g.nodes[lo] != g.nodes[hi]);
        } else if g.nodes[lo] == g.nodes[hi] {
            assert(g.boards[lo] == g.boards[hi]);
        }
    }
    assert forall|h: u64| g.nodes.to_set().contains(h) == reached_digests::<S>(root).contains(
        h,
    ) by {
        if g.nodes.to_set().contains(h) {
            let i = choose|i: int| 0 <= i < g.nodes.len() && g.nodes[i] == h;
            assert(g.nodes[i] == S::digest(g.boards[i]));
            assert(reached::<S>(root, g.boards[i]));
        }
        if reached_digests::<S>(root).contains(h) {
            let s = choose|s: S::V| #[trigger] reached::<S>(root, s) && S::digest(s) == h;
            let i = choose|i: int| 0 <= i < g.nodes.len() && #[trigger] g.boards[i] == s;
            assert(g.nodes[i] == S::digest(g.boards[i]));
            assert(g.nodes.contains(g.nodes[i]));
        }
    }
    assert(g.nodes.to_set() =~= reached_digests::<S>(root));
    g.nodes.unique_seq_to_set();
}

/// Where one action leads from a state to a fingerprint, the first such
/// action does.
pub proof fn lemma_first_leading<S: Puzzle>(from: S::V, to: u64, k: nat)
    requires
        exists|a: Action| a.rank() >= k && #[trigger] leads::<S>(from, a, to),
    ensures
        leads::<S>(from, first_leading::<S>(from, to, k), to),
    decreases 4 - k,
{
    let a = choose|a: Action| a.rank() >= k && #[trigger] leads::<S>(from, a, to);
    assert(Action::nth(a.rank()) == a);
    if k + 1 < 4 && !leads::<S>(from, Action::nth(k), to) {
        lemma_first_leading::<S>(from, to, k + 1);
    }
}

/// The first action that leads from a state to a fingerprint comes no later
/// in the order of the actions than any action that leads there.
pub proof fn lemma_first_leading_first<S: Puzzle>(from: S::V, to: u64, k: nat, a: Action)
    requires
        leads::<S>(from, a, to),
        k <= a.rank(),
    ensures
        k <= first_leading::<S>(from, to, k).rank() <= a.rank(),
    decreases 4 - k,
{
    assert(Action::nth(a.rank()) == a);
    assert(Action::nth(k).rank() == k || k > 3);
    if k + 1 < 4 && !leads::<S>(from, Action::nth(k), to) {
        lemma_first_leading_first::<S>(from, to, k + 1, a);
    }
}

/// One step of a solution: its state is in play, and its action leads to
/// a state with the fingerprint of the next state of the solution. Where
/// fingerprints tell the states of the game apart, the action leads to the
/// next state itself, by a win if that state is a winner of the graph and
/// by a move if it is not.
pub proof fn lemma_solution_step<S: Puzzle>(
    g: GraphView<S::V>,
    root: S::V,
    route: (i32, Seq<usize>),
    i: int,
)
    requires
        sound::<S>(g),
        explained::<S>(g),
        traced::<S>(g, root),
        fits(g, route.1),
        0 <= i < route.1.len() - 1,
    ensures
        in_play::<S>(root, route_solution::<S>(g, route).states[i]),
        leads::<S>(
            route_solution::<S>(g, route).states[i],
            route_solution::<S>(g, route).actions[i],
            S::digest(route_solution::<S>(g, route).states[i + 1]),
        ),
        told_apart::<S>(root) ==> {
            &&& S::step(
                route_solution::<S>(g, route).states[i],
                route_solution::<S>(g, route).actions[i],
            ).1 == route_solution::<S>(g, route).states[i + 1]
            &&& is_winner(g, route.1[i + 1] as int) == (S::step(
                route_solution::<S>(g, route).states[i],
                route_solution::<S>(g, route).actions[i],
            ).0 is Victory)
        },
{
    let solution = route_solution::<S>(g, route);
    let nodes = route.1;
    let from = nodes[i];
    let to = nodes[i + 1];
    let s = g.boards[from as int];
    let a = solution.actions[i];
    lemma_fits_leads::<S>(g, nodes, i);
    let witness = choose|b: Action| #[trigger] leads::<S>(s, b, g.nodes[to as int]);
    lemma_first_leading::<S>(s, g.nodes[to as int], 0);
    assert(joined_by(g.edges, from, to));
    let e = choose|e: int|
        0 <= e < g.edges.len() && (#[trigger] g.edges[e]).0 == from && g.edges[e].1 == to;
    assert(!is_winner(g, g.edges[e].0 as int));
    assert(node_traced::<S>(g, root, from as int));
    assert(node_traced::<S>(g, root, to as int));
    assert(g.nodes[to as int] == S::digest(g.boards[to as int]));
    let t = S::step(s, a).1;
    if S::step(s, a).0 is Moved {
        lemma_move_in_play::<S>(root, s, a);
    } else {
        lemma_win_from_play::<S>(root, s, a);
    }
    assert(reached::<S>(root, t));
    assert(reached::<S>(root, g.boards[to as int]));
}

/// Playing the actions of a solution from the state the search began with
/// passes the states of the solution, one after the other, where
/// fingerprints tell the states of the game apart; all its actions but the
/// last move, as long as they lead to nodes that are no winners.
pub proof fn lemma_replay_reproduces<S: Puzzle>(
    g: GraphView<S::V>,
    root: S::V,
    route: (i32, Seq<usize>),
    upto: int,
)
    requires
        sound::<S>(g),
        explained::<S>(g),
        traced::<S>(g, root),
        told_apart::<S>(root),
        fits(g, route.1),
        0 <= upto <= route.1.len() - 1,
    ensures
        play::<S>(root, route_solution::<S>(g, route).actions.take(upto)) == route_solution::<S>(
            g,
            route,
        ).states[upto],
        (forall|i: int| 0 < i <= upto ==> !is_winner(g, #[trigger] route.1[i] as int))
            ==> all_move::<S>(root, route_solution::<S>(g, route).actions.take(upto)),
    decreases upto,
{
    let solution = route_solution::<S>(g, route);
    if upto == 0 {
        assert(solution.actions.take(0) =~= Seq::<Action>::empty());
    } else {
        lemma_replay_reproduces::<S>(g, root, route, upto - 1);
        lemma_solution_step::<S>(g, root, route, upto - 1);
        let acts = solution.actions.take(upto);
        assert(acts.drop_last() =~= solution.actions.take(upto - 1));
        assert(acts.last() == solution.actions[upto - 1]);
        if forall|i: int| 0 < i <= upto ==> !is_winner(g, #[trigger] route.1[i] as int) {
            assert(!is_winner(g, route.1[upto] as int));
        }
    }
}

/// Where fingerprints tell the states of the game apart, the actions of a
/// solution that ends at a winner win the game.
pub proof fn lemma_solution_wins<S: Puzzle>(g: GraphView<S::V>, root: S::V, route: (i32, Seq<usize>))
    requires
        sound::<S>(g),
        explained::<S>(g),
        traced::<S>(g, root),
        told_apart::<S>(root),
        fits(g, route.1),
        is_winner(g, route.1.last() as int),
    ensures
        wins::<S>(root, route_solution::<S>(g, route).actions),
        play::<S>(root, route_solution::<S>(g, route).actions) == route_solution::<S>(
            g,
            route,
        ).states.last(),
{
    let solution = route_solution::<S>(g, route);
    let nodes = route.1;
    let n = nodes.len() as int;
    lemma_root_in_play::<S>(root);
    if n == 1 {
        assert(node_traced::<S>(g, root, 0));
    }
    let acts = solution.actions;
    assert forall|i: int| 0 < i <= n - 2 implies !is_winner(g, #[trigger] nodes[i] as int) by {
        assert(joined_by(g.edges, nodes[i], nodes[i + 1]));
        let e = choose|e: int|
            0 <= e < g.edges.len() && (#[trigger] g.edges[e]).0 == nodes[i] && g.edges[e].1
                == nodes[i + 1];
        assert(!is_winner(g, g.edges[e].0 as int));
    }
    lemma_replay_reproduces::<S>(g, root, route, n - 2);
    lemma_replay_reproduces::<S>(g, root, route, n - 1);
    lemma_solution_step::<S>(g, root, route, n - 2);
    assert(acts.take(n - 1) =~= acts);
    assert(acts.drop_last() =~= acts.take(n - 2));
}

/// A solution costs no less than its actions, where no action costs less
/// than one before it: each action costs at most what the edge of the walk
/// behind the solution weighs.
pub proof fn lemma_solution_price<S: Puzzle>(
    g: GraphView<S::V>,
    route: (i32, Seq<usize>),
    walk: Seq<int>,
    upto: int,
)
    requires
        sound::<S>(g),
        explained::<S>(g),
        prices_rise::<S>(),
        fits(g, route.1),
        chained(g.edges, walk, 0, route.1.last() as int),
        walk_nodes(g.edges, walk, 0) == route.1,
        0 <= upto <= walk.len(),
    ensures
        walk.len() == route.1.len() - 1,
        total_price::<S>(route_solution::<S>(g, route).actions.take(upto)) <= walk_cost(
            g.edges,
            walk.take(upto),
        ),
    decreases upto,
{
    let solution = route_solution::<S>(g, route);
    let nodes = route.1;
    lemma_walk_nodes(g.edges, walk, 0, nodes.last() as int);
    if upto == 0 {
        assert(solution.actions.take(0) =~= Seq::<Action>::empty());
        assert(walk.take(0) =~= Seq::<int>::empty());
    } else {
        lemma_solution_price::<S>(g, route, walk, upto - 1);
        let i = upto - 1;
        let acts = solution.actions.take(upto);
        assert(acts.drop_last() =~= solution.actions.take(i));
        assert(acts.last() == solution.actions[i]);
        assert(walk.take(upto).drop_last() =~= walk.take(i));
        assert(walk.take(upto).last() == walk[i]);
        let e = walk[i];
        assert(0 <= e < g.edges.len());
        assert(g.edges[e].0 == nodes[i] && g.edges[e].1 == nodes[i + 1]);
        let s = g.boards[nodes[i] as int];
        let to = g.nodes[nodes[i + 1] as int];
        assert(some_action_leads::<S>(
            g.boards[g.edges[e].0 as int],
            g.nodes[g.edges[e].1 as int],
            g.edges[e].2,
        ));
        let a = choose|a: Action| #[trigger] leads::<S>(s, a, to) && S::price(a) == g.edges[e].2;
        lemma_first_leading_first::<S>(s, to, 0, a);
        let first = first_leading::<S>(s, to, 0);
        assert(Action::nth(first.rank()) == first);
        assert(Action::nth(a.rank()) == a);
        assert(S::price(first) <= S::price(a));
    }
}

/// Where fingerprints tell the states of the game apart and no action
/// costs less than one before it, a branch-and-bound search that came to an
/// end found a way to win that costs no more than the answer of the
/// exhaustive search, if that answer lies within its bounds.
pub proof fn lemma_bounded_no_worse<S: Puzzle>(
    root: S::V,
    full_depth: nat,
    cost: i32,
    nodes: Seq<usize>,
    max_depth: nat,
    max_score: int,
    best: Option<(i32, Seq<usize>)>,
)
    requires
        S::valid(root),
        told_apart::<S>(root),
        prices_rise::<S>(),
        explore_spec::<S>(root, full_depth) is Ok,
        cheapest_win(explore_spec::<S>(root, full_depth)->Ok_0, cost as int, nodes),
        covers::<S>(root, 0, 0, max_depth, max_score, best),
        nodes.len() - 1 <= max_depth,
        cost <= max_score,
    ensures
        costs_at_most(best, cost as int),
{
    let g = explore_spec::<S>(root, full_depth)->Ok_0;
    let route = (cost, nodes);
    lemma_explore_charted::<S>(root, full_depth);
    lemma_solution_wins::<S>(g, root, route);
    let walk = choose|walk: Seq<int>|
        {
            &&& #[trigger] chained(g.edges, walk, 0, nodes.last() as int)
            &&& walk_cost(g.edges, walk) == cost
            &&& walk_nodes(g.edges, walk, 0) == nodes
        };
    lemma_solution_price::<S>(g, route, walk, walk.len() as int);
    let acts = route_solution::<S>(g, route).actions;
    assert(acts.take(walk.len() as int) =~= acts);
    assert(walk.take(walk.len() as int) =~= walk);
    assert(wins::<S>(root, acts));
    assert(Action::nth(acts[0].rank()) == acts[0]);
    assert(acts[0].rank() < 4);
}

} // verus!
