//! The branch-and-bound search: follows the actions depth first, keeps the
//! cheapest way to win found so far, and leaves every branch that cannot
//! beat it.

use crate::chart::{
    grown, is_winner, lemma_attached_charted, lemma_grown_trans, lemma_grown_winner,
    lemma_record_win_charted, traced,
};
use crate::explore::{lemma_record_win, record_win};
use crate::paths::{chained, lemma_walk_extend, lemma_walk_survives, walk_cost};
use crate::reach::{
    in_play, lemma_move_in_play, lemma_play_front, lemma_total_price_least, lemma_win_from_play,
    lemma_wins_front, prices_rise, solvable, total_price, wins,
};
use crate::graph::{astar_route, route_view};
use crate::pos::{Action, ACTION_COUNT};
use crate::puzzle::{Outcome, Puzzle, MAX_STEP_COST};
use crate::solve::{backed, fits, joined_by, route_solution, solution_along, Solution};
use crate::store::{
    attach, explained, leads, lemma_attached, lemma_within_trans, rooted, some_action_leads, sound,
    GraphView, SearchError, StateGraph,
};
use vstd::prelude::*;

verus! {

/// No branch is followed once its cost has reached this.
pub const SCORE_LIMIT: i32 = 0x7fff_ffff - MAX_STEP_COST;

/// The depth beyond which the search of a gravity puzzle does not look.
pub const TENSOR_MAX_DEPTH: usize = 50;

/// The cost at which the search of a gravity puzzle leaves a branch.
pub const TENSOR_MAX_SCORE: i32 = 100;

/// Where a branch of the search ends whatever it has found.
#[derive(Clone, Copy, Debug)]
pub struct Bounds {
    /// No state at this depth or deeper is looked at.
    pub max_depth: usize,
    /// No state is looked at once the cost of the way to it has reached this.
    pub max_score: i32,
}

/// The better of the best route so far and a new one: the new one only if
/// it costs less.
pub open spec fn improved(best: Option<(i32, Seq<usize>)>, route: Option<(i32, Seq<usize>)>) -> Option<
    (i32, Seq<usize>),
> {
    match (best, route) {
        (_, None) => best,
        (None, Some(r)) => Some(r),
        (Some(b), Some(r)) => if r.0 < b.0 {
            Some(r)
        } else {
            Some(b)
        },
    }
}

/// Whether a branch that has cost `score` so far is left at `depth`.
pub open spec fn pruned(
    best: Option<(i32, Seq<usize>)>,
    depth: nat,
    score: int,
    max_depth: nat,
    max_score: int,
) -> bool {
    ||| depth >= max_depth
    ||| (best matches Some(b) && score >= b.0)
    ||| score >= max_score
}

/// The graph and the best route after the state `m`, found at `depth` from
/// `source` at a cost of `score`, was looked at. A pruned branch changes
/// nothing; any other state becomes a node, linked from `source`, and is
/// expanded.
pub open spec fn bound_visit_spec<S: Puzzle>(
    g: GraphView<S::V>,
    best: Option<(i32, Seq<usize>)>,
    m: S::V,
    depth: nat,
    score: int,
    source: Option<usize>,
    weight: i32,
    max_depth: nat,
    max_score: int,
) -> Result<(GraphView<S::V>, Option<(i32, Seq<usize>)>), SearchError>
    decreases max_depth - depth, ACTION_COUNT + 1,
{
    if pruned(best, depth, score, max_depth, max_score) {
        Ok((g, best))
    } else {
        match g.attached(m, S::digest(m), source, weight) {
            Err(e) => Err(e),
            Ok(g1) => bound_expand_spec::<S>(
                g1,
                best,
                m,
                g.nodes.len() as usize,
                depth,
                score,
                0,
                max_depth,
                max_score,
            ),
        }
    }
}

/// The graph and the best route after the actions from number `k` on were
/// tried, in their order, in the state `m` of the node `node`. An action
/// that moves has its state looked at one level deeper, at the cost so far
/// and its own. The first action that wins ends the expansion: its state
/// becomes a node and a winner, and the cheapest route to that node replaces
/// the best route if it costs less.
pub open spec fn bound_expand_spec<S: Puzzle>(
    g: GraphView<S::V>,
    best: Option<(i32, Seq<usize>)>,
    m: S::V,
    node: usize,
    depth: nat,
    score: int,
    k: nat,
    max_depth: nat,
    max_score: int,
) -> Result<(GraphView<S::V>, Option<(i32, Seq<usize>)>), SearchError>
    decreases max_depth - depth, ACTION_COUNT - k,
{
    let a = Action::nth(k);
    let (outcome, next) = S::step(m, a);
    if k >= ACTION_COUNT || depth >= max_depth {
        Ok((g, best))
    } else {
        match outcome {
            Outcome::Blocked => bound_expand_spec::<S>(
                g,
                best,
                m,
                node,
                depth,
                score,
                k + 1,
                max_depth,
                max_score,
            ),
            Outcome::Dead => bound_expand_spec::<S>(
                g,
                best,
                m,
                node,
                depth,
                score,
                k + 1,
                max_depth,
                max_score,
            ),
            Outcome::Moved => match bound_visit_spec::<S>(
                g,
                best,
                next,
                depth + 1,
                score + S::price(a),
                Some(node),
                S::price(a) as i32,
                max_depth,
                max_score,
            ) {
                Err(e) => Err(e),
                Ok((g1, best1)) => bound_expand_spec::<S>(
                    g1,
                    best1,
                    m,
                    node,
                    depth,
                    score,
                    k + 1,
                    max_depth,
                    max_score,
                ),
            },
            Outcome::Victory => match record_win::<S>(g, next, node, S::price(a) as i32) {
                Err(e) => Err(e),
                Ok(g1) => Ok(
                    (
                        g1,
                        improved(
                            best,
                            astar_route(g1.nodes.len(), g1.edges, 0, g.nodes.len() as usize),
                        ),
                    ),
                ),
            },
        }
    }
}

/// A route that lies in a graph lies in every graph that holds what that
/// one holds.
pub proof fn lemma_fits_within<M>(g: GraphView<M>, more: GraphView<M>, nodes: Seq<usize>)
    requires
        g.within(more),
        fits(g, nodes),
    ensures
        fits(more, nodes),
{
    assert forall|i: int| 0 <= i < nodes.len() - 1 implies joined_by(
        more.edges,
        #[trigger] nodes[i],
        nodes[i + 1],
    ) by {
        assert(joined_by(g.edges, nodes[i], nodes[i + 1]));
        let e = choose|e: int|
            0 <= e < g.edges.len() && (#[trigger] g.edges[e]).0 == nodes[i] && g.edges[e].1
                == nodes[i + 1];
        assert(more.edges[e] == g.edges[e]);
    }
}

/// Whether the best route so far, if there is one, stands in the graph: it
/// lies in it, a walk stands behind it, and it ends at a winner.
pub open spec fn best_stands<M>(g: GraphView<M>, best: Option<(i32, Seq<usize>)>) -> bool {
    best matches Some(b) ==> fits(g, b.1) && backed(g.edges, b.0 as int, b.1) && is_winner(
        g,
        b.1.last() as int,
    )
}

/// A best route that stands in a graph stands in every graph that holds
/// what that one holds.
pub proof fn lemma_best_stands_within<M>(
    g: GraphView<M>,
    more: GraphView<M>,
    best: Option<(i32, Seq<usize>)>,
)
    requires
        g.within(more),
        best_stands(g, best),
    ensures
        best_stands(more, best),
{
    if let Some(b) = best {
        lemma_fits_within(g, more, b.1);
        let walk = choose|walk: Seq<int>|
            {
                &&& #[trigger] chained(g.edges, walk, 0, b.1.last() as int)
                &&& walk_cost(g.edges, walk) == b.0
                &&& crate::paths::walk_nodes(g.edges, walk, 0) == b.1
            };
        lemma_walk_survives(g.edges, more.edges, walk, 0, b.1.last() as int);
        let k = choose|k: int| 0 <= k < g.winners.len() && #[trigger] g.winners[k] == b.1.last();
        assert(more.winners[k] == b.1.last());
    }
}

/// Whether a walk that costs `cost` leads from the first node to the node
/// `to`.
pub open spec fn way_costs(edges: Seq<(usize, usize, i32)>, to: usize, cost: int) -> bool {
    exists|walk: Seq<int>| #[trigger]
        chained(edges, walk, 0, to as int) && walk_cost(edges, walk) == cost
}

/// A way through a list of edges is a way through a longer list that starts
/// with it.
pub proof fn lemma_way_grows(
    edges: Seq<(usize, usize, i32)>,
    more: Seq<(usize, usize, i32)>,
    to: usize,
    cost: int,
)
    requires
        edges.len() <= more.len(),
        forall|i: int| 0 <= i < edges.len() ==> edges[i] == more[i],
        way_costs(edges, to, cost),
    ensures
        way_costs(more, to, cost),
{
    let walk = choose|walk: Seq<int>| #[trigger]
        chained(edges, walk, 0, to as int) && walk_cost(edges, walk) == cost;
    lemma_walk_survives(edges, more, walk, 0, to as int);
}

/// A way to the source of an edge goes on along the edge.
pub proof fn lemma_way_extends(edges: Seq<(usize, usize, i32)>, e: int, cost: int)
    requires
        0 <= e < edges.len(),
        way_costs(edges, edges[e].0, cost),
    ensures
        way_costs(edges, edges[e].1, cost + edges[e].2),
{
    let walk = choose|walk: Seq<int>| #[trigger]
        chained(edges, walk, 0, edges[e].0 as int) && walk_cost(edges, walk) == cost;
    lemma_walk_extend(edges, walk, 0, e);
}

/// Whether there is a best route and it costs no more than `limit`.
pub open spec fn costs_at_most(best: Option<(i32, Seq<usize>)>, limit: int) -> bool {
    match best {
        Some(b) => b.0 <= limit,
        None => false,
    }
}

/// Whether the best route costs no more than any way to win from the state
/// `s` that stays within the bounds and begins with one of the first `k`
/// actions, where `s` lies at `depth` and the way to it has cost `score`.
pub open spec fn covers_upto<S: Puzzle>(
    s: S::V,
    depth: nat,
    score: int,
    max_depth: nat,
    max_score: int,
    best: Option<(i32, Seq<usize>)>,
    k: nat,
) -> bool {
    forall|acts: Seq<Action>|
        #[trigger] wins::<S>(s, acts) && depth + acts.len() <= max_depth && score + total_price::<
            S,
        >(acts) <= max_score && acts[0].rank() < k ==> costs_at_most(
            best,
            score + total_price::<S>(acts),
        )
}

/// Whether the best route costs no more than any way to win from the state
/// `s` that stays within the bounds.
pub open spec fn covers<S: Puzzle>(
    s: S::V,
    depth: nat,
    score: int,
    max_depth: nat,
    max_score: int,
    best: Option<(i32, Seq<usize>)>,
) -> bool {
    covers_upto::<S>(s, depth, score, max_depth, max_score, best, ACTION_COUNT as nat)
}

/// Where a branch is pruned, no way to win within the bounds is lost.
pub proof fn lemma_covers_pruned<S: Puzzle>(
    s: S::V,
    depth: nat,
    score: int,
    max_depth: nat,
    max_score: int,
    best: Option<(i32, Seq<usize>)>,
)
    requires
        pruned(best, depth, score, max_depth, max_score),
    ensures
        covers::<S>(s, depth, score, max_depth, max_score, best),
{
    assert forall|acts: Seq<Action>|
        #[trigger] wins::<S>(s, acts) && depth + acts.len() <= max_depth && score + total_price::<
            S,
        >(acts) <= max_score implies costs_at_most(best, score + total_price::<S>(acts)) by {
        lemma_total_price_least::<S>(acts);
    }
}

/// An action that is blocked or deadly begins no way to win.
pub proof fn lemma_covers_skip<S: Puzzle>(
    s: S::V,
    depth: nat,
    score: int,
    max_depth: nat,
    max_score: int,
    best: Option<(i32, Seq<usize>)>,
    k: nat,
)
    requires
        covers_upto::<S>(s, depth, score, max_depth, max_score, best, k),
        S::step(s, Action::nth(k)).0 is Blocked || S::step(s, Action::nth(k)).0 is Dead,
    ensures
        covers_upto::<S>(s, depth, score, max_depth, max_score, best, k + 1),
{
    assert forall|acts: Seq<Action>|
        #[trigger] wins::<S>(s, acts) && depth + acts.len() <= max_depth && score + total_price::<
            S,
        >(acts) <= max_score && acts[0].rank() < k + 1 implies costs_at_most(
        best,
        score + total_price::<S>(acts),
    ) by {
        if acts[0].rank() == k {
            assert(Action::nth(acts[0].rank()) == acts[0]);
            lemma_wins_front::<S>(s, acts);
        }
    }
}

/// After an action that moves was followed as deep as the bounds allow, the
/// ways to win that begin with it are seen to.
pub proof fn lemma_covers_moved<S: Puzzle>(
    s: S::V,
    depth: nat,
    score: int,
    max_depth: nat,
    max_score: int,
    before: Option<(i32, Seq<usize>)>,
    best: Option<(i32, Seq<usize>)>,
    k: nat,
)
    requires
        covers_upto::<S>(s, depth, score, max_depth, max_score, before, k),
        S::step(s, Action::nth(k)).0 is Moved,
        covers::<S>(
            S::step(s, Action::nth(k)).1,
            depth + 1,
            score + S::price(Action::nth(k)),
            max_depth,
            max_score,
            best,
        ),
        before matches Some(b) ==> costs_at_most(best, b.0 as int),
    ensures
        covers_upto::<S>(s, depth, score, max_depth, max_score, best, k + 1),
{
    let a = Action::nth(k);
    assert forall|acts: Seq<Action>|
        #[trigger] wins::<S>(s, acts) && depth + acts.len() <= max_depth && score + total_price::<
            S,
        >(acts) <= max_score && acts[0].rank() < k + 1 implies costs_at_most(
        best,
        score + total_price::<S>(acts),
    ) by {
        if acts[0].rank() == k {
            assert(Action::nth(acts[0].rank()) == acts[0]);
            lemma_wins_front::<S>(s, acts);
            lemma_play_front::<S>(s, acts);
            let rest = acts.drop_first();
            assert(wins::<S>(S::step(s, a).1, rest));
            assert(rest[0].rank() < ACTION_COUNT);
        }
    }
}

/// After an action that wins, at a cost that the best route does not
/// exceed, no way to win is cheaper than the best route, where no action
/// costs less than one before it.
pub proof fn lemma_covers_won<S: Puzzle>(
    s: S::V,
    depth: nat,
    score: int,
    max_depth: nat,
    max_score: int,
    before: Option<(i32, Seq<usize>)>,
    best: Option<(i32, Seq<usize>)>,
    k: nat,
)
    requires
        prices_rise::<S>(),
        k < ACTION_COUNT,
        covers_upto::<S>(s, depth, score, max_depth, max_score, before, k),
        costs_at_most(best, score + S::price(Action::nth(k))),
        before matches Some(b) ==> costs_at_most(best, b.0 as int),
    ensures
        covers::<S>(s, depth, score, max_depth, max_score, best),
{
    assert forall|acts: Seq<Action>|
        #[trigger] wins::<S>(s, acts) && depth + acts.len() <= max_depth && score + total_price::<
            S,
        >(acts) <= max_score implies costs_at_most(best, score + total_price::<S>(acts)) by {
        if acts[0].rank() >= k {
            assert(Action::nth(acts[0].rank()) == acts[0]);
            lemma_play_front::<S>(s, acts);
            lemma_total_price_least::<S>(acts.drop_first());
            assert(S::price(Action::nth(k)) <= S::price(Action::nth(acts[0].rank())));
        }
    }
}

/// A look at a state leaves a sound, rooted and explained graph so, keeps
/// what it held, and never makes the best route dearer.
pub proof fn lemma_bound_visit_keeps<S: Puzzle>(
    g: GraphView<S::V>,
    best: Option<(i32, Seq<usize>)>,
    m: S::V,
    depth: nat,
    score: int,
    source: Option<usize>,
    weight: i32,
    max_depth: nat,
    max_score: int,
)
    requires
        sound::<S>(g),
        rooted(g),
        explained::<S>(g),
        S::valid(m),
        source matches Some(from) ==> from < g.nodes.len() && some_action_leads::<S>(
            g.boards[from as int],
            S::digest(m),
            weight,
        ),
        source is None ==> g.nodes.len() == 0,
        1 <= weight <= MAX_STEP_COST,
    ensures
        bound_visit_spec::<S>(g, best, m, depth, score, source, weight, max_depth, max_score)
            matches Ok((gv, found)) ==> {
            &&& sound::<S>(gv)
            &&& rooted(gv)
            &&& explained::<S>(gv)
            &&& g.within(gv)
            &&& best matches Some(b) ==> found matches Some(f) && f.0 <= b.0
        },
    decreases max_depth - depth, ACTION_COUNT + 1,
{
    if !pruned(best, depth, score, max_depth, max_score) {
        lemma_attached::<S>(g, m, source, weight);
        if let Ok(g1) = g.attached(m, S::digest(m), source, weight) {
            let node = g.nodes.len() as usize;
            lemma_bound_expand_keeps::<S>(g1, best, m, node, depth, score, 0, max_depth, max_score);
            if let Ok((gv, _)) = bound_expand_spec::<S>(
                g1,
                best,
                m,
                node,
                depth,
                score,
                0,
                max_depth,
                max_score,
            ) {
                lemma_within_trans(g, g1, gv);
            }
        }
    }
}

/// Expanding a node leaves a sound, rooted and explained graph so, keeps
/// what it held, and never makes the best route dearer.
pub proof fn lemma_bound_expand_keeps<S: Puzzle>(
    g: GraphView<S::V>,
    best: Option<(i32, Seq<usize>)>,
    m: S::V,
    node: usize,
    depth: nat,
    score: int,
    k: nat,
    max_depth: nat,
    max_score: int,
)
    requires
        sound::<S>(g),
        rooted(g),
        explained::<S>(g),
        S::valid(m),
        node < g.nodes.len(),
        g.boards[node as int] == m,
    ensures
        bound_expand_spec::<S>(g, best, m, node, depth, score, k, max_depth, max_score) matches Ok(
            (gv, found),
        ) ==> {
            &&& sound::<S>(gv)
            &&& rooted(gv)
            &&& explained::<S>(gv)
            &&& g.within(gv)
            &&& best matches Some(b) ==> found matches Some(f) && f.0 <= b.0
        },
    decreases max_depth - depth, ACTION_COUNT - k,
{
    let a = Action::nth(k);
    let (outcome, next) = S::step(m, a);
    if k < ACTION_COUNT && depth < max_depth {
        S::lemma_step_valid(m, a);
        S::lemma_price_bounds(a);
        if outcome is Moved || outcome is Victory {
            assert(leads::<S>(m, a, S::digest(next)));
        }
        match outcome {
            Outcome::Blocked => {
                lemma_bound_expand_keeps::<S>(
                    g,
                    best,
                    m,
                    node,
                    depth,
                    score,
                    k + 1,
                    max_depth,
                    max_score,
                );
            },
            Outcome::Dead => {
                lemma_bound_expand_keeps::<S>(
                    g,
                    best,
                    m,
                    node,
                    depth,
                    score,
                    k + 1,
                    max_depth,
                    max_score,
                );
            },
            Outcome::Moved => {
                lemma_bound_visit_keeps::<S>(
                    g,
                    best,
                    next,
                    depth + 1,
                    score + S::price(a),
                    Some(node),
                    S::price(a) as i32,
                    max_depth,
                    max_score,
                );
                if let Ok((g1, best1)) = bound_visit_spec::<S>(
                    g,
                    best,
                    next,
                    depth + 1,
                    score + S::price(a),
                    Some(node),
                    S::price(a) as i32,
                    max_depth,
                    max_score,
                ) {
                    lemma_bound_expand_keeps::<S>(
                        g1,
                        best1,
                        m,
                        node,
                        depth,
                        score,
                        k + 1,
                        max_depth,
                        max_score,
                    );
                    if let Ok((gv, _)) = bound_expand_spec::<S>(
                        g1,
                        best1,
                        m,
                        node,
                        depth,
                        score,
                        k + 1,
                        max_depth,
                        max_score,
                    ) {
                        lemma_within_trans(g, g1, gv);
                    }
                }
            },
            Outcome::Victory => {
                lemma_record_win::<S>(g, next, node, S::price(a) as i32);
            },
        }
    }
}

/// A look at a state leaves a traced graph traced, and finds a best route
/// only where the game can be won.
pub proof fn lemma_bound_visit_traced<S: Puzzle>(
    g: GraphView<S::V>,
    best: Option<(i32, Seq<usize>)>,
    m: S::V,
    depth: nat,
    score: int,
    source: Option<usize>,
    weight: i32,
    max_depth: nat,
    max_score: int,
    root: S::V,
)
    requires
        sound::<S>(g),
        rooted(g),
        explained::<S>(g),
        traced::<S>(g, root),
        S::valid(m),
        in_play::<S>(root, m),
        source matches Some(from) ==> from < g.nodes.len() && !is_winner(g, from as int)
            && some_action_leads::<S>(g.boards[from as int], S::digest(m), weight),
        source is None ==> g.nodes.len() == 0 && m == root,
        1 <= weight <= MAX_STEP_COST,
        best is Some ==> solvable::<S>(root),
    ensures
        bound_visit_spec::<S>(g, best, m, depth, score, source, weight, max_depth, max_score)
            matches Ok((gv, found)) ==> {
            &&& traced::<S>(gv, root)
            &&& grown(g, gv)
            &&& found is Some ==> solvable::<S>(root)
        },
    decreases max_depth - depth, ACTION_COUNT + 1,
{
    if !pruned(best, depth, score, max_depth, max_score) {
        lemma_attached::<S>(g, m, source, weight);
        lemma_attached_charted::<S>(g, m, source, weight, root);
        if let Ok(g1) = g.attached(m, S::digest(m), source, weight) {
            let node = g.nodes.len() as usize;
            lemma_bound_expand_traced::<S>(
                g1,
                best,
                m,
                node,
                depth,
                score,
                0,
                max_depth,
                max_score,
                root,
            );
            if let Ok((gv, _)) = bound_expand_spec::<S>(
                g1,
                best,
                m,
                node,
                depth,
                score,
                0,
                max_depth,
                max_score,
            ) {
                lemma_grown_trans(g, g1, gv);
            }
        }
    }
}

/// Expanding a node leaves a traced graph traced, and finds a best route
/// only where the game can be won.
pub proof fn lemma_bound_expand_traced<S: Puzzle>(
    g: GraphView<S::V>,
    best: Option<(i32, Seq<usize>)>,
    m: S::V,
    node: usize,
    depth: nat,
    score: int,
    k: nat,
    max_depth: nat,
    max_score: int,
    root: S::V,
)
    requires
        sound::<S>(g),
        rooted(g),
        explained::<S>(g),
        traced::<S>(g, root),
        S::valid(m),
        in_play::<S>(root, m),
        node < g.nodes.len(),
        g.boards[node as int] == m,
        !is_winner(g, node as int),
        best is Some ==> solvable::<S>(root),
    ensures
        bound_expand_spec::<S>(g, best, m, node, depth, score, k, max_depth, max_score) matches Ok(
            (gv, found),
        ) ==> {
            &&& traced::<S>(gv, root)
            &&& grown(g, gv)
            &&& found is Some ==> solvable::<S>(root)
        },
    decreases max_depth - depth, ACTION_COUNT - k,
{
    let a = Action::nth(k);
    let (outcome, next) = S::step(m, a);
    let weight = S::price(a) as i32;
    if k < ACTION_COUNT && depth < max_depth {
        S::lemma_step_valid(m, a);
        S::lemma_price_bounds(a);
        if outcome is Moved || outcome is Victory {
            assert(leads::<S>(m, a, S::digest(next)));
        }
        match outcome {
            Outcome::Blocked => {
                lemma_bound_expand_traced::<S>(
                    g,
                    best,
                    m,
                    node,
                    depth,
                    score,
                    k + 1,
                    max_depth,
                    max_score,
                    root,
                );
            },
            Outcome::Dead => {
                lemma_bound_expand_traced::<S>(
                    g,
                    best,
                    m,
                    node,
                    depth,
                    score,
                    k + 1,
                    max_depth,
                    max_score,
                    root,
                );
            },
            Outcome::Moved => {
                lemma_move_in_play::<S>(root, m, a);
                lemma_bound_visit_keeps::<S>(
                    g,
                    best,
                    next,
                    depth + 1,
                    score + S::price(a),
                    Some(node),
                    weight,
                    max_depth,
                    max_score,
                );
                lemma_bound_visit_traced::<S>(
                    g,
                    best,
                    next,
                    depth + 1,
                    score + S::price(a),
                    Some(node),
                    weight,
                    max_depth,
                    max_score,
                    root,
                );
                if let Ok((g1, best1)) = bound_visit_spec::<S>(
                    g,
                    best,
                    next,
                    depth + 1,
                    score + S::price(a),
                    Some(node),
                    weight,
                    max_depth,
                    max_score,
                ) {
                    lemma_grown_winner::<S>(g, g1, node as int);
                    lemma_bound_expand_traced::<S>(
                        g1,
                        best1,
                        m,
                        node,
                        depth,
                        score,
                        k + 1,
                        max_depth,
                        max_score,
                        root,
                    );
                    if let Ok((gv, _)) = bound_expand_spec::<S>(
                        g1,
                        best1,
                        m,
                        node,
                        depth,
                        score,
                        k + 1,
                        max_depth,
                        max_score,
                    ) {
                        lemma_grown_trans(g, g1, gv);
                    }
                }
            },
            Outcome::Victory => {
                lemma_win_from_play::<S>(root, m, a);
                lemma_record_win_charted::<S>(g, next, node, weight, root);
            },
        }
    }
}

/// Looks at the state `board`, found at `depth` from the node `source` at a
/// cost of `score`, and at what its actions lead to, as far as that can
/// still beat the best route in `winner`.
pub fn recurse_bounded<S: Puzzle>(
    g: &mut StateGraph<S>,
    board: S,
    depth: usize,
    score: i32,
    weight: i32,
    winner: &mut Option<(i32, Vec<usize>)>,
    source: Option<usize>,
    bounds: Bounds,
) -> (r: Result<(), SearchError>)
    requires
        old(g).wf(),
        S::valid(board@),
        source matches Some(from) ==> from < old(g)@.nodes.len() && some_action_leads::<S>(
            old(g)@.boards[from as int],
            S::digest(board@),
            weight,
        ),
        source is None ==> old(g)@.nodes.len() == 0,
        1 <= weight <= MAX_STEP_COST,
        bounds.max_score <= SCORE_LIMIT,
        best_stands(old(g)@, route_view(*old(winner))),
        match source {
            Some(from) => way_costs(old(g)@.edges, from, score - weight),
            None => score == 0,
        },
    ensures
        r is Ok ==> best_stands(final(g)@, route_view(*final(winner))),
        r is Ok && prices_rise::<S>() ==> covers::<S>(
            board@,
            depth as nat,
            score as int,
            bounds.max_depth as nat,
            bounds.max_score as int,
            route_view(*final(winner)),
        ),
        match bound_visit_spec::<S>(
            old(g)@,
            route_view(*old(winner)),
            board@,
            depth as nat,
            score as int,
            source,
            weight,
            bounds.max_depth as nat,
            bounds.max_score as int,
        ) {
            Ok((gv, found)) => {
                &&& r is Ok
                &&& final(g)@ == gv
                &&& route_view(*final(winner)) == found
                &&& final(g).wf()
            },
            Err(e) => r == Err::<(), SearchError>(e),
        },
    decreases bounds.max_depth - depth,
{
    proof {
        lemma_bound_visit_keeps::<S>(
            g@,
            route_view(*winner),
            board@,
            depth as nat,
            score as int,
            source,
            weight,
            bounds.max_depth as nat,
            bounds.max_score as int,
        );
        lemma_attached::<S>(g@, board@, source, weight);
        if pruned(
            route_view(*winner),
            depth as nat,
            score as int,
            bounds.max_depth as nat,
            bounds.max_score as int,
        ) {
            lemma_covers_pruned::<S>(
                board@,
                depth as nat,
                score as int,
                bounds.max_depth as nat,
                bounds.max_score as int,
                route_view(*winner),
            );
        }
    }
    if depth >= bounds.max_depth {
        return Ok(());
    }
    if let Some(current) = winner {
        if score >= current.0 {
            return Ok(());
        }
    }
    if score >= bounds.max_score {
        return Ok(());
    }
    let ghost m = board@;
    let node = match attach(g, board, source, weight) {
        Ok(id) => id,
        Err(e) => {
            return Err(e);
        },
    };
    proof {
        lemma_best_stands_within(old(g)@, g@, route_view(*winner));
        match source {
            Some(from) => {
                lemma_way_grows(old(g)@.edges, g@.edges, from, score - weight);
                assert(g@.edges[old(g)@.edges.len() as int] == (from, node, weight));
                lemma_way_extends(g@.edges, old(g)@.edges.len() as int, score - weight);
            },
            None => {
                assert(chained(g@.edges, Seq::<int>::empty(), 0, 0));
            },
        }
    }
    let ghost goal = bound_visit_spec::<S>(
        old(g)@,
        route_view(*old(winner)),
        m,
        depth as nat,
        score as int,
        source,
        weight,
        bounds.max_depth as nat,
        bounds.max_score as int,
    );
    let mut k: usize = 0;
    while k < ACTION_COUNT
        invariant
            k <= ACTION_COUNT,
            depth < bounds.max_depth,
            score < bounds.max_score <= SCORE_LIMIT,
            g.wf(),
            best_stands(g@, route_view(*winner)),
            way_costs(g@.edges, node, score as int),
            prices_rise::<S>() ==> covers_upto::<S>(
                m,
                depth as nat,
                score as int,
                bounds.max_depth as nat,
                bounds.max_score as int,
                route_view(*winner),
                k as nat,
            ),
            S::valid(m),
            node < g@.nodes.len(),
            g@.boards[node as int] == m,
            bound_expand_spec::<S>(
                g@,
                route_view(*winner),
                m,
                node,
                depth as nat,
                score as int,
                k as nat,
                bounds.max_depth as nat,
                bounds.max_score as int,
            ) == goal,
            goal == bound_visit_spec::<S>(
                old(g)@,
                route_view(*old(winner)),
                m,
                depth as nat,
                score as int,
                source,
                weight,
                bounds.max_depth as nat,
                bounds.max_score as int,
            ),
            m == board@,
        decreases ACTION_COUNT - k,
    {
        proof {
            let a = Action::nth(k as nat);
            let after = S::step(m, a);
            S::lemma_step_valid(m, a);
            S::lemma_price_bounds(a);
            if after.0 is Moved || after.0 is Victory {
                assert(leads::<S>(m, a, S::digest(after.1)));
            }
            lemma_attached::<S>(g@, after.1, Some(node), S::price(a) as i32);
            if after.0 is Moved {
                assert(some_action_leads::<S>(
                    g@.boards[node as int],
                    S::digest(after.1),
                    S::price(a) as i32,
                ));
                lemma_bound_visit_keeps::<S>(
                    g@,
                    route_view(*winner),
                    after.1,
                    (depth + 1) as nat,
                    score + S::price(a),
                    Some(node),
                    S::price(a) as i32,
                    bounds.max_depth as nat,
                    bounds.max_score as int,
                );
            }
        }
        let action = Action::from_index(k);
        let ghost before = g@;
        let ghost best_before = route_view(*winner);
        let (outcome, next) = g.boards[node].apply(action);
        match outcome {
            Outcome::Blocked => {
                proof {
                    if prices_rise::<S>() {
                        lemma_covers_skip::<S>(
                            m,
                            depth as nat,
                            score as int,
                            bounds.max_depth as nat,
                            bounds.max_score as int,
                            best_before,
                            k as nat,
                        );
                    }
                }
            },
            Outcome::Dead => {
                proof {
                    if prices_rise::<S>() {
                        lemma_covers_skip::<S>(
                            m,
                            depth as nat,
                            score as int,
                            bounds.max_depth as nat,
                            bounds.max_score as int,
                            best_before,
                            k as nat,
                        );
                    }
                }
            },
            Outcome::Moved => {
                let step_cost = S::cost(action);
                match recurse_bounded(
                    g,
                    next,
                    depth + 1,
                    score + step_cost,
                    step_cost,
                    winner,
                    Some(node),
                    bounds,
                ) {
                    Ok(()) => {},
                    Err(e) => {
                        return Err(e);
                    },
                }
                proof {
                    lemma_way_grows(before.edges, g@.edges, node, score as int);
                    if prices_rise::<S>() {
                        lemma_covers_moved::<S>(
                            m,
                            depth as nat,
                            score as int,
                            bounds.max_depth as nat,
                            bounds.max_score as int,
                            best_before,
                            route_view(*winner),
                            k as nat,
                        );
                    }
                }
            },
            Outcome::Victory => {
                let won = match attach(g, next, Some(node), S::cost(action)) {
                    Ok(id) => id,
                    Err(e) => {
                        return Err(e);
                    },
                };
                g.winners.push(won);
                proof {
                    lemma_record_win::<S>(before, next@, node, S::price(action) as i32);
                    if let Some(b) = route_view(*winner) {
                        lemma_best_stands_within(before, g@, route_view(*winner));
                    }
                }
                let route = g.shortest_path(won);
                proof {
                    let e = before.edges.len() as int;
                    assert(g@.edges[e] == (node, won, S::price(action) as i32));
                    lemma_way_grows(before.edges, g@.edges, node, score as int);
                    lemma_way_extends(g@.edges, e, score as int);
                    let walk = choose|walk: Seq<int>| #[trigger]
                        chained(g@.edges, walk, 0, won as int) && walk_cost(g@.edges, walk)
                            == score + S::price(action);
                    assert(route.0 <= walk_cost(g@.edges, walk));
                    assert(g@.winners[before.winners.len() as int] == won);
                    assert(is_winner(g@, won as int));
                }
                let better = match winner {
                    Some(current) => route.0 < current.0,
                    None => true,
                };
                if better {
                    *winner = Some(route);
                }
                proof {
                    if prices_rise::<S>() {
                        lemma_covers_won::<S>(
                            m,
                            depth as nat,
                            score as int,
                            bounds.max_depth as nat,
                            bounds.max_score as int,
                            best_before,
                            route_view(*winner),
                            k as nat,
                        );
                    }
                }
                return Ok(());
            },
        }
        k += 1;
    }
    Ok(())
}

/// The ceiling that a search works with: the one asked for, but no more
/// than `SCORE_LIMIT`.
pub open spec fn ceiling_of(max_score: Option<i32>) -> int {
    match max_score {
        Some(c) => if c < SCORE_LIMIT {
            c as int
        } else {
            SCORE_LIMIT as int
        },
        None => SCORE_LIMIT as int,
    }
}

/// The graph and the best route of a branch-and-bound search from the state
/// `root`.
pub open spec fn bound_search_spec<S: Puzzle>(
    root: S::V,
    max_depth: nat,
    max_score: Option<i32>,
) -> Result<(GraphView<S::V>, Option<(i32, Seq<usize>)>), SearchError> {
    bound_visit_spec::<S>(
        GraphView::empty(),
        None,
        root,
        0,
        0,
        None,
        1,
        max_depth,
        ceiling_of(max_score),
    )
}

/// The cost and the nodes of the solution that a search found, if it found
/// one.
pub open spec fn found_route<S: Puzzle>(r: Result<Option<Solution<S>>, SearchError>) -> Option<
    (i32, Seq<usize>),
> {
    match r {
        Ok(Some(solution)) => Some((solution.cost, solution.nodes@)),
        _ => None,
    }
}

/// Searches from `board` by branch and bound and gives the cheapest way to
/// win that it found, if it found any. Where no action costs less than one
/// before it, no way to win within the bounds is cheaper than what it gives.
pub fn solve_bounded<S: Puzzle>(board: S, max_depth: usize, max_score: Option<i32>) -> (r: Result<
    Option<Solution<S>>,
    SearchError,
>)
    requires
        S::valid(board@),
    ensures
        match bound_search_spec::<S>(board@, max_depth as nat, max_score) {
            Err(e) => r == Err::<Option<Solution<S>>, SearchError>(e),
            Ok((_, None)) => r matches Ok(None),
            Ok((g, Some(route))) => {
                &&& r matches Ok(Some(solution)) && solution@ == route_solution::<S>(g, route)
                &&& best_stands(g, Some(route))
                &&& route_solution::<S>(g, route).states[0] == board@
            },
        },
        r is Ok && prices_rise::<S>() ==> covers::<S>(
            board@,
            0,
            0,
            max_depth as nat,
            ceiling_of(max_score),
            found_route(r),
        ),
{
    let ceiling = match max_score {
        Some(c) => if c < SCORE_LIMIT {
            c
        } else {
            SCORE_LIMIT
        },
        None => SCORE_LIMIT,
    };
    let bounds = Bounds { max_depth, max_score: ceiling };
    proof {
        crate::laws::lemma_bounded_charted::<S>(board@, max_depth as nat, max_score);
    }
    let mut g: StateGraph<S> = StateGraph::new();
    let mut winner: Option<(i32, Vec<usize>)> = None;
    match recurse_bounded(&mut g, board, 0, 0, 1, &mut winner, None, bounds) {
        Err(e) => Err(e),
        Ok(()) => match winner {
            None => Ok(None),
            Some(route) => Ok(Some(solution_along(&g, route))),
        },
    }
}

} // verus!
