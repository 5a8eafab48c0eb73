//! What the graph of an exhaustive search has to do with the game: every
//! node stands for a state that play reaches, no two nodes that were
//! expanded share a fingerprint, and what was expanded has all its actions
//! seen to.

use crate::explore::{
    expand_spec, lemma_expand_keeps, lemma_record_win, lemma_try_keeps, lemma_visit_keeps,
    record_win, try_action, visit_spec,
};
use crate::pos::{Action, ACTION_COUNT};
use crate::puzzle::{Outcome, Puzzle, MAX_STEP_COST};
use crate::reach::{
    in_play, lemma_move_in_play, lemma_win_from_play, reached, told_apart, wins_at, won_from,
    won_once,
};
use crate::store::{
    explained, leads, lemma_attached, rooted, some_action_leads, sound, GraphView,
};
use vstd::prelude::*;

verus! {

/// Whether the node `i` is among the winners.
pub open spec fn is_winner<M>(g: GraphView<M>, i: int) -> bool {
    exists|k: int| 0 <= k < g.winners.len() && #[trigger] g.winners[k] == i
}

/// The state of the node `i` has won if the node is a winner, and is in play
/// if it is not.
pub open spec fn node_traced<S: Puzzle>(g: GraphView<S::V>, root: S::V, i: int) -> bool {
    if is_winner(g, i) {
        won_from::<S>(root, g.boards[i])
    } else {
        in_play::<S>(root, g.boards[i])
    }
}

/// The graph tells of the game from `root`: its first node is `root`, every
/// node is a state that play reaches, and no edge leaves a winner.
pub open spec fn traced<S: Puzzle>(g: GraphView<S::V>, root: S::V) -> bool {
    &&& g.nodes.len() > 0 ==> g.boards[0] == root
    &&& forall|i: int| 0 <= i < g.nodes.len() ==> #[trigger] node_traced::<S>(g, root, i)
    &&& forall|e: int| 0 <= e < g.edges.len() ==> !is_winner(g, (#[trigger] g.edges[e]).0 as int)
}

/// No node that is no winner has the fingerprint of an earlier node.
pub open spec fn fresh<M>(g: GraphView<M>) -> bool {
    forall|i: int, j: int|
        0 <= i < j < g.nodes.len() && !is_winner(g, j) ==> #[trigger] g.nodes[i]
            != #[trigger] g.nodes[j]
}

/// Whether some winner of the graph has the state `t`.
pub open spec fn holds_winner<M>(g: GraphView<M>, t: M) -> bool {
    exists|k: int| 0 <= k < g.winners.len() && g.boards[(#[trigger] g.winners[k]) as int] == t
}

/// Whether the graph has seen to the action `a` in the state `s`: the table
/// knows the fingerprint of the state it moves to, or a winner has the state
/// it wins with.
pub open spec fn handled<S: Puzzle>(g: GraphView<S::V>, s: S::V, a: Action) -> bool {
    match S::step(s, a) {
        (Outcome::Moved, t) => g.table.contains_key(S::digest(t)),
        (Outcome::Victory, t) => holds_winner(g, t),
        _ => true,
    }
}

/// Whether the graph has seen to every action in the state of the node `i`.
pub open spec fn closed_node<S: Puzzle>(g: GraphView<S::V>, i: int) -> bool {
    forall|a: Action| #[trigger] handled::<S>(g, g.boards[i], a)
}

/// Whether the graph has seen to every action of every node from `lo` on
/// that is no winner.
pub open spec fn closed_from<S: Puzzle>(g: GraphView<S::V>, lo: int) -> bool {
    forall|i: int|
        lo <= i < g.nodes.len() && !is_winner(g, i) ==> #[trigger] closed_node::<S>(g, i)
}

/// Whether `more` holds what `g` holds and its further winners are further
/// nodes.
pub open spec fn grown<M>(g: GraphView<M>, more: GraphView<M>) -> bool {
    &&& g.within(more)
    &&& forall|k: int|
        g.winners.len() <= k < more.winners.len() ==> (#[trigger] more.winners[k])
            >= g.nodes.len()
}

/// A node of a graph is a winner of a grown graph exactly if it is one of
/// the graph.
pub proof fn lemma_grown_winner<S: Puzzle>(g: GraphView<S::V>, more: GraphView<S::V>, i: int)
    requires
        sound::<S>(g),
        grown(g, more),
        0 <= i < g.nodes.len(),
    ensures
        is_winner(more, i) == is_winner(g, i),
{
    if is_winner(g, i) {
        let k = choose|k: int| 0 <= k < g.winners.len() && #[trigger] g.winners[k] == i;
        assert(more.winners[k] == i);
    }
    if is_winner(more, i) {
        let k = choose|k: int| 0 <= k < more.winners.len() && #[trigger] more.winners[k] == i;
        if k >= g.winners.len() {
            assert(more.winners[k] >= g.nodes.len());
        } else {
            assert(g.winners[k] == i);
        }
    }
}

/// Growing twice is growing.
pub proof fn lemma_grown_trans<M>(a: GraphView<M>, b: GraphView<M>, c: GraphView<M>)
    requires
        grown(a, b),
        grown(b, c),
    ensures
        grown(a, c),
{
    assert forall|k: int| a.winners.len() <= k < c.winners.len() implies (#[trigger] c.winners[k])
        >= a.nodes.len() by {
        if k < b.winners.len() {
            assert(b.winners[k] >= a.nodes.len());
            assert(c.winners[k] == b.winners[k]);
        }
    }
}

/// What a graph has seen to, a grown graph has seen to.
pub proof fn lemma_handled_grows<S: Puzzle>(
    g: GraphView<S::V>,
    more: GraphView<S::V>,
    s: S::V,
    a: Action,
)
    requires
        sound::<S>(g),
        grown(g, more),
        handled::<S>(g, s, a),
    ensures
        handled::<S>(more, s, a),
{
    if let (Outcome::Victory, t) = S::step(s, a) {
        let k = choose|k: int|
            0 <= k < g.winners.len() && g.boards[(#[trigger] g.winners[k]) as int] == t;
        assert(g.winners[k] < g.nodes.len());
        assert(more.boards[more.winners[k] as int] == t);
    }
}

/// A node that a graph has closed, a grown graph has closed.
pub proof fn lemma_closed_grows<S: Puzzle>(g: GraphView<S::V>, more: GraphView<S::V>, lo: int)
    requires
        sound::<S>(g),
        grown(g, more),
        0 <= lo,
        closed_from::<S>(g, lo),
    ensures
        forall|i: int|
            lo <= i < g.nodes.len() && !is_winner(more, i) ==> #[trigger] closed_node::<S>(
                more,
                i,
            ),
{
    assert forall|i: int| lo <= i < g.nodes.len() && !is_winner(more, i) implies #[trigger]
        closed_node::<S>(more, i) by {
        lemma_grown_winner::<S>(g, more, i);
        assert(closed_node::<S>(g, i));
        assert forall|a: Action| #[trigger] handled::<S>(more, more.boards[i], a) by {
            assert(handled::<S>(g, g.boards[i], a));
            lemma_handled_grows::<S>(g, more, g.boards[i], a);
        }
    }
}

/// An edge from a node that is no winner leaves a traced graph traced and a
/// fresh graph fresh, and closes nothing and opens nothing.
pub proof fn lemma_linked_charted<S: Puzzle>(
    g: GraphView<S::V>,
    source: Option<usize>,
    to: usize,
    weight: i32,
    root: S::V,
)
    requires
        sound::<S>(g),
        traced::<S>(g, root),
        source matches Some(from) ==> from < g.nodes.len() && !is_winner(g, from as int),
    ensures
        g.linked(source, to, weight) matches Ok(b) ==> {
            &&& traced::<S>(b, root)
            &&& fresh(g) ==> fresh(b)
            &&& grown(g, b)
            &&& forall|i: int| is_winner(b, i) == is_winner(g, i)
            &&& forall|i: int| closed_node::<S>(g, i) ==> closed_node::<S>(b, i)
        },
{
    if let Ok(b) = g.linked(source, to, weight) {
        assert forall|i: int| is_winner(b, i) == is_winner(g, i) by {}
        assert forall|i: int| 0 <= i < b.nodes.len() implies #[trigger] node_traced::<S>(
            b,
            root,
            i,
        ) by {
            assert(node_traced::<S>(g, root, i));
        }
        assert forall|e: int| 0 <= e < b.edges.len() implies !is_winner(
            b,
            (#[trigger] b.edges[e]).0 as int,
        ) by {
            if e < g.edges.len() {
                assert(!is_winner(g, g.edges[e].0 as int));
            }
        }
        assert forall|i: int| closed_node::<S>(g, i) implies closed_node::<S>(b, i) by {
            assert forall|a: Action| #[trigger] handled::<S>(b, b.boards[i], a) by {
                assert(handled::<S>(g, g.boards[i], a));
                assert(holds_winner(g, S::step(g.boards[i], a).1) ==> holds_winner(
                    b,
                    S::step(g.boards[i], a).1,
                )) by {
                    if holds_winner(g, S::step(g.boards[i], a).1) {
                        let k = choose|k: int|
                            0 <= k < g.winners.len() && g.boards[(#[trigger] g.winners[k]) as int]
                                == S::step(g.boards[i], a).1;
                        assert(b.boards[b.winners[k] as int] == S::step(g.boards[i], a).1);
                    }
                }
            }
        }
    }
}

/// A new node for a state in play, linked from a node that is no winner,
/// leaves a traced graph traced; it leaves a fresh graph fresh if the table
/// did not know its fingerprint.
pub proof fn lemma_attached_charted<S: Puzzle>(
    g: GraphView<S::V>,
    m: S::V,
    source: Option<usize>,
    weight: i32,
    root: S::V,
)
    requires
        sound::<S>(g),
        rooted(g),
        traced::<S>(g, root),
        S::valid(m),
        in_play::<S>(root, m),
        source matches Some(from) ==> from < g.nodes.len() && !is_winner(g, from as int),
        source is None ==> g.nodes.len() == 0 && m == root,
        1 <= weight <= MAX_STEP_COST,
    ensures
        g.attached(m, S::digest(m), source, weight) matches Ok(b) ==> {
            &&& traced::<S>(b, root)
            &&& fresh(g) && !g.table.contains_key(S::digest(m)) ==> fresh(b)
            &&& grown(g, b)
            &&& !is_winner(b, g.nodes.len() as int)
        },
{
    lemma_attached::<S>(g, m, source, weight);
    if let Ok(b) = g.attached(m, S::digest(m), source, weight) {
        let id = g.nodes.len() as int;
        assert forall|i: int| 0 <= i < b.nodes.len() implies is_winner(b, i) == is_winner(
            g,
            i,
        ) by {}
        assert(!is_winner(b, id)) by {
            if is_winner(g, id) {
                let k = choose|k: int| 0 <= k < g.winners.len() && #[trigger] g.winners[k] == id;
                assert(g.winners[k] < g.nodes.len());
            }
        }
        assert forall|i: int| 0 <= i < b.nodes.len() implies #[trigger] node_traced::<S>(
            b,
            root,
            i,
        ) by {
            if i < id {
                assert(node_traced::<S>(g, root, i));
            }
        }
        assert forall|e: int| 0 <= e < b.edges.len() implies !is_winner(
            b,
            (#[trigger] b.edges[e]).0 as int,
        ) by {
            if e < g.edges.len() {
                assert(!is_winner(g, g.edges[e].0 as int));
            }
        }
        if fresh(g) && !g.table.contains_key(S::digest(m)) {
            assert forall|i: int, j: int|
                0 <= i < j < b.nodes.len() && !is_winner(b, j) implies #[trigger] b.nodes[i]
                != #[trigger] b.nodes[j] by {
                if j == id {
                    assert(g.table.contains_key(g.nodes[i]));
                } else {
                    assert(g.nodes[i] != g.nodes[j]);
                }
            }
        }
    }
}

/// A new winner for a state that has won, linked from a node that is no
/// winner, leaves a traced graph traced and a fresh graph fresh, and the
/// graph then holds a winner with that state.
pub proof fn lemma_record_win_charted<S: Puzzle>(
    g: GraphView<S::V>,
    m: S::V,
    node: usize,
    weight: i32,
    root: S::V,
)
    requires
        sound::<S>(g),
        rooted(g),
        traced::<S>(g, root),
        S::valid(m),
        won_from::<S>(root, m),
        node < g.nodes.len(),
        !is_winner(g, node as int),
        1 <= weight <= MAX_STEP_COST,
    ensures
        record_win::<S>(g, m, node, weight) matches Ok(b) ==> {
            &&& traced::<S>(b, root)
            &&& fresh(g) ==> fresh(b)
            &&& grown(g, b)
            &&& holds_winner(b, m)
        },
{
    lemma_attached::<S>(g, m, Some(node), weight);
    if let Ok(b) = record_win::<S>(g, m, node, weight) {
        let id = g.nodes.len() as int;
        assert(b.winners[g.winners.len() as int] == id);
        assert(is_winner(b, id));
        assert(b.boards[id] == m);
        assert(holds_winner(b, m));
        assert forall|i: int| 0 <= i < id implies is_winner(b, i) == is_winner(g, i) by {
            if is_winner(b, i) {
                let k = choose|k: int| 0 <= k < b.winners.len() && #[trigger] b.winners[k] == i;
                assert(g.winners[k] == i);
            }
            if is_winner(g, i) {
                let k = choose|k: int| 0 <= k < g.winners.len() && #[trigger] g.winners[k] == i;
                assert(b.winners[k] == i);
            }
        }
        assert forall|i: int| 0 <= i < b.nodes.len() implies #[trigger] node_traced::<S>(
            b,
            root,
            i,
        ) by {
            if i < id {
                assert(node_traced::<S>(g, root, i));
            }
        }
        assert forall|e: int| 0 <= e < b.edges.len() implies !is_winner(
            b,
            (#[trigger] b.edges[e]).0 as int,
        ) by {
            if e < g.edges.len() {
                assert(!is_winner(g, g.edges[e].0 as int));
                assert(g.edges[e].0 < g.nodes.len());
            }
        }
        if fresh(g) {
            assert forall|i: int, j: int|
                0 <= i < j < b.nodes.len() && !is_winner(b, j) implies #[trigger] b.nodes[i]
                != #[trigger] b.nodes[j] by {
                assert(j < id);
                assert(g.nodes[i] != g.nodes[j]);
            }
        }
        assert forall|k: int| g.winners.len() <= k < b.winners.len() implies (
        #[trigger] b.winners[k]) >= g.nodes.len() by {}
    }
}

/// A visit leaves a graph traced and fresh, and closes every node that it
/// adds and that is no winner.
pub proof fn lemma_visit_charted<S: Puzzle>(
    g: GraphView<S::V>,
    m: S::V,
    depth: nat,
    source: Option<usize>,
    weight: i32,
    max_depth: nat,
    root: S::V,
)
    requires
        sound::<S>(g),
        rooted(g),
        explained::<S>(g),
        traced::<S>(g, root),
        fresh(g),
        S::valid(m),
        in_play::<S>(root, m),
        source matches Some(from) ==> from < g.nodes.len() && !is_winner(g, from as int)
            && some_action_leads::<S>(g.boards[from as int], S::digest(m), weight),
        source is None ==> g.nodes.len() == 0 && m == root,
        1 <= weight <= MAX_STEP_COST,
    ensures
        visit_spec::<S>(g, m, depth, source, weight, max_depth) matches Ok(gv) ==> {
            &&& traced::<S>(gv, root)
            &&& fresh(gv)
            &&& grown(g, gv)
            &&& closed_from::<S>(gv, g.nodes.len() as int)
        },
    decreases max_depth - depth, ACTION_COUNT + 1,
{
    lemma_visit_keeps::<S>(g, m, depth, source, weight, max_depth);
    let h = S::digest(m);
    if g.table.contains_key(h) {
        lemma_linked_charted::<S>(g, source, g.table[h], weight, root);
    } else {
        lemma_attached::<S>(g, m, source, weight);
        lemma_attached_charted::<S>(g, m, source, weight, root);
        if let Ok(g1) = g.attached(m, h, source, weight) {
            if depth < max_depth {
                let node = g.nodes.len() as usize;
                assert(closed_from::<S>(g1, node + 1));
                lemma_expand_charted::<S>(g1, m, node, depth, 0, max_depth, root);
                lemma_expand_keeps::<S>(g1, m, node, depth, 0, max_depth);
                if let Ok(gv) = expand_spec::<S>(g1, m, node, depth, 0, max_depth) {
                    lemma_grown_trans(g, g1, gv);
                    lemma_grown_winner::<S>(g1, gv, node as int);
                    assert(gv.boards[node as int] == m);
                    assert forall|a: Action| #[trigger] handled::<S>(gv, m, a) by {
                        assert(Action::nth(a.rank()) == a);
                    }
                    assert(closed_node::<S>(gv, node as int));
                }
            }
        }
    }
}

/// Expanding a node leaves a graph traced and fresh, closes every node that
/// it adds and that is no winner, and sees to every action of the node.
pub proof fn lemma_expand_charted<S: Puzzle>(
    g: GraphView<S::V>,
    m: S::V,
    node: usize,
    depth: nat,
    k: nat,
    max_depth: nat,
    root: S::V,
)
    requires
        sound::<S>(g),
        rooted(g),
        explained::<S>(g),
        traced::<S>(g, root),
        fresh(g),
        S::valid(m),
        in_play::<S>(root, m),
        node < g.nodes.len(),
        g.boards[node as int] == m,
        !is_winner(g, node as int),
        depth < max_depth,
        closed_from::<S>(g, node + 1),
        forall|j: nat| j < k ==> handled::<S>(g, m, #[trigger] Action::nth(j)),
    ensures
        expand_spec::<S>(g, m, node, depth, k, max_depth) matches Ok(gv) ==> {
            &&& traced::<S>(gv, root)
            &&& fresh(gv)
            &&& grown(g, gv)
            &&& closed_from::<S>(gv, node + 1)
            &&& forall|j: nat| j < ACTION_COUNT ==> handled::<S>(gv, m, #[trigger] Action::nth(j))
        },
    decreases max_depth - depth, ACTION_COUNT - k,
{
    if k < ACTION_COUNT {
        lemma_try_keeps::<S>(g, m, node, depth, k, max_depth);
        lemma_try_charted::<S>(g, m, node, depth, k, max_depth, root);
        if let Ok(g1) = try_action::<S>(g, m, node, depth, k, max_depth) {
            lemma_grown_winner::<S>(g, g1, node as int);
            assert forall|j: nat| j < k + 1 implies handled::<S>(
                g1,
                m,
                #[trigger] Action::nth(j),
            ) by {
                if j < k {
                    lemma_handled_grows::<S>(g, g1, m, Action::nth(j));
                }
            }
            lemma_expand_charted::<S>(g1, m, node, depth, k + 1, max_depth, root);
            if let Ok(gv) = expand_spec::<S>(g1, m, node, depth, k + 1, max_depth) {
                lemma_grown_trans(g, g1, gv);
            }
        }
    }
}

/// Trying an action leaves a graph traced and fresh, closes every node that
/// it adds and that is no winner, and sees to the action.
pub proof fn lemma_try_charted<S: Puzzle>(
    g: GraphView<S::V>,
    m: S::V,
    node: usize,
    depth: nat,
    k: nat,
    max_depth: nat,
    root: S::V,
)
    requires
        sound::<S>(g),
        rooted(g),
        explained::<S>(g),
        traced::<S>(g, root),
        fresh(g),
        S::valid(m),
        in_play::<S>(root, m),
        node < g.nodes.len(),
        g.boards[node as int] == m,
        !is_winner(g, node as int),
        depth < max_depth,
        k < ACTION_COUNT,
        closed_from::<S>(g, node + 1),
    ensures
        try_action::<S>(g, m, node, depth, k, max_depth) matches Ok(gv) ==> {
            &&& traced::<S>(gv, root)
            &&& fresh(gv)
            &&& grown(g, gv)
            &&& closed_from::<S>(gv, node + 1)
            &&& handled::<S>(gv, m, Action::nth(k))
        },
    decreases max_depth - depth, ACTION_COUNT - k, 0nat,
{
    let a = Action::nth(k);
    let (outcome, next) = S::step(m, a);
    S::lemma_step_valid(m, a);
    S::lemma_price_bounds(a);
    let weight = S::price(a) as i32;
    match outcome {
        Outcome::Moved => {
            lemma_move_in_play::<S>(root, m, a);
            assert(leads::<S>(m, a, S::digest(next)));
            lemma_visit_keeps::<S>(g, next, depth + 1, Some(node), weight, max_depth);
            lemma_visit_charted::<S>(g, next, depth + 1, Some(node), weight, max_depth, root);
            if let Ok(gv) = visit_spec::<S>(g, next, depth + 1, Some(node), weight, max_depth) {
                lemma_closed_grows::<S>(g, gv, node + 1);
                assert forall|i: int|
                    node + 1 <= i < gv.nodes.len() && !is_winner(gv, i) implies #[trigger]
                    closed_node::<S>(gv, i) by {
                    if i >= g.nodes.len() {
                        assert(closed_node::<S>(gv, i));
                    }
                }
            }
        },
        Outcome::Victory => {
            lemma_win_from_play::<S>(root, m, a);
            assert(leads::<S>(m, a, S::digest(next)));
            lemma_record_win::<S>(g, next, node, weight);
            lemma_record_win_charted::<S>(g, next, node, weight, root);
            if let Ok(gv) = record_win::<S>(g, next, node, weight) {
                lemma_closed_grows::<S>(g, gv, node + 1);
                assert(is_winner(gv, g.nodes.len() as int)) by {
                    assert(gv.winners[g.winners.len() as int] == g.nodes.len());
                }
            }
        },
        _ => {},
    }
}

/// Whether the winner `w` was won from a node that is no winner, comes
/// before it and not before `lo`.
pub open spec fn earned<S: Puzzle>(g: GraphView<S::V>, w: int, lo: int) -> bool {
    exists|i: int, a: Action|
        lo <= i < w && !is_winner(g, i) && #[trigger] wins_at::<S>(
            #[trigger] g.boards[i],
            a,
            g.boards[w],
        )
}

/// Whether every winner from the node `from` on was won from a node that
/// does not come before `lo`.
pub open spec fn merited<S: Puzzle>(g: GraphView<S::V>, from: int, lo: int) -> bool {
    forall|w: int| from <= w < g.nodes.len() && is_winner(g, w) ==> #[trigger] earned::<S>(g, w, lo)
}

/// Whether no two winners of a graph share a fingerprint.
pub open spec fn winners_differ<M>(g: GraphView<M>) -> bool {
    forall|i: int, j: int|
        0 <= i < j < g.nodes.len() && is_winner(g, i) && is_winner(g, j) ==> #[trigger] g.nodes[i]
            != #[trigger] g.nodes[j]
}

/// Whether no winner of the graph has a state with which one of the actions
/// from number `k` on wins in the state `m`.
pub open spec fn unwon<S: Puzzle>(g: GraphView<S::V>, m: S::V, k: nat) -> bool {
    forall|w: int, j: nat|
        0 <= w < g.nodes.len() && is_winner(g, w) && k <= j < ACTION_COUNT ==> !#[trigger] wins_at::<
            S,
        >(m, Action::nth(j), #[trigger] g.boards[w])
}

/// What a node has earned it keeps when the graph grows.
pub proof fn lemma_earned_grows<S: Puzzle>(
    g: GraphView<S::V>,
    more: GraphView<S::V>,
    w: int,
    lo: int,
)
    requires
        sound::<S>(g),
        grown(g, more),
        0 <= lo,
        0 <= w < g.nodes.len(),
        earned::<S>(g, w, lo),
    ensures
        earned::<S>(more, w, lo),
{
    let (i, a) = choose|i: int, a: Action|
        lo <= i < w && !is_winner(g, i) && #[trigger] wins_at::<S>(
            #[trigger] g.boards[i],
            a,
            g.boards[w],
        );
    lemma_grown_winner::<S>(g, more, i);
    assert(wins_at::<S>(more.boards[i], a, more.boards[w]));
}

/// Two nodes that are no winners and have the same state are one node, in a
/// fresh and sound graph.
pub proof fn lemma_fresh_same<S: Puzzle>(g: GraphView<S::V>, i: int, j: int)
    requires
        sound::<S>(g),
        fresh(g),
        0 <= i < g.nodes.len(),
        0 <= j < g.nodes.len(),
        !is_winner(g, i),
        !is_winner(g, j),
        g.boards[i] == g.boards[j],
    ensures
        i == j,
{
    assert(g.nodes[i] == S::digest(g.boards[i]));
    assert(g.nodes[j] == S::digest(g.boards[j]));
    if i < j {
        assert(g.nodes[i] != g.nodes[j]);
    } else if j < i {
        assert(g.nodes[j] != g.nodes[i]);
    }
}

/// The facts about a graph that the lemmas on winners start from.
pub open spec fn mapped<S: Puzzle>(g: GraphView<S::V>, root: S::V) -> bool {
    &&& sound::<S>(g)
    &&& rooted(g)
    &&& explained::<S>(g)
    &&& traced::<S>(g, root)
    &&& fresh(g)
    &&& merited::<S>(g, 0, 0)
    &&& winners_differ(g)
}

/// A visit leaves the winners of a graph with fingerprints of their own,
/// each won from a node that is no winner, where fingerprints tell the
/// states of the game apart and every won state is won once only.
pub proof fn lemma_visit_wins<S: Puzzle>(
    g: GraphView<S::V>,
    m: S::V,
    depth: nat,
    source: Option<usize>,
    weight: i32,
    max_depth: nat,
    root: S::V,
)
    requires
        mapped::<S>(g, root),
        told_apart::<S>(root),
        won_once::<S>(root),
        S::valid(m),
        in_play::<S>(root, m),
        source matches Some(from) ==> from < g.nodes.len() && !is_winner(g, from as int)
            && some_action_leads::<S>(g.boards[from as int], S::digest(m), weight),
        source is None ==> g.nodes.len() == 0 && m == root,
        1 <= weight <= MAX_STEP_COST,
    ensures
        visit_spec::<S>(g, m, depth, source, weight, max_depth) matches Ok(gv) ==> {
            &&& mapped::<S>(gv, root)
            &&& merited::<S>(gv, g.nodes.len() as int, g.nodes.len() as int)
        },
    decreases max_depth - depth, ACTION_COUNT + 1,
{
    lemma_visit_keeps::<S>(g, m, depth, source, weight, max_depth);
    lemma_visit_charted::<S>(g, m, depth, source, weight, max_depth, root);
    let h = S::digest(m);
    if g.table.contains_key(h) {
        lemma_linked_charted::<S>(g, source, g.table[h], weight, root);
        if let Ok(gv) = g.linked(source, g.table[h], weight) {
            assert forall|w: int| 0 <= w < gv.nodes.len() && is_winner(gv, w) implies #[trigger]
                earned::<S>(gv, w, 0) by {
                assert(earned::<S>(g, w, 0));
                lemma_earned_grows::<S>(g, gv, w, 0);
            }
            assert(winners_differ(gv));
        }
    } else {
        lemma_attached::<S>(g, m, source, weight);
        lemma_attached_charted::<S>(g, m, source, weight, root);
        if let Ok(g1) = g.attached(m, h, source, weight) {
            let node = g.nodes.len() as usize;
            assert forall|w: int| 0 <= w < g1.nodes.len() && is_winner(g1, w) implies #[trigger]
                earned::<S>(g1, w, 0) by {
                lemma_grown_winner::<S>(g, g1, w);
                assert(earned::<S>(g, w, 0));
                lemma_earned_grows::<S>(g, g1, w, 0);
            }
            assert(winners_differ(g1)) by {
                assert forall|i: int, j: int|
                    0 <= i < j < g1.nodes.len() && is_winner(g1, i) && is_winner(
                        g1,
                        j,
                    ) implies #[trigger] g1.nodes[i] != #[trigger] g1.nodes[j] by {
                    lemma_grown_winner::<S>(g, g1, i);
                    lemma_grown_winner::<S>(g, g1, j);
                    assert(g.nodes[i] != g.nodes[j]);
                }
            }
            assert(unwon::<S>(g1, m, 0)) by {
                assert forall|w: int, j: nat|
                    0 <= w < g1.nodes.len() && is_winner(g1, w) && 0 <= j < ACTION_COUNT implies !
                #[trigger] wins_at::<S>(m, Action::nth(j), #[trigger] g1.boards[w]) by {
                    if wins_at::<S>(m, Action::nth(j), g1.boards[w]) {
                        lemma_grown_winner::<S>(g, g1, w);
                        assert(earned::<S>(g, w, 0));
                        let (i, a) = choose|i: int, a: Action|
                            0 <= i < w && !is_winner(g, i) && #[trigger] wins_at::<S>(
                                #[trigger] g.boards[i],
                                a,
                                g.boards[w],
                            );
                        assert(node_traced::<S>(g, root, i));
                        assert(in_play::<S>(root, g.boards[i]));
                        assert(wins_at::<S>(g.boards[i], a, S::step(g.boards[i], a).1));
                        assert(wins_at::<S>(m, Action::nth(j), S::step(m, Action::nth(j)).1));
                        assert(g.boards[i] == m);
                        assert(g.nodes[i] == S::digest(g.boards[i]));
                        assert(g.table.contains_key(g.nodes[i]));
                    }
                }
            }
            if depth < max_depth {
                lemma_expand_wins::<S>(g1, m, node, depth, 0, max_depth, root);
                if let Ok(gv) = expand_spec::<S>(g1, m, node, depth, 0, max_depth) {
                    assert forall|w: int|
                        g.nodes.len() <= w < gv.nodes.len() && is_winner(gv, w) implies #[trigger]
                        earned::<S>(gv, w, g.nodes.len() as int) by {
                        lemma_expand_keeps::<S>(g1, m, node, depth, 0, max_depth);
                        lemma_expand_charted::<S>(g1, m, node, depth, 0, max_depth, root);
                        if w < g1.nodes.len() {
                            lemma_grown_winner::<S>(g1, gv, w);
                        }
                    }
                }
            }
        }
    }
}

/// Expanding a node leaves the winners of a graph with fingerprints of
/// their own, each won from a node that is no winner.
pub proof fn lemma_expand_wins<S: Puzzle>(
    g: GraphView<S::V>,
    m: S::V,
    node: usize,
    depth: nat,
    k: nat,
    max_depth: nat,
    root: S::V,
)
    requires
        mapped::<S>(g, root),
        told_apart::<S>(root),
        won_once::<S>(root),
        S::valid(m),
        in_play::<S>(root, m),
        node < g.nodes.len(),
        g.boards[node as int] == m,
        !is_winner(g, node as int),
        depth < max_depth,
        closed_from::<S>(g, node + 1),
        forall|j: nat| j < k ==> handled::<S>(g, m, #[trigger] Action::nth(j)),
        unwon::<S>(g, m, k),
    ensures
        expand_spec::<S>(g, m, node, depth, k, max_depth) matches Ok(gv) ==> {
            &&& mapped::<S>(gv, root)
            &&& merited::<S>(gv, g.nodes.len() as int, node as int)
        },
    decreases max_depth - depth, ACTION_COUNT - k,
{
    if k < ACTION_COUNT {
        lemma_try_keeps::<S>(g, m, node, depth, k, max_depth);
        lemma_try_charted::<S>(g, m, node, depth, k, max_depth, root);
        lemma_try_wins::<S>(g, m, node, depth, k, max_depth, root);
        if let Ok(g1) = try_action::<S>(g, m, node, depth, k, max_depth) {
            lemma_grown_winner::<S>(g, g1, node as int);
            assert forall|j: nat| j < k + 1 implies handled::<S>(
                g1,
                m,
                #[trigger] Action::nth(j),
            ) by {
                if j < k {
                    lemma_handled_grows::<S>(g, g1, m, Action::nth(j));
                }
            }
            lemma_expand_wins::<S>(g1, m, node, depth, k + 1, max_depth, root);
            lemma_expand_keeps::<S>(g1, m, node, depth, k + 1, max_depth);
            lemma_expand_charted::<S>(g1, m, node, depth, k + 1, max_depth, root);
            if let Ok(gv) = expand_spec::<S>(g1, m, node, depth, k + 1, max_depth) {
                assert forall|w: int|
                    g.nodes.len() <= w < gv.nodes.len() && is_winner(gv, w) implies #[trigger]
                    earned::<S>(gv, w, node as int) by {
                    if w < g1.nodes.len() {
                        lemma_grown_winner::<S>(g1, gv, w);
                        assert(earned::<S>(g1, w, node as int));
                        lemma_earned_grows::<S>(g1, gv, w, node as int);
                    }
                }
            }
        }
    } else {
        assert(merited::<S>(g, g.nodes.len() as int, node as int));
    }
}

/// Trying an action leaves the winners of a graph with fingerprints of
/// their own, each won from a node that is no winner, and none of them has
/// a state with which a later action of the node wins.
pub proof fn lemma_try_wins<S: Puzzle>(
    g: GraphView<S::V>,
    m: S::V,
    node: usize,
    depth: nat,
    k: nat,
    max_depth: nat,
    root: S::V,
)
    requires
        mapped::<S>(g, root),
        told_apart::<S>(root),
        won_once::<S>(root),
        S::valid(m),
        in_play::<S>(root, m),
        node < g.nodes.len(),
        g.boards[node as int] == m,
        !is_winner(g, node as int),
        depth < max_depth,
        k < ACTION_COUNT,
        closed_from::<S>(g, node + 1),
        unwon::<S>(g, m, k),
    ensures
        try_action::<S>(g, m, node, depth, k, max_depth) matches Ok(gv) ==> {
            &&& mapped::<S>(gv, root)
            &&& merited::<S>(gv, g.nodes.len() as int, node as int)
            &&& unwon::<S>(gv, m, k + 1)
        },
    decreases max_depth - depth, ACTION_COUNT - k, 0nat,
{
    let a = Action::nth(k);
    let (outcome, next) = S::step(m, a);
    S::lemma_step_valid(m, a);
    S::lemma_price_bounds(a);
    let weight = S::price(a) as i32;
    lemma_try_keeps::<S>(g, m, node, depth, k, max_depth);
    lemma_try_charted::<S>(g, m, node, depth, k, max_depth, root);
    match outcome {
        Outcome::Moved => {
            lemma_move_in_play::<S>(root, m, a);
            assert(leads::<S>(m, a, S::digest(next)));
            lemma_visit_wins::<S>(g, next, depth + 1, Some(node), weight, max_depth, root);
            if let Ok(gv) = visit_spec::<S>(g, next, depth + 1, Some(node), weight, max_depth) {
                lemma_grown_winner::<S>(g, gv, node as int);
                assert forall|w: int|
                    g.nodes.len() <= w < gv.nodes.len() && is_winner(gv, w) implies #[trigger]
                    earned::<S>(gv, w, node as int) by {
                    assert(earned::<S>(gv, w, g.nodes.len() as int));
                    let (i, b) = choose|i: int, b: Action|
                        g.nodes.len() <= i < w && !is_winner(gv, i) && #[trigger] wins_at::<S>(
                            #[trigger] gv.boards[i],
                            b,
                            gv.boards[w],
                        );
                    assert(wins_at::<S>(gv.boards[i], b, gv.boards[w]));
                }
                assert forall|w: int, j: nat|
                    0 <= w < gv.nodes.len() && is_winner(gv, w) && k + 1 <= j
                        < ACTION_COUNT implies !#[trigger] wins_at::<S>(
                    m,
                    Action::nth(j),
                    #[trigger] gv.boards[w],
                ) by {
                    if wins_at::<S>(m, Action::nth(j), gv.boards[w]) {
                        if w < g.nodes.len() {
                            lemma_grown_winner::<S>(g, gv, w);
                            assert(!wins_at::<S>(m, Action::nth(j), g.boards[w]));
                        } else {
                            assert(earned::<S>(gv, w, g.nodes.len() as int));
                            let (i, b) = choose|i: int, b: Action|
                                g.nodes.len() <= i < w && !is_winner(gv, i) && #[trigger] wins_at::<
                                    S,
                                >(#[trigger] gv.boards[i], b, gv.boards[w]);
                            assert(node_traced::<S>(gv, root, i));
                            assert(wins_at::<S>(gv.boards[i], b, S::step(gv.boards[i], b).1));
                            assert(wins_at::<S>(m, Action::nth(j), S::step(m, Action::nth(j)).1));
                            assert(gv.boards[i] == m);
                            lemma_fresh_same::<S>(gv, i, node as int);
                        }
                    }
                }
            }
        },
        Outcome::Victory => {
            lemma_win_from_play::<S>(root, m, a);
            assert(leads::<S>(m, a, S::digest(next)));
            lemma_record_win::<S>(g, next, node, weight);
            lemma_record_win_charted::<S>(g, next, node, weight, root);
            lemma_attached::<S>(g, next, Some(node), weight);
            if let Ok(gv) = record_win::<S>(g, next, node, weight) {
                let id = g.nodes.len() as int;
                lemma_grown_winner::<S>(g, gv, node as int);
                assert(gv.boards[id] == next);
                assert(wins_at::<S>(gv.boards[node as int], a, gv.boards[id]));
                assert(earned::<S>(gv, id, node as int));
                assert forall|w: int| 0 <= w < gv.nodes.len() && is_winner(gv, w) implies #[trigger]
                    earned::<S>(gv, w, 0) by {
                    if w < id {
                        lemma_grown_winner::<S>(g, gv, w);
                        assert(earned::<S>(g, w, 0));
                        lemma_earned_grows::<S>(g, gv, w, 0);
                    }
                }
                assert forall|w: int, j: nat|
                    0 <= w < gv.nodes.len() && is_winner(gv, w) && k + 1 <= j
                        < ACTION_COUNT implies !#[trigger] wins_at::<S>(
                    m,
                    Action::nth(j),
                    #[trigger] gv.boards[w],
                ) by {
                    if wins_at::<S>(m, Action::nth(j), gv.boards[w]) {
                        if w < id {
                            lemma_grown_winner::<S>(g, gv, w);
                            assert(!wins_at::<S>(m, Action::nth(j), g.boards[w]));
                        } else {
                            assert(wins_at::<S>(m, a, S::step(m, a).1));
                            assert(wins_at::<S>(m, Action::nth(j), S::step(m, Action::nth(j)).1));
                            assert(Action::nth(j).rank() == j);
                            assert(a.rank() == k);
                        }
                    }
                }
                assert forall|i: int, j: int|
                    0 <= i < j < gv.nodes.len() && is_winner(gv, i) && is_winner(
                        gv,
                        j,
                    ) implies #[trigger] gv.nodes[i] != #[trigger] gv.nodes[j] by {
                    lemma_grown_winner::<S>(g, gv, i);
                    if j < id {
                        lemma_grown_winner::<S>(g, gv, j);
                        assert(g.nodes[i] != g.nodes[j]);
                    } else if gv.nodes[i] == gv.nodes[j] {
                        assert(gv.nodes[i] == S::digest(gv.boards[i]));
                        assert(gv.nodes[j] == S::digest(gv.boards[j]));
                        assert(node_traced::<S>(gv, root, i));
                        assert(node_traced::<S>(gv, root, j));
                        assert(reached::<S>(root, gv.boards[i]));
                        assert(reached::<S>(root, gv.boards[j]));
                        assert(gv.boards[i] == next);
                        assert(!wins_at::<S>(m, Action::nth(k), g.boards[i]));
                    }
                }
            }
        },
        _ => {
            assert(merited::<S>(g, g.nodes.len() as int, node as int));
        },
    }
}

} // verus!
