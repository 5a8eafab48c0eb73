//! The exhaustive search: visits every state that the actions lead to, each
//! once, and records the states that win.

use crate::pos::{Action, ACTION_COUNT};
use crate::puzzle::{Outcome, Puzzle, MAX_STEP_COST};
use crate::store::{
    attach, explained, leads, lemma_attached, lemma_linked, lemma_within_trans, rooted, sound,
    some_action_leads, GraphView, SearchError, StateGraph,
};
use vstd::prelude::*;

verus! {

/// The graph after a winning state `m` was reached from `node`: one more
/// node, the edge to it, and the node among the winners.
pub open spec fn record_win<S: Puzzle>(g: GraphView<S::V>, m: S::V, node: usize, weight: i32) -> Result<
    GraphView<S::V>,
    SearchError,
> {
    match g.attached(m, S::digest(m), Some(node), weight) {
        Ok(g1) => Ok(g1.with_winner(g.nodes.len() as usize)),
        Err(e) => Err(e),
    }
}

/// The graph after the state `m`, found at `depth` from `source`, was
/// visited. A state whose fingerprint the table knows gets an edge from
/// `source` to the node that the table names, and no more. Any other state
/// becomes a node, linked from `source`, and is expanded, unless it lies at
/// `max_depth`: there the search gives up.
pub open spec fn visit_spec<S: Puzzle>(
    g: GraphView<S::V>,
    m: S::V,
    depth: nat,
    source: Option<usize>,
    weight: i32,
    max_depth: nat,
) -> Result<GraphView<S::V>, SearchError>
    decreases max_depth - depth, ACTION_COUNT + 1,
{
    let h = S::digest(m);
    if g.table.contains_key(h) {
        g.linked(source, g.table[h], weight)
    } else {
        match g.attached(m, h, source, weight) {
            Err(e) => Err(e),
            Ok(g1) => if depth >= max_depth {
                Err(SearchError::TooDeep)
            } else {
                expand_spec::<S>(g1, m, g.nodes.len() as usize, depth, 0, max_depth)
            },
        }
    }
}

/// The graph after the actions from number `k` on were tried, in their
/// order, in the state `m` of the node `node`. A blocked or deadly action
/// leaves no trace; one that moves has its state visited one level deeper;
/// one that wins has its state recorded as a winner.
pub open spec fn expand_spec<S: Puzzle>(
    g: GraphView<S::V>,
    m: S::V,
    node: usize,
    depth: nat,
    k: nat,
    max_depth: nat,
) -> Result<GraphView<S::V>, SearchError>
    decreases max_depth - depth, ACTION_COUNT - k,
{
    if k >= ACTION_COUNT || depth >= max_depth {
        Ok(g)
    } else {
        match try_action::<S>(g, m, node, depth, k, max_depth) {
            Err(e) => Err(e),
            Ok(g1) => expand_spec::<S>(g1, m, node, depth, k + 1, max_depth),
        }
    }
}

/// The graph after the action number `k` was tried in the state `m` of the
/// node `node`.
pub open spec fn try_action<S: Puzzle>(
    g: GraphView<S::V>,
    m: S::V,
    node: usize,
    depth: nat,
    k: nat,
    max_depth: nat,
) -> Result<GraphView<S::V>, SearchError>
    decreases max_depth - depth, ACTION_COUNT - k, 0nat,
{
    let a = Action::nth(k);
    let (outcome, next) = S::step(m, a);
    if k >= ACTION_COUNT || depth >= max_depth {
        Ok(g)
    } else {
        match outcome {
            Outcome::Blocked => Ok(g),
            Outcome::Dead => Ok(g),
            Outcome::Moved => visit_spec::<S>(
                g,
                next,
                depth + 1,
                Some(node),
                S::price(a) as i32,
                max_depth,
            ),
            Outcome::Victory => record_win::<S>(g, next, node, S::price(a) as i32),
        }
    }
}

/// Recording a winner leaves a sound and rooted graph so.
pub proof fn lemma_record_win<S: Puzzle>(g: GraphView<S::V>, m: S::V, node: usize, weight: i32)
    requires
        sound::<S>(g),
        rooted(g),
        S::valid(m),
        explained::<S>(g),
        node < g.nodes.len(),
        some_action_leads::<S>(g.boards[node as int], S::digest(m), weight),
        1 <= weight <= MAX_STEP_COST,
    ensures
        record_win::<S>(g, m, node, weight) matches Ok(gv) ==> {
            &&& sound::<S>(gv)
            &&& rooted(gv)
            &&& explained::<S>(gv)
            &&& g.within(gv)
        },
{
    lemma_attached::<S>(g, m, Some(node), weight);
    if let Ok(g1) = g.attached(m, S::digest(m), Some(node), weight) {
        let gv = g1.with_winner(g.nodes.len() as usize);
        assert forall|k: int| 0 <= k < gv.winners.len() implies (#[trigger] gv.winners[k])
            < gv.nodes.len() by {
            if k < g1.winners.len() {
                assert(g1.winners[k] < g1.nodes.len());
            }
        }
    }
}

/// A visit leaves a sound and rooted graph so, keeps what it held, and makes
/// the fingerprint of the visited state known to the table.
pub proof fn lemma_visit_keeps<S: Puzzle>(
    g: GraphView<S::V>,
    m: S::V,
    depth: nat,
    source: Option<usize>,
    weight: i32,
    max_depth: nat,
)
    requires
        sound::<S>(g),
        rooted(g),
        explained::<S>(g),
        S::valid(m),
        source matches Some(from) ==> from < g.nodes.len() && some_action_leads::<S>(
            g.boards[from as int],
            S::digest(m),
            weight,
        ),
        source is None ==> g.nodes.len() == 0,
        1 <= weight <= MAX_STEP_COST,
    ensures
        visit_spec::<S>(g, m, depth, source, weight, max_depth) matches Ok(gv) ==> {
            &&& sound::<S>(gv)
            &&& rooted(gv)
            &&& explained::<S>(gv)
            &&& g.within(gv)
            &&& gv.table.contains_key(S::digest(m))
        },
    decreases max_depth - depth, ACTION_COUNT + 1,
{
    let h = S::digest(m);
    if g.table.contains_key(h) {
        lemma_linked::<S>(g, source, g.table[h], weight);
    } else {
        lemma_attached::<S>(g, m, source, weight);
        if let Ok(g1) = g.attached(m, h, source, weight) {
            if depth < max_depth {
                let node = g.nodes.len() as usize;
                lemma_expand_keeps::<S>(g1, m, node, depth, 0, max_depth);
                if let Ok(gv) = expand_spec::<S>(g1, m, node, depth, 0, max_depth) {
                    lemma_within_trans(g, g1, gv);
                }
            }
        }
    }
}

/// Expanding a node leaves a sound and rooted graph so and keeps what it
/// held.
pub proof fn lemma_expand_keeps<S: Puzzle>(
    g: GraphView<S::V>,
    m: S::V,
    node: usize,
    depth: nat,
    k: nat,
    max_depth: nat,
)
    requires
        sound::<S>(g),
        rooted(g),
        explained::<S>(g),
        S::valid(m),
        node < g.nodes.len(),
        g.boards[node as int] == m,
    ensures
        expand_spec::<S>(g, m, node, depth, k, max_depth) matches Ok(gv) ==> {
            &&& sound::<S>(gv)
            &&& rooted(gv)
            &&& explained::<S>(gv)
            &&& g.within(gv)
        },
    decreases max_depth - depth, ACTION_COUNT - k,
{
    if k < ACTION_COUNT && depth < max_depth {
        lemma_try_keeps::<S>(g, m, node, depth, k, max_depth);
        if let Ok(g1) = try_action::<S>(g, m, node, depth, k, max_depth) {
            lemma_expand_keeps::<S>(g1, m, node, depth, k + 1, max_depth);
            if let Ok(gv) = expand_spec::<S>(g1, m, node, depth, k + 1, max_depth) {
                lemma_within_trans(g, g1, gv);
            }
        }
    }
}

/// Trying an action leaves a sound and rooted graph so and keeps what it
/// held.
pub proof fn lemma_try_keeps<S: Puzzle>(
    g: GraphView<S::V>,
    m: S::V,
    node: usize,
    depth: nat,
    k: nat,
    max_depth: nat,
)
    requires
        sound::<S>(g),
        rooted(g),
        explained::<S>(g),
        S::valid(m),
        node < g.nodes.len(),
        g.boards[node as int] == m,
    ensures
        try_action::<S>(g, m, node, depth, k, max_depth) matches Ok(gv) ==> {
            &&& sound::<S>(gv)
            &&& rooted(gv)
            &&& explained::<S>(gv)
            &&& g.within(gv)
        },
    decreases max_depth - depth, ACTION_COUNT - k, 0nat,
{
    let a = Action::nth(k);
    let (outcome, next) = S::step(m, a);
    if k < ACTION_COUNT && depth < max_depth {
        S::lemma_step_valid(m, a);
        S::lemma_price_bounds(a);
        if outcome is Moved || outcome is Victory {
            assert(leads::<S>(m, a, S::digest(next)));
        }
        match outcome {
            Outcome::Moved => {
                lemma_visit_keeps::<S>(g, next, depth + 1, Some(node), S::price(a) as i32, max_depth);
            },
            Outcome::Victory => {
                lemma_record_win::<S>(g, next, node, S::price(a) as i32);
            },
            _ => {},
        }
    }
}

/// Visits the state `board`, found at `depth` from the node `source`, and
/// all that its actions lead to and the table does not know yet.
pub fn recurse<S: Puzzle>(
    g: &mut StateGraph<S>,
    board: S,
    depth: usize,
    source: Option<usize>,
    weight: i32,
    max_depth: usize,
) -> (r: Result<(), SearchError>)
    requires
        old(g).wf(),
        S::valid(board@),
        source matches Some(from) ==> from < old(g)@.nodes.len() && some_action_leads::<S>(
            old(g)@.boards[from as int],
            S::digest(board@),
            weight,
        ),
        source is None ==> old(g)@.nodes.len() == 0,
        1 <= weight <= MAX_STEP_COST,
    ensures
        match visit_spec::<S>(old(g)@, board@, depth as nat, source, weight, max_depth as nat) {
            Ok(gv) => r is Ok && final(g)@ == gv && final(g).wf(),
            Err(e) => r == Err::<(), SearchError>(e),
        },
    decreases max_depth - depth,
{
    proof {
        lemma_visit_keeps::<S>(old(g)@, board@, depth as nat, source, weight, max_depth as nat);
        lemma_attached::<S>(old(g)@, board@, source, weight);
    }
    let hash = board.fingerprint();
    let known = match g.table.get(&hash) {
        Some(node) => Some(*node),
        None => None,
    };
    if let Some(node) = known {
        return g.link(source, node, weight);
    }
    let ghost m = board@;
    let node = match attach(g, board, source, weight) {
        Ok(id) => id,
        Err(e) => {
            return Err(e);
        },
    };
    if depth >= max_depth {
        return Err(SearchError::TooDeep);
    }
    let ghost goal = visit_spec::<S>(
        old(g)@,
        m,
        depth as nat,
        source,
        weight,
        max_depth as nat,
    );
    let mut k: usize = 0;
    while k < ACTION_COUNT
        invariant
            k <= ACTION_COUNT,
            depth < max_depth,
            g.wf(),
            S::valid(m),
            node < g@.nodes.len(),
            g@.boards[node as int] == m,
            expand_spec::<S>(g@, m, node, depth as nat, k as nat, max_depth as nat) == goal,
            goal == visit_spec::<S>(old(g)@, m, depth as nat, source, weight, max_depth as nat),
            m == board@,
        decreases ACTION_COUNT - k,
    {
        let ghost before = g@;
        proof {
            lemma_try_keeps::<S>(before, m, node, depth as nat, k as nat, max_depth as nat);
            S::lemma_step_valid(m, Action::nth(k as nat));
            S::lemma_price_bounds(Action::nth(k as nat));
            let after = S::step(m, Action::nth(k as nat));
            if after.0 is Moved || after.0 is Victory {
                assert(leads::<S>(m, Action::nth(k as nat), S::digest(after.1)));
            }
        }
        let action = Action::from_index(k);
        let (outcome, next) = g.boards[node].apply(action);
        match outcome {
            Outcome::Blocked => {},
            Outcome::Dead => {},
            Outcome::Moved => {
                match recurse(g, next, depth + 1, Some(node), S::cost(action), max_depth) {
                    Ok(()) => {},
                    Err(e) => {
                        return Err(e);
                    },
                }
            },
            Outcome::Victory => {
                match attach(g, next, Some(node), S::cost(action)) {
                    Ok(id) => {
                        g.winners.push(id);
                    },
                    Err(e) => {
                        return Err(e);
                    },
                }
            },
        }
        k += 1;
    }
    Ok(())
}

} // verus!
