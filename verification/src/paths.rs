//! Walks through a list of weighted edges, and what they cost.

use vstd::prelude::*;

verus! {

/// Whether the edges numbered by `walk`, taken one after the other, lead
/// from the node `from` to the node `to`. The empty walk stays where it is.
pub open spec fn chained(edges: Seq<(usize, usize, i32)>, walk: Seq<int>, from: int, to: int) -> bool
    decreases walk.len(),
{
    if walk.len() == 0 {
        from == to
    } else {
        &&& 0 <= walk.last() < edges.len()
        &&& edges[walk.last()].1 == to
        &&& chained(edges, walk.drop_last(), from, edges[walk.last()].0 as int)
    }
}

/// The sum of the weights along a walk.
pub open spec fn walk_cost(edges: Seq<(usize, usize, i32)>, walk: Seq<int>) -> int
    decreases walk.len(),
{
    if walk.len() == 0 {
        0
    } else {
        walk_cost(edges, walk.drop_last()) + edges[walk.last()].2
    }
}

/// The nodes that a walk from `from` passes, `from` first.
pub open spec fn walk_nodes(edges: Seq<(usize, usize, i32)>, walk: Seq<int>, from: usize) -> Seq<
    usize,
>
    decreases walk.len(),
{
    if walk.len() == 0 {
        seq![from]
    } else {
        walk_nodes(edges, walk.drop_last(), from).push(edges[walk.last()].1)
    }
}

/// Whether `found` is what a search for a cheapest walk from `start` to
/// `goal` owes: nothing where no walk leads there, and else the cost and the
/// nodes of a walk that no other walk from `start` to `goal` undercuts.
pub open spec fn is_cheapest(
    edges: Seq<(usize, usize, i32)>,
    start: usize,
    goal: usize,
    found: Option<(i32, Seq<usize>)>,
) -> bool {
    match found {
        None => forall|walk: Seq<int>| !#[trigger] chained(edges, walk, start as int, goal as int),
        Some((cost, nodes)) => {
            &&& exists|walk: Seq<int>|
                {
                    &&& #[trigger] chained(edges, walk, start as int, goal as int)
                    &&& walk_cost(edges, walk) == cost
                    &&& walk_nodes(edges, walk, start) == nodes
                }
            &&& forall|walk: Seq<int>| #[trigger]
                chained(edges, walk, start as int, goal as int) ==> cost <= walk_cost(edges, walk)
        },
    }
}

/// Every weight is at least zero, and as many of the largest as there are
/// nodes still sum to a number in the range of a cost.
pub open spec fn costs_fit(node_count: nat, edges: Seq<(usize, usize, i32)>) -> bool {
    forall|i: int|
        0 <= i < edges.len() ==> 0 <= (#[trigger] edges[i]).2 && edges[i].2 * node_count
            <= i32::MAX
}

/// A walk over a list of edges is a walk over any longer list that starts
/// with it, at the same cost and through the same nodes.
pub proof fn lemma_walk_survives(
    edges: Seq<(usize, usize, i32)>,
    more: Seq<(usize, usize, i32)>,
    walk: Seq<int>,
    from: usize,
    to: int,
)
    requires
        edges.len() <= more.len(),
        forall|i: int| 0 <= i < edges.len() ==> edges[i] == more[i],
        chained(edges, walk, from as int, to),
    ensures
        chained(more, walk, from as int, to),
        walk_cost(more, walk) == walk_cost(edges, walk),
        walk_nodes(more, walk, from) == walk_nodes(edges, walk, from),
    decreases walk.len(),
{
    if walk.len() > 0 {
        lemma_walk_survives(edges, more, walk.drop_last(), from, edges[walk.last()].0 as int);
    }
}

/// A walk can be taken one edge further.
pub proof fn lemma_walk_extend(
    edges: Seq<(usize, usize, i32)>,
    walk: Seq<int>,
    from: usize,
    e: int,
)
    requires
        0 <= e < edges.len(),
        chained(edges, walk, from as int, edges[e].0 as int),
    ensures
        chained(edges, walk.push(e), from as int, edges[e].1 as int),
        walk_cost(edges, walk.push(e)) == walk_cost(edges, walk) + edges[e].2,
        walk_nodes(edges, walk.push(e), from) == walk_nodes(edges, walk, from).push(edges[e].1),
{
    assert(walk.push(e).drop_last() =~= walk);
}

/// The nodes of a walk are one more than its edges, start with where it
/// starts and end with where it ends.
pub proof fn lemma_walk_nodes(
    edges: Seq<(usize, usize, i32)>,
    walk: Seq<int>,
    from: usize,
    to: int,
)
    requires
        chained(edges, walk, from as int, to),
    ensures
        walk_nodes(edges, walk, from).len() == walk.len() + 1,
        walk_nodes(edges, walk, from)[0] == from,
        walk_nodes(edges, walk, from).last() == to,
        forall|i: int|
            0 <= i < walk.len() ==> {
                &&& 0 <= #[trigger] walk[i] < edges.len()
                &&& edges[walk[i]].0 == walk_nodes(edges, walk, from)[i]
                &&& edges[walk[i]].1 == walk_nodes(edges, walk, from)[i + 1]
            },
    decreases walk.len(),
{
    if walk.len() > 0 {
        let front = walk.drop_last();
        lemma_walk_nodes(edges, front, from, edges[walk.last()].0 as int);
        assert forall|i: int| 0 <= i < walk.len() implies {
            &&& 0 <= #[trigger] walk[i] < edges.len()
            &&& edges[walk[i]].0 == walk_nodes(edges, walk, from)[i]
            &&& edges[walk[i]].1 == walk_nodes(edges, walk, from)[i + 1]
        } by {
            if i < front.len() {
                assert(front[i] == walk[i]);
            }
        }
    }
}

} // verus!
