//! What can be reached from a state by playing: the states still in play,
//! the states that have won, and what a search graph has to do with them.

use crate::pos::Action;
use crate::puzzle::Puzzle;
use vstd::prelude::*;

verus! {

/// The state after the actions `acts` were played from the state `s`.
pub open spec fn play<S: Puzzle>(s: S::V, acts: Seq<Action>) -> S::V
    decreases acts.len(),
{
    if acts.len() == 0 {
        s
    } else {
        S::step(play::<S>(s, acts.drop_last()), acts.last()).1
    }
}

/// Whether every one of the actions `acts`, played from `s`, moves.
pub open spec fn all_move<S: Puzzle>(s: S::V, acts: Seq<Action>) -> bool
    decreases acts.len(),
{
    acts.len() == 0 || (all_move::<S>(s, acts.drop_last()) && S::step(
        play::<S>(s, acts.drop_last()),
        acts.last(),
    ).0 is Moved)
}

/// Whether the actions `acts`, played from `s`, win: all but the last move,
/// and the last wins.
pub open spec fn wins<S: Puzzle>(s: S::V, acts: Seq<Action>) -> bool {
    &&& acts.len() > 0
    &&& all_move::<S>(s, acts.drop_last())
    &&& S::step(play::<S>(s, acts.drop_last()), acts.last()).0 is Victory
}

/// Whether the state `s` comes up when actions that move are played from
/// `root`.
pub open spec fn in_play<S: Puzzle>(root: S::V, s: S::V) -> bool {
    exists|acts: Seq<Action>| #[trigger] all_move::<S>(root, acts) && play::<S>(root, acts) == s
}

/// Whether the state `s` is one in which the game from `root` is won.
pub open spec fn won_from<S: Puzzle>(root: S::V, s: S::V) -> bool {
    exists|acts: Seq<Action>| #[trigger] wins::<S>(root, acts) && play::<S>(root, acts) == s
}

/// Whether the state `s` comes up at all when the game is played from
/// `root`.
pub open spec fn reached<S: Puzzle>(root: S::V, s: S::V) -> bool {
    in_play::<S>(root, s) || won_from::<S>(root, s)
}

/// Whether the game can be won from `root`.
pub open spec fn solvable<S: Puzzle>(root: S::V) -> bool {
    exists|acts: Seq<Action>| #[trigger] wins::<S>(root, acts)
}

/// What the actions `acts` cost together.
pub open spec fn total_price<S: Puzzle>(acts: Seq<Action>) -> int
    decreases acts.len(),
{
    if acts.len() == 0 {
        0
    } else {
        total_price::<S>(acts.drop_last()) + S::price(acts.last())
    }
}

/// Whether no action costs less than one that comes before it in the order
/// of the actions.
pub open spec fn prices_rise<S: Puzzle>() -> bool {
    forall|j: nat, k: nat|
        j <= k < 4 ==> S::price(#[trigger] Action::nth(j)) <= S::price(#[trigger] Action::nth(k))
}

/// Whether no state that comes up when the game is played from `root` is
/// both in play and won.
pub open spec fn play_or_won<S: Puzzle>(root: S::V) -> bool {
    forall|s: S::V| !(#[trigger] in_play::<S>(root, s) && won_from::<S>(root, s))
}

/// Whether the action `a` wins in the state `s` and leads to the state `t`.
pub open spec fn wins_at<S: Puzzle>(s: S::V, a: Action, t: S::V) -> bool {
    S::step(s, a).0 is Victory && S::step(s, a).1 == t
}

/// Whether every state in which the game from `root` is won is won by one
/// action in one state only: no two winning steps, from states in play, lead
/// to states with the same fingerprint.
pub open spec fn won_once<S: Puzzle>(root: S::V) -> bool {
    forall|s: S::V, a: Action, t: S::V, b: Action|
        #![trigger wins_at::<S>(s, a, S::step(s, a).1), wins_at::<S>(t, b, S::step(t, b).1)]
        in_play::<S>(root, s) && in_play::<S>(root, t) && wins_at::<S>(s, a, S::step(s, a).1)
            && wins_at::<S>(t, b, S::step(t, b).1) && S::digest(S::step(s, a).1) == S::digest(
            S::step(t, b).1,
        ) ==> s == t && a == b
}

/// Fingerprints tell the states apart that come up when the game is played
/// from `root`, and none of these states is both in play and won.
pub open spec fn told_apart<S: Puzzle>(root: S::V) -> bool {
    &&& forall|s: S::V, t: S::V|
        #![trigger reached::<S>(root, s), reached::<S>(root, t)]
        reached::<S>(root, s) && reached::<S>(root, t) && S::digest(s) == S::digest(t) ==> s == t
    &&& play_or_won::<S>(root)
}

/// The state at which play starts is in play.
pub proof fn lemma_root_in_play<S: Puzzle>(root: S::V)
    ensures
        in_play::<S>(root, root),
{
    assert(all_move::<S>(root, Seq::<Action>::empty()));
    assert(play::<S>(root, Seq::<Action>::empty()) == root);
}

/// An action that moves leads from a state in play to a state in play.
pub proof fn lemma_move_in_play<S: Puzzle>(root: S::V, s: S::V, a: Action)
    requires
        in_play::<S>(root, s),
        S::step(s, a).0 is Moved,
    ensures
        in_play::<S>(root, S::step(s, a).1),
{
    let acts = choose|acts: Seq<Action>| #[trigger]
        all_move::<S>(root, acts) && play::<S>(root, acts) == s;
    let more = acts.push(a);
    assert(more.drop_last() =~= acts);
    assert(all_move::<S>(root, more));
    assert(play::<S>(root, more) == S::step(s, a).1);
}

/// An action that wins leads from a state in play to a state that has won.
pub proof fn lemma_win_from_play<S: Puzzle>(root: S::V, s: S::V, a: Action)
    requires
        in_play::<S>(root, s),
        S::step(s, a).0 is Victory,
    ensures
        won_from::<S>(root, S::step(s, a).1),
        solvable::<S>(root),
{
    let acts = choose|acts: Seq<Action>| #[trigger]
        all_move::<S>(root, acts) && play::<S>(root, acts) == s;
    let more = acts.push(a);
    assert(more.drop_last() =~= acts);
    assert(wins::<S>(root, more));
    assert(play::<S>(root, more) == S::step(s, a).1);
}

/// A state that has won shows that the game can be won.
pub proof fn lemma_won_solvable<S: Puzzle>(root: S::V, s: S::V)
    requires
        won_from::<S>(root, s),
    ensures
        solvable::<S>(root),
{
    let acts = choose|acts: Seq<Action>| #[trigger]
        wins::<S>(root, acts) && play::<S>(root, acts) == s;
    assert(wins::<S>(root, acts));
}

/// Playing a sequence of actions is playing the first and then the rest.
pub proof fn lemma_play_front<S: Puzzle>(s: S::V, acts: Seq<Action>)
    requires
        acts.len() > 0,
    ensures
        play::<S>(s, acts) == play::<S>(S::step(s, acts[0]).1, acts.drop_first()),
        all_move::<S>(s, acts) == (S::step(s, acts[0]).0 is Moved && all_move::<S>(
            S::step(s, acts[0]).1,
            acts.drop_first(),
        )),
        total_price::<S>(acts) == S::price(acts[0]) + total_price::<S>(acts.drop_first()),
    decreases acts.len(),
{
    let t = S::step(s, acts[0]).1;
    let front = acts.drop_last();
    let rest = acts.drop_first();
    if acts.len() == 1 {
        assert(front =~= Seq::<Action>::empty());
        assert(rest =~= Seq::<Action>::empty());
        assert(acts.last() == acts[0]);
        assert(play::<S>(s, front) == s);
        assert(all_move::<S>(s, front));
        assert(all_move::<S>(t, rest));
    } else {
        lemma_play_front::<S>(s, front);
        assert(front.drop_first() =~= rest.drop_last());
        assert(front[0] == acts[0]);
        assert(rest.last() == acts.last());
        assert(play::<S>(s, front) == play::<S>(t, rest.drop_last()));
        assert(all_move::<S>(t, rest) == (all_move::<S>(t, rest.drop_last()) && S::step(
            play::<S>(t, rest.drop_last()),
            rest.last(),
        ).0 is Moved));
    }
}

/// A sequence of actions that wins is one winning action, or an action that
/// moves and a sequence that wins from where it leads.
pub proof fn lemma_wins_front<S: Puzzle>(s: S::V, acts: Seq<Action>)
    requires
        wins::<S>(s, acts),
    ensures
        acts.len() == 1 ==> S::step(s, acts[0]).0 is Victory,
        acts.len() > 1 ==> S::step(s, acts[0]).0 is Moved && wins::<S>(
            S::step(s, acts[0]).1,
            acts.drop_first(),
        ),
{
    let front = acts.drop_last();
    if acts.len() == 1 {
        assert(front =~= Seq::<Action>::empty());
    } else {
        lemma_play_front::<S>(s, front);
        assert(front[0] == acts[0]);
        assert(front.drop_first() =~= acts.drop_first().drop_last());
        assert(acts.drop_first().last() == acts.last());
    }
}

/// A sequence of actions costs at least one for each action.
pub proof fn lemma_total_price_least<S: Puzzle>(acts: Seq<Action>)
    ensures
        total_price::<S>(acts) >= acts.len(),
    decreases acts.len(),
{
    if acts.len() > 0 {
        lemma_total_price_least::<S>(acts.drop_last());
        S::lemma_price_bounds(acts.last());
    }
}

} // verus!
