//! What a search needs to know of a puzzle: how a state answers an action,
//! what an action costs, and a fingerprint by which states are told apart.

use crate::board::{lemma_holds_bounds, Board, BoardView};
use crate::digest::{byte_digest, fingerprint_bytes, fingerprint_glyphs, glyph_digest};
use crate::gravity::{
    lemma_tick_tensor_targets, lemma_tick_tensor_wf, tick_tensor, tick_tensor_spec,
    TickOutcomeTensor,
};
use crate::tensor::{cell, BoardTensor, TensorView, AVATAR};
use crate::game::{
    lemma_tick_exit, lemma_tick_keeps_wf, lemma_tick_player, tick, tick_spec, MoveOutcome,
    TickOutcome,
};
use crate::pos::Action;
use crate::reach::{all_move, in_play, play, play_or_won, prices_rise, wins, won_from};
use vstd::prelude::*;

verus! {

/// No action costs more than this.
pub const MAX_STEP_COST: i32 = 16;

/// What an action does to a state.
#[derive(Clone, Copy, Debug, PartialEq, Eq, Structural)]
pub enum Outcome {
    /// The action has no effect.
    Blocked,
    /// The action leads to another state, from which the game goes on.
    Moved,
    /// The action loses the game.
    Dead,
    /// The action wins the game.
    Victory,
}

/// A puzzle that a search can explore. The view of a value is the state as
/// plain mathematics; `step` is the transition function over it.
pub trait Puzzle: View + Sized {
    /// The states that the transition function is defined on.
    spec fn valid(s: Self::V) -> bool;

    /// The outcome of the action `a` in the state `s`, and the state after it.
    spec fn step(s: Self::V, a: Action) -> (Outcome, Self::V);

    /// The fingerprint of a state.
    spec fn digest(s: Self::V) -> u64;

    /// What the action `a` costs.
    spec fn price(a: Action) -> int;

    /// An action leads from a valid state to a valid state.
    proof fn lemma_step_valid(s: Self::V, a: Action)
        requires
            Self::valid(s),
        ensures
            Self::valid(Self::step(s, a).1),
    ;

    /// A blocked action leaves the state as it is; an action that moves
    /// leads to another state.
    proof fn lemma_step_changes(s: Self::V, a: Action)
        requires
            Self::valid(s),
        ensures
            Self::step(s, a).0 is Blocked ==> Self::step(s, a).1 == s,
            Self::step(s, a).0 is Moved ==> Self::step(s, a).1 != s,
    ;

    /// Every action has a cost of at least one and at most `MAX_STEP_COST`.
    proof fn lemma_price_bounds(a: Action)
        ensures
            1 <= Self::price(a) <= MAX_STEP_COST,
    ;

    /// Applies the action `a` to a copy of this state.
    fn apply(&self, a: Action) -> (r: (Outcome, Self))
        requires
            Self::valid(self@),
        ensures
            (r.0, r.1@) == Self::step(self@, a),
    ;

    fn fingerprint(&self) -> (h: u64)
        ensures
            h == Self::digest(self@),
    ;

    fn cost(a: Action) -> (c: i32)
        ensures
            c == Self::price(a),
    ;

    /// A copy of this state.
    fn snapshot(&self) -> (copy: Self)
        ensures
            copy@ == self@,
    ;
}

/// The outcome of a turn of the chase, as a search reads it.
pub open spec fn chase_outcome(t: TickOutcome) -> Outcome {
    match t {
        TickOutcome::Dead => Outcome::Dead,
        TickOutcome::Victory => Outcome::Victory,
        TickOutcome::Alive(MoveOutcome::Moved(_)) => Outcome::Moved,
        TickOutcome::Alive(MoveOutcome::NotMoved) => Outcome::Blocked,
    }
}

impl Puzzle for Board {
    open spec fn valid(s: Self::V) -> bool {
        s.wf()
    }

    open spec fn step(s: Self::V, a: Action) -> (Outcome, Self::V) {
        (chase_outcome(tick_spec(s, a.delta()).1), tick_spec(s, a.delta()).0)
    }

    open spec fn digest(s: Self::V) -> u64 {
        glyph_digest(s.tiles)
    }

    open spec fn price(a: Action) -> int {
        1
    }

    proof fn lemma_step_valid(s: Self::V, a: Action) {
        lemma_tick_keeps_wf(s, a.delta());
    }

    proof fn lemma_step_changes(s: Self::V, a: Action) {
        lemma_tick_player(s, a.delta());
        lemma_holds_bounds(s, s.player);
    }

    proof fn lemma_price_bounds(a: Action) {
    }

    fn apply(&self, a: Action) -> (r: (Outcome, Self)) {
        let mut next = self.clone();
        proof {
            lemma_holds_bounds(self@, self@.player);
        }
        let outcome = match tick(&mut next, a.offset()) {
            TickOutcome::Dead => Outcome::Dead,
            TickOutcome::Victory => Outcome::Victory,
            TickOutcome::Alive(MoveOutcome::Moved(_)) => Outcome::Moved,
            TickOutcome::Alive(MoveOutcome::NotMoved) => Outcome::Blocked,
        };
        (outcome, next)
    }

    fn fingerprint(&self) -> (h: u64) {
        fingerprint_glyphs(&self.tiles)
    }

    fn cost(a: Action) -> (c: i32) {
        1
    }

    fn snapshot(&self) -> (copy: Self) {
        self.clone()
    }
}

/// Whether two lists hold the same bytes.
pub fn same_bytes(a: &Vec<u8>, b: &Vec<u8>) -> (same: bool)
    ensures
        same == (a@ == b@),
{
    if a.len() != b.len() {
        return false;
    }
    let mut i: usize = 0;
    while i < a.len()
        invariant
            a@.len() == b@.len(),
            i <= a@.len(),
            forall|j: int| 0 <= j < i ==> a@[j] == b@[j],
        decreases a@.len() - i,
    {
        if a[i] != b[i] {
            return false;
        }
        i += 1;
    }
    assert(a@ =~= b@);
    true
}

impl Puzzle for BoardTensor {
    open spec fn valid(s: Self::V) -> bool {
        s.wf()
    }

    /// An action that wins, wins; one that leaves every byte where it was
    /// is blocked; any other moves.
    open spec fn step(s: Self::V, a: Action) -> (Outcome, Self::V) {
        let (after, ended) = tick_tensor_spec(s, a);
        (
            if ended is Victory {
                Outcome::Victory
            } else if after.tiles == s.tiles {
                Outcome::Blocked
            } else {
                Outcome::Moved
            },
            after,
        )
    }

    open spec fn digest(s: Self::V) -> u64 {
        byte_digest(s.tiles)
    }

    /// A shift costs one, a turn of the board two.
    open spec fn price(a: Action) -> int {
        match a {
            Action::Left => 1,
            Action::Right => 1,
            Action::Up => 2,
            Action::Down => 2,
        }
    }

    proof fn lemma_step_valid(s: Self::V, a: Action) {
        lemma_tick_tensor_wf(s, a);
    }

    proof fn lemma_step_changes(s: Self::V, a: Action) {
        lemma_tick_tensor_wf(s, a);
        let after = tick_tensor_spec(s, a).0;
        if after.tiles == s.tiles {
            assert(s.tiles[cell(s.player)] == AVATAR);
            assert(after.tiles[cell(after.player)] == AVATAR);
            assert(cell(after.player) == cell(s.player));
        }
    }

    proof fn lemma_price_bounds(a: Action) {
    }

    fn apply(&self, a: Action) -> (r: (Outcome, Self)) {
        let mut next = self.clone();
        next.transitioned_via = Some(a);
        let outcome = match tick_tensor(&mut next, a) {
            TickOutcomeTensor::Victory => Outcome::Victory,
            TickOutcomeTensor::Continue => if same_bytes(&next.tiles, &self.tiles) {
                Outcome::Blocked
            } else {
                Outcome::Moved
            },
        };
        (outcome, next)
    }

    fn fingerprint(&self) -> (h: u64) {
        fingerprint_bytes(&self.tiles)
    }

    fn cost(a: Action) -> (c: i32) {
        match a {
            Action::Left => 1,
            Action::Right => 1,
            Action::Up => 2,
            Action::Down => 2,
        }
    }

    fn snapshot(&self) -> (copy: Self) {
        self.clone()
    }
}

/// In the chase no action costs less than one before it: all cost one.
pub proof fn lemma_chase_prices_rise()
    ensures
        prices_rise::<Board>(),
{
}

/// In the gravity puzzle no action costs less than one before it: the
/// shifts come first and cost one, the turns cost two.
pub proof fn lemma_tensor_prices_rise()
    ensures
        prices_rise::<BoardTensor>(),
{
}

/// In the chase, play keeps the exit where it is, and the player off the
/// exit as long as every action moves.
pub proof fn lemma_chase_play(root: BoardView, acts: Seq<Action>)
    requires
        root.player != root.exit,
    ensures
        play::<Board>(root, acts).exit == root.exit,
        all_move::<Board>(root, acts) ==> play::<Board>(root, acts).player != root.exit,
        wins::<Board>(root, acts) ==> play::<Board>(root, acts).player == root.exit,
    decreases acts.len(),
{
    if acts.len() > 0 {
        let front = acts.drop_last();
        lemma_chase_play(root, front);
        let before = play::<Board>(root, front);
        lemma_tick_player(before, acts.last().delta());
        lemma_tick_exit(before, acts.last().delta());
    }
}

/// On a chase board whose player does not start on the exit, no state is
/// both in play and won.
pub proof fn lemma_chase_play_or_won(root: BoardView)
    requires
        root.player != root.exit,
    ensures
        play_or_won::<Board>(root),
{
    assert forall|s: BoardView| !(#[trigger] in_play::<Board>(root, s) && won_from::<Board>(
        root,
        s,
    )) by {
        if in_play::<Board>(root, s) && won_from::<Board>(root, s) {
            let moving = choose|acts: Seq<Action>| #[trigger]
                all_move::<Board>(root, acts) && play::<Board>(root, acts) == s;
            let winning = choose|acts: Seq<Action>| #[trigger]
                wins::<Board>(root, acts) && play::<Board>(root, acts) == s;
            lemma_chase_play(root, moving);
            lemma_chase_play(root, winning);
        }
    }
}

/// In the gravity puzzle, play keeps targets on the board as long as every
/// action moves, and has none left when it has won.
pub proof fn lemma_tensor_play(root: TensorView, acts: Seq<Action>)
    requires
        root.targets > 0,
    ensures
        all_move::<BoardTensor>(root, acts) ==> play::<BoardTensor>(root, acts).targets > 0,
        wins::<BoardTensor>(root, acts) ==> play::<BoardTensor>(root, acts).targets == 0,
    decreases acts.len(),
{
    if acts.len() > 0 {
        let front = acts.drop_last();
        lemma_tensor_play(root, front);
        let before = play::<BoardTensor>(root, front);
        lemma_tick_tensor_targets(before, acts.last());
    }
}

/// On a board of the gravity puzzle that has a target, no state is both in
/// play and won.
pub proof fn lemma_tensor_play_or_won(root: TensorView)
    requires
        root.targets > 0,
    ensures
        play_or_won::<BoardTensor>(root),
{
    assert forall|s: TensorView| !(#[trigger] in_play::<BoardTensor>(root, s) && won_from::<
        BoardTensor,
    >(root, s)) by {
        if in_play::<BoardTensor>(root, s) && won_from::<BoardTensor>(root, s) {
            let moving = choose|acts: Seq<Action>| #[trigger]
                all_move::<BoardTensor>(root, acts) && play::<BoardTensor>(root, acts) == s;
            let winning = choose|acts: Seq<Action>| #[trigger]
                wins::<BoardTensor>(root, acts) && play::<BoardTensor>(root, acts) == s;
            lemma_tensor_play(root, moving);
            lemma_tensor_play(root, winning);
        }
    }
}

} // verus!
