//! The entry point of the solver: one puzzle, one of three strategies.

use crate::bound::{bound_search_spec, solve_bounded};
use crate::pos::Action;
use crate::puzzle::{Outcome, Puzzle, MAX_STEP_COST};
use crate::reach::total_price;
use crate::route::{best_below, brute_force, winner_view, Winner};
use crate::solve::{route_solution, solve_exhaustive, solve_spec, Solution, SolutionView};
use crate::store::SearchError;
use crate::tensor::BoardTensor;
use vstd::arithmetic::power::pow;
use vstd::prelude::*;

verus! {

/// The longest routes that the search through all routes takes on.
pub const MAX_ROUTE_LENGTH: usize = 0x7ff_ffff;

/// How to search.
#[derive(Clone, Copy, Debug, PartialEq, Eq, Structural)]
pub enum Strategy {
    /// Visit every state that can be reached, each once.
    Exhaustive,
    /// Follow the actions depth first and leave what cannot beat the best.
    BranchAndBound,
    /// Try every sequence of actions of one length.
    BruteForce,
}

/// A strategy and its limits.
#[derive(Clone, Copy, Debug)]
pub struct StrategyConfig {
    pub strategy: Strategy,
    /// The depth at which the exhaustive search gives up and beyond which
    /// branch and bound does not look.
    pub max_depth: usize,
    /// The cost at which branch and bound leaves a branch, if any.
    pub max_score: Option<i32>,
    /// The length of the sequences that the brute-force search tries.
    pub length: usize,
}

/// The state after the action `a` in the state `s`, where a blocked action
/// leaves the state as it is.
pub open spec fn after<S: Puzzle>(s: S::V, a: Action) -> S::V {
    match S::step(s, a) {
        (Outcome::Blocked, _) => s,
        (_, next) => next,
    }
}

/// The states that playing `acts` from `s` passes, `s` first.
pub open spec fn trail<S: Puzzle>(s: S::V, acts: Seq<Action>) -> Seq<S::V>
    decreases acts.len(),
{
    if acts.len() == 0 {
        seq![s]
    } else {
        let before = trail::<S>(s, acts.drop_last());
        before.push(after::<S>(before.last(), acts.last()))
    }
}

/// The solution that a winning route stands for: its actions up to the one
/// that wins, the states they pass, and what they cost. It names no nodes.
pub open spec fn winner_solution_spec<S: Puzzle>(s: S::V, step: nat, route: Seq<Action>) -> SolutionView<
    S::V,
> {
    let acts = route.take(step as int + 1);
    SolutionView {
        cost: total_price::<S>(acts),
        nodes: Seq::empty(),
        states: trail::<S>(s, acts),
        actions: acts,
    }
}

/// The trail of valid states is one longer than the actions and holds valid
/// states only; the actions cost no more than the most for each.
pub proof fn lemma_trail<S: Puzzle>(s: S::V, acts: Seq<Action>)
    requires
        S::valid(s),
    ensures
        trail::<S>(s, acts).len() == acts.len() + 1,
        forall|i: int| 0 <= i <= acts.len() ==> S::valid(#[trigger] trail::<S>(s, acts)[i]),
        0 <= total_price::<S>(acts) <= acts.len() * MAX_STEP_COST,
    decreases acts.len(),
{
    if acts.len() > 0 {
        lemma_trail::<S>(s, acts.drop_last());
        let before = trail::<S>(s, acts.drop_last());
        S::lemma_step_valid(before.last(), acts.last());
        S::lemma_price_bounds(acts.last());
        assert(acts.len() * MAX_STEP_COST == (acts.len() - 1) * MAX_STEP_COST + MAX_STEP_COST)
            by (nonlinear_arith);
    }
}

/// The solution that the winner `winner` of a search from `board` stands
/// for.
pub fn winner_solution<S: Puzzle>(board: &S, winner: &Winner) -> (solution: Solution<S>)
    requires
        S::valid(board@),
        winner.step < winner.route@.len(),
        winner.step < MAX_ROUTE_LENGTH,
    ensures
        solution@ == winner_solution_spec::<S>(board@, winner.step as nat, winner.route@),
{
    let mut states: Vec<S> = Vec::new();
    let mut actions: Vec<Action> = Vec::new();
    let mut cost: i32 = 0;
    states.push(board.snapshot());
    let mut i: usize = 0;
    let ghost route = winner.route@;
    assert(route.take(0) =~= Seq::<Action>::empty());
    while i <= winner.step
        invariant
            S::valid(board@),
            route == winner.route@,
            winner.step < route.len(),
            winner.step < MAX_ROUTE_LENGTH,
            i <= winner.step + 1,
            actions@ == route.take(i as int),
            states@.len() == i + 1,
            Seq::new(states@.len(), |j: int| states@[j]@) == trail::<S>(board@, actions@),
            cost == total_price::<S>(actions@),
        decreases winner.step + 1 - i,
    {
        let action = winner.route.r[i];
        proof {
            lemma_trail::<S>(board@, actions@);
            lemma_trail::<S>(board@, actions@.push(action));
            assert(actions@.push(action).drop_last() =~= actions@);
            assert(route.take(i + 1) =~= route.take(i as int).push(action));
            assert(trail::<S>(board@, actions@)[i as int] == states@[i as int]@);
            assert((i + 1) * MAX_STEP_COST <= 0x7ff_ffff * 16) by (nonlinear_arith)
                requires
                    i + 1 <= 0x7ff_ffff,
                    MAX_STEP_COST == 16,
            ;
            S::lemma_price_bounds(action);
        }
        let ghost before = Seq::new(states@.len(), |j: int| states@[j]@);
        let (outcome, next) = states[i].apply(action);
        let landed = match outcome {
            Outcome::Blocked => states[i].snapshot(),
            _ => next,
        };
        cost = cost + S::cost(action);
        states.push(landed);
        actions.push(action);
        assert(Seq::new(states@.len(), |j: int| states@[j]@) =~= before.push(
            after::<S>(before.last(), action),
        ));
        i += 1;
    }
    assert(route.take(winner.step + 1) == actions@);
    let solution = Solution { cost, nodes: Vec::new(), states, actions };
    assert(solution@.states =~= trail::<S>(board@, actions@));
    solution
}

/// What `solve` owes for the state `root` under the configuration `config`.
pub open spec fn solve_owes<S: Puzzle>(
    root: S::V,
    config: StrategyConfig,
    r: Result<Option<SolutionView<S::V>>, SearchError>,
) -> bool {
    match config.strategy {
        Strategy::Exhaustive => r == solve_spec::<S>(root, config.max_depth as nat),
        Strategy::BranchAndBound => match bound_search_spec::<S>(
            root,
            config.max_depth as nat,
            config.max_score,
        ) {
            Err(e) => r == Err::<Option<SolutionView<S::V>>, SearchError>(e),
            Ok((_, None)) => r == Ok::<Option<SolutionView<S::V>>, SearchError>(None),
            Ok((g, Some(route))) => r == Ok::<Option<SolutionView<S::V>>, SearchError>(
                Some(route_solution::<S>(g, route)),
            ),
        },
        Strategy::BruteForce => if config.length > MAX_ROUTE_LENGTH {
            r == Err::<Option<SolutionView<S::V>>, SearchError>(SearchError::TooDeep)
        } else {
            match r {
                Err(_) => false,
                Ok(None) => best_below::<S>(
                    root,
                    config.length as nat,
                    pow(4, config.length as nat) as nat,
                    None,
                ),
                Ok(Some(s)) => exists|step: nat, route: Seq<Action>|
                    {
                        &&& #[trigger] best_below::<S>(
                            root,
                            config.length as nat,
                            pow(4, config.length as nat) as nat,
                            Some((step, route)),
                        )
                        &&& s == winner_solution_spec::<S>(root, step, route)
                    },
            }
        },
    }
}

/// A result of `solve` as plain mathematics.
pub open spec fn solved_view<S: Puzzle>(r: Result<Option<Solution<S>>, SearchError>) -> Result<
    Option<SolutionView<S::V>>,
    SearchError,
> {
    match r {
        Err(e) => Err(e),
        Ok(None) => Ok(None),
        Ok(Some(s)) => Ok(Some(s@)),
    }
}

/// Looks for a way to win from `initial` with the strategy of `config`.
pub fn solve<S: Puzzle>(initial: S, config: StrategyConfig) -> (r: Result<
    Option<Solution<S>>,
    SearchError,
>)
    requires
        S::valid(initial@),
    ensures
        solve_owes::<S>(initial@, config, solved_view(r)),
{
    match config.strategy {
        Strategy::Exhaustive => solve_exhaustive(initial, config.max_depth),
        Strategy::BranchAndBound => solve_bounded(initial, config.max_depth, config.max_score),
        Strategy::BruteForce => {
            if config.length > MAX_ROUTE_LENGTH {
                return Err(SearchError::TooDeep);
            }
            match brute_force(&initial, config.length) {
                None => Ok(None),
                Some(winner) => {
                    proof {
                        crate::route::lemma_first_win_bound::<S>(initial@, winner.route@, 0);
                    }
                    let solution = winner_solution(&initial, &winner);
                    Ok(Some(solution))
                },
            }
        },
    }
}

/// Tries every route of the length `len` on the board of a gravity puzzle
/// and gives one that wins earliest, if any wins.
pub fn auto_play_tensor(board: &BoardTensor, len: usize) -> (best: Option<Winner>)
    requires
        board.wf(),
    ensures
        best_below::<BoardTensor>(
            board@,
            len as nat,
            pow(4, len as nat) as nat,
            winner_view(best),
        ),
{
    brute_force(board, len)
}

} // verus!
