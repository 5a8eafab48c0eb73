//! Fixed-length sequences of actions, the order in which all of them are
//! gone through, and the search that tries every one of them.

use crate::pos::Action;
use crate::puzzle::{Outcome, Puzzle};
use vstd::arithmetic::power::{lemma_pow0, lemma_pow1, lemma_pow_positive, pow};
use vstd::prelude::*;
use vstd::string::StringExecFns;

verus! {

/// A sequence of actions.
#[derive(Debug)]
pub struct Route {
    pub r: Vec<Action>,
}

/// Goes through all routes of one length, starting from a given one.
pub struct RouteIterator {
    pub current: Route,
    pub feed_initial: bool,
}

/// A route that wins, and the index of the action that does.
#[derive(Debug)]
pub struct Winner {
    pub step: usize,
    pub route: Route,
}

impl View for Route {
    type V = Seq<Action>;

    open spec fn view(&self) -> Seq<Action> {
        self.r@
    }
}

/// The action that follows `a` where a route counts up.
pub open spec fn follower(a: Action) -> Action {
    match a {
        Action::Left => Action::Right,
        Action::Right => Action::Up,
        Action::Up => Action::Down,
        Action::Down => Action::Left,
    }
}

/// The next route after `r`, and whether there is one. A route counts up
/// like a number whose first action is the digit of least weight; after the
/// last route comes the first again, and `false`.
pub open spec fn bump(r: Seq<Action>) -> (Seq<Action>, bool)
    decreases r.len(),
{
    if r.len() == 0 {
        (r, false)
    } else if r[0] != Action::Down {
        (r.update(0, follower(r[0])), true)
    } else {
        let (rest, more) = bump(r.drop_first());
        (seq![Action::Left] + rest, more)
    }
}

/// The place of a route among the routes of its length.
pub open spec fn route_number(r: Seq<Action>) -> nat
    decreases r.len(),
{
    if r.len() == 0 {
        0
    } else {
        r[0].rank() + 4 * route_number(r.drop_first())
    }
}

/// The route of `len` times `Left`.
pub open spec fn first_route(len: nat) -> Seq<Action> {
    Seq::new(len, |i: int| Action::Left)
}

/// The letters of a route.
pub open spec fn route_letters(r: Seq<Action>) -> Seq<char> {
    Seq::new(
        r.len(),
        |i: int|
            match r[i] {
                Action::Left => 'L',
                Action::Right => 'R',
                Action::Up => 'U',
                Action::Down => 'D',
            },
    )
}

/// The index of the first action of `r` that wins when `r` is played from
/// the state `s`, counted from `at`. A blocked action changes nothing, a
/// deadly one ends the play.
pub open spec fn first_win<S: Puzzle>(s: S::V, r: Seq<Action>, at: nat) -> Option<nat>
    decreases r.len() - at,
{
    if at >= r.len() {
        None
    } else {
        match S::step(s, r[at as int]) {
            (Outcome::Victory, _) => Some(at),
            (Outcome::Dead, _) => None,
            (Outcome::Blocked, _) => first_win::<S>(s, r, at + 1),
            (Outcome::Moved, next) => first_win::<S>(next, r, at + 1),
        }
    }
}

/// The action that wins first is one of the route.
pub proof fn lemma_first_win_bound<S: Puzzle>(s: S::V, r: Seq<Action>, at: nat)
    ensures
        first_win::<S>(s, r, at) matches Some(k) ==> at <= k < r.len(),
    decreases r.len() - at,
{
    if at < r.len() {
        match S::step(s, r[at as int]) {
            (Outcome::Blocked, _) => lemma_first_win_bound::<S>(s, r, at + 1),
            (Outcome::Moved, next) => lemma_first_win_bound::<S>(next, r, at + 1),
            _ => {},
        }
    }
}

/// The first route has the number zero.
pub proof fn lemma_first_route_number(len: nat)
    ensures
        route_number(first_route(len)) == 0,
    decreases len,
{
    if len > 0 {
        assert(first_route(len).drop_first() =~= first_route((len - 1) as nat));
        lemma_first_route_number((len - 1) as nat);
    }
}

/// The number of a route is less than four to the power of its length.
pub proof fn lemma_route_number_bound(r: Seq<Action>)
    ensures
        route_number(r) < pow(4, r.len()),
    decreases r.len(),
{
    if r.len() == 0 {
        lemma_pow0(4);
    } else {
        lemma_route_number_bound(r.drop_first());
        vstd::arithmetic::power::lemma_pow_adds(4, 1, (r.len() - 1) as nat);
        lemma_pow1(4);
    }
}

/// The next route has the next number; there is none after the route with
/// the greatest number, and what then comes is the first route.
pub proof fn lemma_bump_number(r: Seq<Action>)
    ensures
        bump(r).0.len() == r.len(),
        bump(r).1 ==> route_number(bump(r).0) == route_number(r) + 1,
        !bump(r).1 ==> bump(r).0 == first_route(r.len()) && route_number(r) + 1 == pow(
            4,
            r.len(),
        ),
    decreases r.len(),
{
    if r.len() == 0 {
        lemma_pow0(4);
        assert(r =~= first_route(0));
    } else if r[0] != Action::Down {
        assert(r.update(0, follower(r[0])).drop_first() =~= r.drop_first());
    } else {
        let rest = r.drop_first();
        lemma_bump_number(rest);
        let next = seq![Action::Left] + bump(rest).0;
        assert(next.drop_first() =~= bump(rest).0);
        if !bump(rest).1 {
            assert(next =~= first_route(r.len()));
            vstd::arithmetic::power::lemma_pow_adds(4, 1, rest.len());
            lemma_pow1(4);
        }
    }
}

/// Two routes of one length with the same number are the same route.
pub proof fn lemma_route_number_tells(a: Seq<Action>, b: Seq<Action>)
    requires
        a.len() == b.len(),
        route_number(a) == route_number(b),
    ensures
        a == b,
    decreases a.len(),
{
    if a.len() > 0 {
        lemma_route_number_tells(a.drop_first(), b.drop_first());
        assert(a =~= seq![a[0]] + a.drop_first());
        assert(b =~= seq![b[0]] + b.drop_first());
    } else {
        assert(a =~= b);
    }
}

impl Clone for Route {
    fn clone(&self) -> (copy: Route)
        ensures
            copy@ == self@,
    {
        let copy = Route { r: self.r.clone() };
        assert(copy.r@ =~= self.r@);
        copy
    }
}

impl Route {
    /// The first route of the length `len`.
    pub fn new(len: usize) -> (route: Route)
        ensures
            route@ == first_route(len as nat),
    {
        let mut r: Vec<Action> = Vec::new();
        let mut i: usize = 0;
        while i < len
            invariant
                i <= len,
                r@ =~= first_route(i as nat),
            decreases len - i,
        {
            r.push(Action::Left);
            i += 1;
        }
        Route { r }
    }

    /// An iterator over this route and all that follow it.
    pub fn iter(&self) -> (it: RouteIterator)
        ensures
            it.current@ == self@,
            it.feed_initial,
    {
        RouteIterator::new(self.clone())
    }

    /// An iterator over this route and all that follow it.
    pub fn into_iter(self) -> (it: RouteIterator)
        ensures
            it.current@ == self@,
            it.feed_initial,
    {
        RouteIterator::new(self)
    }

    /// The route as letters: `L`, `R`, `U` and `D`.
    pub fn to_text(&self) -> (text: String)
        ensures
            text@ == route_letters(self@),
    {
        let mut text = String::new();
        let mut i: usize = 0;
        proof {
            reveal_strlit("L");
            reveal_strlit("R");
            reveal_strlit("U");
            reveal_strlit("D");
        }
        while i < self.r.len()
            invariant
                i <= self@.len(),
                text@ =~= route_letters(self@).take(i as int),
                "L"@ == seq!['L'],
                "R"@ == seq!['R'],
                "U"@ == seq!['U'],
                "D"@ == seq!['D'],
            decreases self@.len() - i,
        {
            match self.r[i] {
                Action::Left => text.append("L"),
                Action::Right => text.append("R"),
                Action::Up => text.append("U"),
                Action::Down => text.append("D"),
            }
            i += 1;
        }
        assert(route_letters(self@).take(self@.len() as int) =~= route_letters(self@));
        text
    }
}

impl RouteIterator {
    /// Counts the route up from the place `pos` on; tells whether a route
    /// came of it that was not there before.
    pub fn inc(&mut self, pos: usize) -> (more: bool)
        requires
            pos < old(self).current@.len(),
        ensures
            final(self).current@ == old(self).current@.take(pos as int) + bump(
                old(self).current@.skip(pos as int),
            ).0,
            more == bump(old(self).current@.skip(pos as int)).1,
            final(self).feed_initial == old(self).feed_initial,
        decreases old(self).current@.len() - pos,
    {
        let ghost before = self.current@;
        let ghost tail = before.skip(pos as int);
        assert(tail[0] == before[pos as int]);
        let c = self.current.r[pos];
        match c {
            Action::Left => {
                self.current.r.set(pos, Action::Right);
            },
            Action::Right => {
                self.current.r.set(pos, Action::Up);
            },
            Action::Up => {
                self.current.r.set(pos, Action::Down);
            },
            Action::Down => {
                self.current.r.set(pos, Action::Left);
                let ghost cleared = self.current@;
                assert(cleared.skip(pos + 1) =~= tail.drop_first());
                if pos < self.current.r.len() - 1 {
                    let more = self.inc(pos + 1);
                    assert(self.current@ =~= before.take(pos as int) + (seq![Action::Left] + bump(
                        tail.drop_first(),
                    ).0));
                    if !more {
                        return false;
                    }
                } else {
                    assert(tail.drop_first() =~= Seq::<Action>::empty());
                    assert(self.current@ =~= before.take(pos as int) + (seq![Action::Left] + bump(
                        tail.drop_first(),
                    ).0));
                    return false;
                }
                return true;
            },
        }
        assert(self.current@ =~= before.take(pos as int) + tail.update(0, follower(tail[0])));
        true
    }

    /// Goes on to the next route; tells whether there is one.
    pub fn advance(&mut self) -> (more: bool)
        requires
            old(self).current@.len() > 0,
        ensures
            (final(self).current@, more) == bump(old(self).current@),
            final(self).feed_initial == old(self).feed_initial,
    {
        assert(self.current@.skip(0) =~= self.current@);
        assert(self.current@.take(0) =~= Seq::<Action>::empty());
        let more = self.inc(0);
        assert(self.current@ =~= bump(old(self).current@).0);
        more
    }

    pub fn new(r: Route) -> (it: RouteIterator)
        ensures
            it.current == r,
            it.feed_initial,
    {
        RouteIterator { current: r, feed_initial: true }
    }

    /// The route to try next: first the one the iterator was made with, then
    /// each that follows, and `None` after the last.
    pub fn next(&mut self) -> (item: Option<Route>)
        ensures
            !final(self).feed_initial,
            old(self).feed_initial ==> final(self).current@ == old(self).current@ && (
            item matches Some(route) && route@ == old(self).current@),
            !old(self).feed_initial ==> final(self).current@ == bump(old(self).current@).0 && (
            match item {
                Some(route) => bump(old(self).current@).1 && route@ == final(self).current@,
                None => !bump(old(self).current@).1,
            }),
    {
        if self.feed_initial {
            self.feed_initial = false;
            return Some(self.current.clone());
        }
        if self.current.r.len() == 0 {
            return None;
        }
        if self.advance() {
            Some(self.current.clone())
        } else {
            None
        }
    }
}

/// Plays `route` from the state `board` and gives the index of the first
/// action that wins, if any does.
pub fn first_victory<S: Puzzle>(board: &S, route: &Route) -> (step: Option<usize>)
    requires
        S::valid(board@),
    ensures
        match step {
            Some(k) => first_win::<S>(board@, route@, 0) == Some(k as nat),
            None => first_win::<S>(board@, route@, 0).is_none(),
        },
{
    let mut current = board.snapshot();
    let mut index: usize = 0;
    while index < route.r.len()
        invariant
            index <= route@.len(),
            S::valid(current@),
            first_win::<S>(current@, route@, index as nat) == first_win::<S>(board@, route@, 0),
        decreases route@.len() - index,
    {
        proof {
            S::lemma_step_valid(current@, route@[index as int]);
        }
        let (outcome, next) = current.apply(route.r[index]);
        match outcome {
            Outcome::Victory => {
                return Some(index);
            },
            Outcome::Dead => {
                return None;
            },
            Outcome::Blocked => {},
            Outcome::Moved => {
                current = next;
            },
        }
        index += 1;
    }
    None
}

impl Winner {
    /// Whether a route that wins at `step` takes the place of the best
    /// winner so far: it does where there is none yet or it wins earlier.
    pub fn beaten_by(best: &Option<Winner>, step: usize) -> (beaten: bool)
        ensures
            beaten == match *best {
                None => true,
                Some(w) => step < w.step,
            },
    {
        match best {
            None => true,
            Some(w) => step < w.step,
        }
    }
}

/// Whether `best` is what the routes of the length `len` with a number below
/// `upto` have to show: a winner that none of them beats and that every
/// route before it loses to, or nothing if none of them wins.
pub open spec fn best_below<S: Puzzle>(
    s: S::V,
    len: nat,
    upto: nat,
    best: Option<(nat, Seq<Action>)>,
) -> bool {
    match best {
        None => forall|r: Seq<Action>|
            r.len() == len && route_number(r) < upto ==> (#[trigger] first_win::<S>(
                s,
                r,
                0,
            )).is_none(),
        Some((step, route)) => {
            &&& route.len() == len
            &&& route_number(route) < upto
            &&& first_win::<S>(s, route, 0) == Some(step)
            &&& forall|r: Seq<Action>|
                r.len() == len && route_number(r) < upto ==> (#[trigger] first_win::<S>(
                    s,
                    r,
                    0,
                ) matches Some(k) ==> step <= k && (route_number(r) < route_number(route)
                    ==> step < k))
        },
    }
}

/// A winner as plain mathematics.
pub open spec fn winner_view(best: Option<Winner>) -> Option<(nat, Seq<Action>)> {
    match best {
        None => None,
        Some(w) => Some((w.step as nat, w.route@)),
    }
}

/// Tries every route of the length `len` from the state `board`, in their
/// order, and gives one that wins earliest, the first such one; or nothing
/// if none wins.
pub fn brute_force<S: Puzzle>(board: &S, len: usize) -> (best: Option<Winner>)
    requires
        S::valid(board@),
    ensures
        best_below::<S>(board@, len as nat, pow(4, len as nat) as nat, winner_view(best)),
{
    let mut it = Route::new(len).into_iter();
    let mut best: Option<Winner> = None;
    proof {
        lemma_first_route_number(len as nat);
        lemma_pow_positive(4, len as nat);
    }
    let mut item = it.next();
    let ghost mut tried: nat = 0;
    loop
        invariant
            S::valid(board@),
            !it.feed_initial,
            it.current@.len() == len,
            tried <= pow(4, len as nat),
            best_below::<S>(board@, len as nat, tried, winner_view(best)),
            match item {
                Some(route) => route@ == it.current@ && route_number(route@) == tried,
                None => tried == pow(4, len as nat),
            },
        ensures
            tried == pow(4, len as nat),
        decreases pow(4, len as nat) - tried,
    {
        let route = match item {
            Some(route) => route,
            None => {
                break ;
            },
        };
        let ghost before = winner_view(best);
        proof {
            lemma_route_number_bound(route@);
            lemma_bump_number(route@);
        }
        match first_victory(board, &route) {
            Some(step) => {
                if Winner::beaten_by(&best, step) {
                    best = Some(Winner { step, route });
                }
            },
            None => {},
        }
        proof {
            let cur = it.current@;
            let after = winner_view(best);
            assert forall|r: Seq<Action>| r.len() == len && route_number(r) < tried + 1 implies (
            match after {
                None => (#[trigger] first_win::<S>(board@, r, 0)).is_none(),
                Some((step, route)) => first_win::<S>(board@, r, 0) matches Some(k) ==> step <= k
                    && (route_number(r) < route_number(route) ==> step < k),
            }) by {
                if route_number(r) == tried {
                    lemma_route_number_tells(r, cur);
                }
            }
            tried = tried + 1;
        }
        item = it.next();
    }
    best
}

} // verus!
