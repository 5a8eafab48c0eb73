//! Grid positions and the four actions a player can take.

use vstd::prelude::*;
use vstd::std_specs::ops::AddSpecImpl;

verus! {

/// A cell of a grid: `x` counts columns from the left, `y` rows from the top.
#[derive(Clone, Copy, Debug, PartialEq, Eq, Structural)]
pub struct Pos {
    pub x: i32,
    pub y: i32,
}

impl Pos {
    pub fn new(x: i32, y: i32) -> (p: Pos)
        ensures
            p == (Pos { x, y }),
    {
        Pos { x, y }
    }

    /// The position `delta` away from this one.
    pub open spec fn shifted(self, delta: (i32, i32)) -> Pos {
        Pos { x: (self.x + delta.0) as i32, y: (self.y + delta.1) as i32 }
    }

    /// Whether `self + delta` stays within the range of the coordinates.
    pub open spec fn can_shift(self, delta: (i32, i32)) -> bool {
        &&& i32::MIN <= self.x + delta.0 <= i32::MAX
        &&& i32::MIN <= self.y + delta.1 <= i32::MAX
    }
}

impl core::ops::Add<(i32, i32)> for Pos {
    type Output = Pos;

    fn add(self, rhs: (i32, i32)) -> (p: Pos) {
        Pos { x: self.x + rhs.0, y: self.y + rhs.1 }
    }
}

impl AddSpecImpl<(i32, i32)> for Pos {
    open spec fn obeys_add_spec() -> bool {
        true
    }

    open spec fn add_req(self, rhs: (i32, i32)) -> bool {
        self.can_shift(rhs)
    }

    open spec fn add_spec(self, rhs: (i32, i32)) -> Pos {
        self.shifted(rhs)
    }
}

/// One of the four moves of a player. The chase reads them as steps on the
/// grid, the gravity puzzle as two shifts and two rotations.
#[derive(Clone, Copy, Debug, PartialEq, Eq, Structural)]
pub enum Action {
    Left,
    Right,
    Up,
    Down,
}

/// How many actions there are.
pub const ACTION_COUNT: usize = 4;

impl Action {
    /// The place of an action in the fixed order in which a search tries them.
    pub open spec fn rank(self) -> nat {
        match self {
            Action::Left => 0,
            Action::Right => 1,
            Action::Up => 2,
            Action::Down => 3,
        }
    }

    /// The action at place `k` of the fixed order (`Down` from 3 on).
    pub open spec fn nth(k: nat) -> Action {
        if k == 0 {
            Action::Left
        } else if k == 1 {
            Action::Right
        } else if k == 2 {
            Action::Up
        } else {
            Action::Down
        }
    }

    /// The step on the grid that the action stands for in the chase.
    pub open spec fn delta(self) -> (i32, i32) {
        match self {
            Action::Left => (-1i32, 0i32),
            Action::Right => (1i32, 0i32),
            Action::Up => (0i32, -1i32),
            Action::Down => (0i32, 1i32),
        }
    }

    pub fn from_index(k: usize) -> (a: Action)
        ensures
            a == Action::nth(k as nat),
    {
        if k == 0 {
            Action::Left
        } else if k == 1 {
            Action::Right
        } else if k == 2 {
            Action::Up
        } else {
            Action::Down
        }
    }

    pub fn index(self) -> (k: usize)
        ensures
            k == self.rank(),
            k < ACTION_COUNT,
            Action::nth(k as nat) == self,
    {
        match self {
            Action::Left => 0,
            Action::Right => 1,
            Action::Up => 2,
            Action::Down => 3,
        }
    }

    pub fn offset(self) -> (d: (i32, i32))
        ensures
            d == self.delta(),
    {
        match self {
            Action::Left => (-1, 0),
            Action::Right => (1, 0),
            Action::Up => (0, -1),
            Action::Down => (0, 1),
        }
    }
}

} // verus!
