//! Points, facing directions, and guard states.

use vstd::prelude::*;

verus! {

/// A grid cell, identified by its column `x` and row `y`.
#[derive(Clone, Copy, PartialEq, Eq, Structural, Debug)]
pub struct Point {
    pub x: usize,
    pub y: usize,
}

/// One of the four compass facings, cyclically ordered clockwise.
#[derive(Clone, Copy, PartialEq, Eq, Structural, Debug)]
pub enum Dir {
    Up,
    Right,
    Down,
    Left,
}

/// A guard state: the occupied cell together with the current facing.
/// This is the unit of state for cycle detection: the same point with
/// two different facings gives two distinct states.
#[derive(Clone, Copy, PartialEq, Eq, Structural, Debug)]
pub struct Position {
    pub point: Point,
    pub dir: Dir,
}

impl Dir {
    /// The next facing in clockwise order.
    pub open spec fn turn_spec(self) -> Dir {
        match self {
            Dir::Up => Dir::Right,
            Dir::Right => Dir::Down,
            Dir::Down => Dir::Left,
            Dir::Left => Dir::Up,
        }
    }

    /// The rank of this facing in the clockwise order starting at `Up`.
    pub open spec fn index_spec(self) -> int {
        match self {
            Dir::Up => 0,
            Dir::Right => 1,
            Dir::Down => 2,
            Dir::Left => 3,
        }
    }

    /// Horizontal displacement of one step in this facing.
    pub open spec fn dx(self) -> int {
        match self {
            Dir::Up => 0,
            Dir::Right => 1,
            Dir::Down => 0,
            Dir::Left => -1,
        }
    }

    /// Vertical displacement of one step in this facing.
    pub open spec fn dy(self) -> int {
        match self {
            Dir::Up => -1,
            Dir::Right => 0,
            Dir::Down => 1,
            Dir::Left => 0,
        }
    }

    /// Rotate 90 degrees clockwise.
    pub fn turn_right(self) -> (r: Dir)
        ensures
            r == self.turn_spec(),
    {
        match self {
            Dir::Up => Dir::Right,
            Dir::Right => Dir::Down,
            Dir::Down => Dir::Left,
            Dir::Left => Dir::Up,
        }
    }

    /// Combine a point's index with this facing into a dense state index.
    pub fn to_index(self, point_index: usize) -> (r: usize)
        requires
            4 * point_index + 3 <= usize::MAX,
        ensures
            r == 4 * point_index + self.index_spec(),
    {
        let d: usize = match self {
            Dir::Up => 0,
            Dir::Right => 1,
            Dir::Down => 2,
            Dir::Left => 3,
        };
        4 * point_index + d
    }
}

/// Turning always changes the facing.
pub proof fn lemma_turn_changes_dir(d: Dir)
    ensures
        d.turn_spec() != d,
{
}

} // verus!
