//! Ray marching against a base grid extended by one temporary obstruction.
//!
//! A `TemporaryObstruction` borrows a base grid and adds a single extra
//! wall without touching the base data. Its `stops` query jumps straight
//! to the next turn of the walk: a binary search finds the nearest wall
//! along the current facing, and the guard's next stop is the cell just
//! before it, with the facing rotated. Each jump is proved equal to the
//! corresponding run of single steps of the walk model.

use vstd::prelude::*;
use crate::geom::{Dir, Point, Position};
use crate::grid::Grid;
use crate::model::{
    GridModel, ahead_x, ahead_y, lemma_ahead_eval, lemma_straight_run, pos_ahead,
    straight_until_exit, straight_until_turn, walk_at, walk_next,
};
use crate::search::{lower_bound, seq_has, upper_bound};

verus! {

/// A base grid seen together with one extra obstruction point. The base
/// grid is borrowed immutably and never altered.
pub struct TemporaryObstruction<'a> {
    pub grid: &'a Grid,
    pub temp_obstruction: Point,
}

impl Grid {
    /// View this grid with one extra obstruction, without copying or
    /// mutating the obstruction data.
    pub fn with_obstruction<'a>(&'a self, point: Point) -> (r: TemporaryObstruction<'a>)
        ensures
            r.grid == self,
            r.temp_obstruction == point,
    {
        TemporaryObstruction { grid: self, temp_obstruction: point }
    }
}

impl<'a> TemporaryObstruction<'a> {
    /// The extended map: the base map plus the one extra cell.
    pub open spec fn model(self) -> GridModel {
        self.grid.model().with_extra(
            (self.temp_obstruction.x as int, self.temp_obstruction.y as int),
        )
    }

    /// The base grid is well formed and the extra cell lies on the map.
    pub open spec fn wf(self) -> bool {
        &&& self.grid.wf()
        &&& self.temp_obstruction.x < self.grid.width
        &&& self.temp_obstruction.y < self.grid.height
    }

    /// Derived-grid non-mutation: the extended map differs from the
    /// borrowed base map in the one extra cell alone. Every other cell
    /// answers the obstruction query exactly as the base grid does, and
    /// the base grid itself — held only through a shared borrow — is
    /// never altered.
    pub proof fn lemma_parent_unchanged(self, q: (int, int))
        ensures
            self.model().obs.contains(
                (self.temp_obstruction.x as int, self.temp_obstruction.y as int),
            ),
            q != (self.temp_obstruction.x as int, self.temp_obstruction.y as int) ==> (
            self.model().obs.contains(q) <==> self.grid.model().obs.contains(q)),
            self.model().width == self.grid.model().width,
            self.model().height == self.grid.model().height,
    {
    }

    /// The next stop of the walk after `pos` on the extended map: the
    /// state at the next clockwise turn, or `None` if the guard instead
    /// marches off the map. Repeated calls enumerate every turn of the
    /// hypothetical patrol.
    pub fn stops(&self, pos: Position) -> (r: Option<Position>)
        requires
            self.wf(),
            self.model().valid_state(pos),
        ensures
            r matches Some(s2) ==> exists|k: int| straight_until_turn(self.model(), pos, k, s2),
            r is None ==> exists|k: int| straight_until_exit(self.model(), pos, k),
    {
        match pos.dir {
            Dir::Up => self.stop_up(pos),
            Dir::Right => self.stop_right(pos),
            Dir::Down => self.stop_down(pos),
            Dir::Left => self.stop_left(pos),
        }
    }

    fn stop_up(&self, pos: Position) -> (r: Option<Position>)
        requires
            self.wf(),
            self.model().valid_state(pos),
            pos.dir == Dir::Up,
        ensures
            r matches Some(s2) ==> exists|k: int| straight_until_turn(self.model(), pos, k, s2),
            r is None ==> exists|k: int| straight_until_exit(self.model(), pos, k),
    {
        let t = self.temp_obstruction;
        let x = pos.point.x;
        let y = pos.point.y;
        let ghost m = self.model();
        let base = lower_bound(&self.grid.vert_obstructions[x], y);
        let blocker: Option<usize> = if t.x == x && t.y < y {
            match base {
                None => Some(t.y),
                Some(b0) => if t.y > b0 {
                    Some(t.y)
                } else {
                    Some(b0)
                },
            }
        } else {
            base
        };
        proof {
            assert forall|yy: int|
                (match blocker {
                    Some(b) => b < yy < y,
                    None => 0 <= yy < y,
                }) implies !m.obs.contains((x as int, yy)) by {
                if self.grid.obs_at(x as int, yy) {
                    let i = choose|i: int|
                        0 <= i < self.grid.vert_obstructions@[x as int]@.len()
                            && self.grid.vert_obstructions@[x as int]@[i] == yy;
                    assert(self.grid.vert_obstructions@[x as int]@[i] < y);
                }
            }
        }
        match blocker {
            None => {
                proof {
                    assert forall|j: int| 1 <= j <= y implies m.in_bounds(
                        ahead_x(pos, j),
                        ahead_y(pos, j),
                    ) && !m.obs.contains((ahead_x(pos, j), ahead_y(pos, j))) by {
                        lemma_ahead_eval(pos, j);
                    }
                    lemma_straight_run(m, pos, y as int);
                    lemma_ahead_eval(pos, y as int);
                    let last = pos_ahead(pos, y as int);
                    assert(last.point.x == x && last.point.y == 0);
                    assert(walk_at(m, pos, y as int) == Some(last));
                    assert(walk_next(m, last) is None);
                    assert(walk_at(m, pos, y + 1) is None);
                    assert(straight_until_exit(m, pos, y as int));
                }
                None
            },
            Some(b) => {
                let stop = Position { point: Point { x, y: b + 1 }, dir: pos.dir.turn_right() };
                proof {
                    assert(b < y);
                    assert(m.obs.contains((x as int, b as int)));
                    let msteps = y - b - 1;
                    assert forall|j: int| 1 <= j <= msteps implies m.in_bounds(
                        ahead_x(pos, j),
                        ahead_y(pos, j),
                    ) && !m.obs.contains((ahead_x(pos, j), ahead_y(pos, j))) by {
                        lemma_ahead_eval(pos, j);
                    }
                    lemma_straight_run(m, pos, msteps);
                    lemma_ahead_eval(pos, msteps);
                    let last = pos_ahead(pos, msteps);
                    assert(last.point.x == x && last.point.y == b + 1);
                    assert(walk_at(m, pos, msteps) == Some(last));
                    assert(walk_next(m, last) == Some(stop));
                    assert(walk_at(m, pos, msteps + 1) == Some(stop));
                    assert(straight_until_turn(m, pos, msteps + 1, stop));
                }
                Some(stop)
            },
        }
    }

    fn stop_down(&self, pos: Position) -> (r: Option<Position>)
        requires
            self.wf(),
            self.model().valid_state(pos),
            pos.dir == Dir::Down,
        ensures
            r matches Some(s2) ==> exists|k: int| straight_until_turn(self.model(), pos, k, s2),
            r is None ==> exists|k: int| straight_until_exit(self.model(), pos, k),
    {
        let t = self.temp_obstruction;
        let x = pos.point.x;
        let y = pos.point.y;
        let height = self.grid.height;
        let ghost m = self.model();
        let base = upper_bound(&self.grid.vert_obstructions[x], y);
        let blocker: Option<usize> = if t.x == x && t.y > y {
            match base {
                None => Some(t.y),
                Some(b0) => if t.y < b0 {
                    Some(t.y)
                } else {
                    Some(b0)
                },
            }
        } else {
            base
        };
        proof {
            assert forall|yy: int|
                (match blocker {
                    Some(b) => y < yy < b,
                    None => y < yy < height,
                }) implies !m.obs.contains((x as int, yy)) by {
                if self.grid.obs_at(x as int, yy) {
                    let i = choose|i: int|
                        0 <= i < self.grid.vert_obstructions@[x as int]@.len()
                            && self.grid.vert_obstructions@[x as int]@[i] == yy;
                    assert(self.grid.vert_obstructions@[x as int]@[i] > y);
                }
            }
        }
        match blocker {
            None => {
                proof {
                    let msteps = height - 1 - y;
                    assert forall|j: int| 1 <= j <= msteps implies m.in_bounds(
                        ahead_x(pos, j),
                        ahead_y(pos, j),
                    ) && !m.obs.contains((ahead_x(pos, j), ahead_y(pos, j))) by {
                        lemma_ahead_eval(pos, j);
                    }
                    lemma_straight_run(m, pos, msteps);
                    lemma_ahead_eval(pos, msteps);
                    let last = pos_ahead(pos, msteps);
                    assert(last.point.x == x && last.point.y == height - 1);
                    assert(walk_at(m, pos, msteps) == Some(last));
                    assert(walk_next(m, last) is None);
                    assert(walk_at(m, pos, msteps + 1) is None);
                    assert(straight_until_exit(m, pos, msteps));
                }
                None
            },
            Some(b) => {
                let stop = Position { point: Point { x, y: b - 1 }, dir: pos.dir.turn_right() };
                proof {
                    assert(b > y);
                    assert(m.obs.contains((x as int, b as int)));
                    let msteps = b - y - 1;
                    assert forall|j: int| 1 <= j <= msteps implies m.in_bounds(
                        ahead_x(pos, j),
                        ahead_y(pos, j),
                    ) && !m.obs.contains((ahead_x(pos, j), ahead_y(pos, j))) by {
                        lemma_ahead_eval(pos, j);
                    }
                    lemma_straight_run(m, pos, msteps);
                    lemma_ahead_eval(pos, msteps);
                    let last = pos_ahead(pos, msteps);
                    assert(last.point.x == x && last.point.y == b - 1);
                    assert(walk_at(m, pos, msteps) == Some(last));
                    assert(walk_next(m, last) == Some(stop));
                    assert(walk_at(m, pos, msteps + 1) == Some(stop));
                    assert(straight_until_turn(m, pos, msteps + 1, stop));
                }
                Some(stop)
            },
        }
    }

    fn stop_right(&self, pos: Position) -> (r: Option<Position>)
        requires
            self.wf(),
            self.model().valid_state(pos),
            pos.dir == Dir::Right,
        ensures
            r matches Some(s2) ==> exists|k: int| straight_until_turn(self.model(), pos, k, s2),
            r is None ==> exists|k: int| straight_until_exit(self.model(), pos, k),
    {
        let t = self.temp_obstruction;
        let x = pos.point.x;
        let y = pos.point.y;
        let width = self.grid.width;
        let ghost m = self.model();
        let base = upper_bound(&self.grid.hor_obstructions[y], x);
        let blocker: Option<usize> = if t.y == y && t.x > x {
            match base {
                None => Some(t.x),
                Some(b0) => if t.x < b0 {
                    Some(t.x)
                } else {
                    Some(b0)
                },
            }
        } else {
            base
        };
        proof {
            assert forall|xx: int|
                (match blocker {
                    Some(b) => x < xx < b,
                    None => x < xx < width,
                }) implies !m.obs.contains((xx, y as int)) by {
                if self.grid.obs_at(xx, y as int) {
                    assert(seq_has(self.grid.hor_obstructions@[y as int]@, xx));
                    let i = choose|i: int|
                        0 <= i < self.grid.hor_obstructions@[y as int]@.len()
                            && self.grid.hor_obstructions@[y as int]@[i] == xx;
                    assert(self.grid.hor_obstructions@[y as int]@[i] > x);
                }
            }
        }
        match blocker {
            None => {
                proof {
                    let msteps = width - 1 - x;
                    assert forall|j: int| 1 <= j <= msteps implies m.in_bounds(
                        ahead_x(pos, j),
                        ahead_y(pos, j),
                    ) && !m.obs.contains((ahead_x(pos, j), ahead_y(pos, j))) by {
                        lemma_ahead_eval(pos, j);
                    }
                    lemma_straight_run(m, pos, msteps);
                    lemma_ahead_eval(pos, msteps);
                    let last = pos_ahead(pos, msteps);
                    assert(last.point.x == width - 1 && last.point.y == y);
                    assert(walk_at(m, pos, msteps) == Some(last));
                    assert(walk_next(m, last) is None);
                    assert(walk_at(m, pos, msteps + 1) is None);
                    assert(straight_until_exit(m, pos, msteps));
                }
                None
            },
            Some(b) => {
                let stop = Position { point: Point { x: b - 1, y }, dir: pos.dir.turn_right() };
                proof {
                    assert(b > x);
                    assert(seq_has(self.grid.hor_obstructions@[y as int]@, b as int) || (
                    b == t.x && y == t.y));
                    assert(m.obs.contains((b as int, y as int)));
                    let msteps = b - x - 1;
                    assert forall|j: int| 1 <= j <= msteps implies m.in_bounds(
                        ahead_x(pos, j),
                        ahead_y(pos, j),
                    ) && !m.obs.contains((ahead_x(pos, j), ahead_y(pos, j))) by {
                        lemma_ahead_eval(pos, j);
                    }
                    lemma_straight_run(m, pos, msteps);
                    lemma_ahead_eval(pos, msteps);
                    let last = pos_ahead(pos, msteps);
                    assert(last.point.x == b - 1 && last.point.y == y);
                    assert(walk_at(m, pos, msteps) == Some(last));
                    assert(walk_next(m, last) == Some(stop));
                    assert(walk_at(m, pos, msteps + 1) == Some(stop));
                    assert(straight_until_turn(m, pos, msteps + 1, stop));
                }
                Some(stop)
            },
        }
    }

    fn stop_left(&self, pos: Position) -> (r: Option<Position>)
        requires
            self.wf(),
            self.model().valid_state(pos),
            pos.dir == Dir::Left,
        ensures
            r matches Some(s2) ==> exists|k: int| straight_until_turn(self.model(), pos, k, s2),
            r is None ==> exists|k: int| straight_until_exit(self.model(), pos, k),
    {
        let t = self.temp_obstruction;
        let x = pos.point.x;
        let y = pos.point.y;
        let ghost m = self.model();
        let base = lower_bound(&self.grid.hor_obstructions[y], x);
        let blocker: Option<usize> = if t.y == y && t.x < x {
            match base {
                None => Some(t.x),
                Some(b0) => if t.x > b0 {
                    Some(t.x)
                } else {
                    Some(b0)
                },
            }
        } else {
            base
        };
        proof {
            assert forall|xx: int|
                (match blocker {
                    Some(b) => b < xx < x,
                    None => 0 <= xx < x,
                }) implies !m.obs.contains((xx, y as int)) by {
                if self.grid.obs_at(xx, y as int) {
                    assert(seq_has(self.grid.hor_obstructions@[y as int]@, xx));
                    let i = choose|i: int|
                        0 <= i < self.grid.hor_obstructions@[y as int]@.len()
                            && self.grid.hor_obstructions@[y as int]@[i] == xx;
                    assert(self.grid.hor_obstructions@[y as int]@[i] < x);
                }
            }
        }
        match blocker {
            None => {
                proof {
                    assert forall|j: int| 1 <= j <= x implies m.in_bounds(
                        ahead_x(pos, j),
                        ahead_y(pos, j),
                    ) && !m.obs.contains((ahead_x(pos, j), ahead_y(pos, j))) by {
                        lemma_ahead_eval(pos, j);
                    }
                    lemma_straight_run(m, pos, x as int);
                    lemma_ahead_eval(pos, x as int);
                    let last = pos_ahead(pos, x as int);
                    assert(last.point.x == 0 && last.point.y == y);
                    assert(walk_at(m, pos, x as int) == Some(last));
                    assert(walk_next(m, last) is None);
                    assert(walk_at(m, pos, x + 1) is None);
                    assert(straight_until_exit(m, pos, x as int));
                }
                None
            },
            Some(b) => {
                let stop = Position { point: Point { x: b + 1, y }, dir: pos.dir.turn_right() };
                proof {
                    assert(b < x);
                    assert(seq_has(self.grid.hor_obstructions@[y as int]@, b as int) || (
                    b == t.x && y == t.y));
                    assert(m.obs.contains((b as int, y as int)));
                    let msteps = x - b - 1;
                    assert forall|j: int| 1 <= j <= msteps implies m.in_bounds(
                        ahead_x(pos, j),
                        ahead_y(pos, j),
                    ) && !m.obs.contains((ahead_x(pos, j), ahead_y(pos, j))) by {
                        lemma_ahead_eval(pos, j);
                    }
                    lemma_straight_run(m, pos, msteps);
                    lemma_ahead_eval(pos, msteps);
                    let last = pos_ahead(pos, msteps);
                    assert(last.point.x == b + 1 && last.point.y == y);
                    assert(walk_at(m, pos, msteps) == Some(last));
                    assert(walk_next(m, last) == Some(stop));
                    assert(walk_at(m, pos, msteps + 1) == Some(stop));
                    assert(straight_until_turn(m, pos, msteps + 1, stop));
                }
                Some(stop)
            },
        }
    }
}

} // verus!
