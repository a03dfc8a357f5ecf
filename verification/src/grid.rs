//! The static map: dimensions plus a sparse obstruction set.
//!
//! Obstructions are stored twice, as a sorted array of row coordinates per
//! column and a sorted array of column coordinates per row, so that both
//! point queries and "nearest obstruction along an axis" queries run as
//! binary searches.

use vstd::prelude::*;
use crate::geom::{Dir, Point, Position};
use crate::model::{GridModel, target_x, target_y};
use crate::search::{seq_has, sorted, sorted_contains, lemma_seq_has_push, lemma_sorted_push};

verus! {

/// What the guard finds one step ahead: the edge of the map, a wall, or a
/// free cell to move onto.
#[derive(Clone, Copy, PartialEq, Eq, Structural, Debug)]
pub enum GridState {
    OutOfBounds,
    Obstruction,
    Point(Point),
}

/// The list of points holds the cell `(x, y)`.
pub open spec fn has_point(pts: Seq<Point>, x: int, y: int) -> bool {
    exists|i: int| 0 <= i < pts.len() && pts[i].x == x && pts[i].y == y
}

/// The static map.
pub struct Grid {
    pub width: usize,
    pub height: usize,
    pub vert_obstructions: Vec<Vec<usize>>,
    pub hor_obstructions: Vec<Vec<usize>>,
}

impl Grid {
    /// The cell `(x, y)` is a wall of this grid.
    pub open spec fn obs_at(self, x: int, y: int) -> bool {
        &&& 0 <= x < self.width
        &&& 0 <= y < self.height
        &&& seq_has(self.vert_obstructions@[x]@, y)
    }

    /// The mathematical map this grid represents.
    pub open spec fn model(self) -> GridModel {
        GridModel {
            width: self.width as int,
            height: self.height as int,
            obs: Set::new(|p: (int, int)| self.obs_at(p.0, p.1)),
        }
    }

    /// Internal invariant: both arrays cover the map, are sorted, hold
    /// only in-range coordinates, agree with each other, and the dense
    /// state indexing fits in a machine word.
    pub open spec fn wf(self) -> bool {
        &&& self.vert_obstructions@.len() == self.width
        &&& self.hor_obstructions@.len() == self.height
        &&& 4 * (self.width as int) * (self.height as int) <= usize::MAX
        &&& forall|x: int| 0 <= x < self.width ==> sorted(#[trigger] self.vert_obstructions@[x]@)
        &&& forall|y: int| 0 <= y < self.height ==> sorted(#[trigger] self.hor_obstructions@[y]@)
        &&& forall|x: int, y: int| 0 <= x < self.width && #[trigger] seq_has(
            self.vert_obstructions@[x]@,
            y,
        ) ==> 0 <= y < self.height
        &&& forall|x: int, y: int| 0 <= y < self.height && #[trigger] seq_has(
            self.hor_obstructions@[y]@,
            x,
        ) ==> 0 <= x < self.width
        &&& forall|x: int, y: int|
            #![trigger seq_has(self.vert_obstructions@[x]@, y)]
            #![trigger seq_has(self.hor_obstructions@[y]@, x)]
            0 <= x < self.width && 0 <= y < self.height ==> (seq_has(
                self.vert_obstructions@[x]@,
                y,
            ) <==> seq_has(self.hor_obstructions@[y]@, x))
    }

    /// What the map looks like one step ahead of `pos`.
    pub open spec fn step_spec(self, pos: Position) -> GridState {
        let tx = target_x(pos);
        let ty = target_y(pos);
        if !self.model().in_bounds(tx, ty) {
            GridState::OutOfBounds
        } else if self.obs_at(tx, ty) {
            GridState::Obstruction
        } else {
            GridState::Point(Point { x: tx as usize, y: ty as usize })
        }
    }
}

/// What a point list holds after a push: the old cells plus the new one.
pub proof fn lemma_has_point_push(pts: Seq<Point>, q: Point, x: int, y: int)
    ensures
        has_point(pts.push(q), x, y) <==> (has_point(pts, x, y) || (q.x == x && q.y == y)),
{
    if has_point(pts, x, y) {
        let i = choose|i: int| 0 <= i < pts.len() && pts[i].x == x && pts[i].y == y;
        assert(pts.push(q)[i] == pts[i]);
    }
    if q.x == x && q.y == y {
        assert(pts.push(q)[pts.len() as int] == q);
    }
    if has_point(pts.push(q), x, y) {
        let i = choose|i: int| 0 <= i < pts.push(q).len() && pts.push(q)[i].x == x && pts.push(
            q,
        )[i].y == y;
        if i < pts.len() {
            assert(pts[i].x == x && pts[i].y == y);
        }
    }
}

/// What `step` reports agrees with one step of the walk model.
pub proof fn lemma_step_model(g: Grid, pos: Position)
    ensures
        match g.step_spec(pos) {
            GridState::OutOfBounds => crate::model::walk_next(g.model(), pos) is None,
            GridState::Obstruction => crate::model::walk_next(g.model(), pos) == Some(
                Position { point: pos.point, dir: pos.dir.turn_spec() },
            ),
            GridState::Point(np) => crate::model::walk_next(g.model(), pos) == Some(
                Position { point: np, dir: pos.dir },
            ),
        },
{
}

/// The list of points holds the given cell.
fn contains_point(points: &Vec<Point>, x: usize, y: usize) -> (r: bool)
    ensures
        r == has_point(points@, x as int, y as int),
{
    let mut i: usize = 0;
    while i < points.len()
        invariant
            i <= points@.len(),
            forall|j: int| 0 <= j < i ==> !((#[trigger] points@[j]).x == x && points@[j].y == y),
        decreases points@.len() - i,
    {
        let p = points[i];
        if p.x == x && p.y == y {
            assert(points@[i as int].x == x && points@[i as int].y == y);
            return true;
        }
        i = i + 1;
    }
    false
}

/// The sorted row coordinates of the obstructions in column `x`.
fn column_values(points: &Vec<Point>, x: usize, height: usize) -> (col: Vec<usize>)
    ensures
        sorted(col@),
        forall|yy: int|
            #[trigger] seq_has(col@, yy) <==> (0 <= yy < height && has_point(points@, x as int, yy)),
{
    let mut col: Vec<usize> = Vec::new();
    for y in 0..height
        invariant
            sorted(col@),
            forall|k: int| 0 <= k < col@.len() ==> col@[k] < y,
            forall|yy: int|
                #[trigger] seq_has(col@, yy) <==> (0 <= yy < y && has_point(points@, x as int, yy)),
    {
        if contains_point(points, x, y) {
            let ghost old_col = col@;
            col.push(y);
            proof {
                lemma_sorted_push(old_col, y);
                assert forall|yy: int| #[trigger] seq_has(col@, yy) <==> (0 <= yy < y + 1
                    && has_point(points@, x as int, yy)) by {
                    lemma_seq_has_push(old_col, y, yy);
                }
            }
        } else {
            proof {
                assert forall|yy: int| #[trigger] seq_has(col@, yy) <==> (0 <= yy < y + 1
                    && has_point(points@, x as int, yy)) by {
                }
            }
        }
    }
    col
}

/// The sorted column coordinates of the obstructions in row `y`.
fn row_values(points: &Vec<Point>, y: usize, width: usize) -> (row: Vec<usize>)
    ensures
        sorted(row@),
        forall|xx: int|
            #[trigger] seq_has(row@, xx) <==> (0 <= xx < width && has_point(points@, xx, y as int)),
{
    let mut row: Vec<usize> = Vec::new();
    for x in 0..width
        invariant
            sorted(row@),
            forall|k: int| 0 <= k < row@.len() ==> row@[k] < x,
            forall|xx: int|
                #[trigger] seq_has(row@, xx) <==> (0 <= xx < x && has_point(points@, xx, y as int)),
    {
        if contains_point(points, x, y) {
            let ghost old_row = row@;
            row.push(x);
            proof {
                lemma_sorted_push(old_row, x);
                assert forall|xx: int| #[trigger] seq_has(row@, xx) <==> (0 <= xx < x + 1
                    && has_point(points@, xx, y as int)) by {
                    lemma_seq_has_push(old_row, x, xx);
                }
            }
        }
    }
    row
}

impl Grid {
    /// Build the map from explicit dimensions and a list of obstructed
    /// cells, all of which must lie within the bounded area.
    pub fn new(width: usize, height: usize, obstructions: Vec<Point>) -> (g: Grid)
        requires
            4 * (width as int) * (height as int) <= usize::MAX,
            forall|i: int| 0 <= i < obstructions@.len() ==> (#[trigger] obstructions@[i]).x < width
                && obstructions@[i].y < height,
        ensures
            g.wf(),
            g.width == width,
            g.height == height,
            forall|x: int, y: int| #[trigger] g.obs_at(x, y) <==> has_point(obstructions@, x, y),
    {
        let mut vert: Vec<Vec<usize>> = Vec::new();
        for x in 0..width
            invariant
                vert@.len() == x,
                forall|c: int| 0 <= c < x ==> sorted(#[trigger] vert@[c]@),
                forall|c: int, yy: int| 0 <= c < x ==> (#[trigger] seq_has(vert@[c]@, yy) <==> (0
                    <= yy < height && has_point(obstructions@, c, yy))),
        {
            let col = column_values(&obstructions, x, height);
            vert.push(col);
        }
        let mut hor: Vec<Vec<usize>> = Vec::new();
        for y in 0..height
            invariant
                hor@.len() == y,
                forall|r: int| 0 <= r < y ==> sorted(#[trigger] hor@[r]@),
                forall|r: int, xx: int| 0 <= r < y ==> (#[trigger] seq_has(hor@[r]@, xx) <==> (0
                    <= xx < width && has_point(obstructions@, xx, r))),
        {
            let row = row_values(&obstructions, y, width);
            hor.push(row);
        }
        let g = Grid { width, height, vert_obstructions: vert, hor_obstructions: hor };
        proof {
            assert forall|x: int, y: int| #[trigger] g.obs_at(x, y) <==> has_point(
                obstructions@,
                x,
                y,
            ) by {
                if has_point(obstructions@, x, y) {
                    let i = choose|i: int| 0 <= i < obstructions@.len() && obstructions@[i].x == x
                        && obstructions@[i].y == y;
                    assert(obstructions@[i].x < width && obstructions@[i].y < height);
                }
            }
        }
        g
    }

    /// The point lies within the bounded area.
    pub fn is_in_bounds(&self, point: Point) -> (r: bool)
        ensures
            r == self.model().in_bounds(point.x as int, point.y as int),
    {
        point.x < self.width && point.y < self.height
    }

    /// The point is a wall of this grid.
    pub fn is_obstruction(&self, point: Point) -> (r: bool)
        requires
            self.wf(),
            point.x < self.width,
        ensures
            r == self.obs_at(point.x as int, point.y as int),
    {
        let r = sorted_contains(&self.vert_obstructions[point.x], point.y);
        proof {
            if r {
                assert(0 <= (point.y as int) < self.height);
            }
        }
        r
    }

    /// Evaluate one step ahead of `pos`: off the map, into a wall, or onto
    /// a free cell.
    pub fn step(&self, pos: Position) -> (r: GridState)
        requires
            self.wf(),
            pos.point.x < self.width,
            pos.point.y < self.height,
        ensures
            r == self.step_spec(pos),
    {
        let p = pos.point;
        let next: Option<Point> = match pos.dir {
            Dir::Up => if p.y == 0 {
                None
            } else {
                Some(Point { x: p.x, y: p.y - 1 })
            },
            Dir::Right => if p.x + 1 >= self.width {
                None
            } else {
                Some(Point { x: p.x + 1, y: p.y })
            },
            Dir::Down => if p.y + 1 >= self.height {
                None
            } else {
                Some(Point { x: p.x, y: p.y + 1 })
            },
            Dir::Left => if p.x == 0 {
                None
            } else {
                Some(Point { x: p.x - 1, y: p.y })
            },
        };
        match next {
            None => GridState::OutOfBounds,
            Some(np) => {
                if self.is_obstruction(np) {
                    GridState::Obstruction
                } else {
                    GridState::Point(np)
                }
            },
        }
    }

    /// Dense row-major index of an in-bounds point.
    pub fn point_index(&self, point: Point) -> (r: usize)
        requires
            self.wf(),
            point.x < self.width,
            point.y < self.height,
        ensures
            r == point.y * self.width + point.x,
            4 * r + 3 < 4 * (self.width as int) * (self.height as int),
    {
        proof {
            assert(0 <= point.y * self.width + point.x && 4 * (point.y * self.width + point.x) + 3
                < 4 * (self.width as int) * (self.height as int)) by (nonlinear_arith)
                requires
                    0 <= (point.x as int) < self.width,
                    0 <= (point.y as int) < self.height,
            ;
        }
        point.y * self.width + point.x
    }
}

} // verus!
