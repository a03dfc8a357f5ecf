//! Parsing a text map, and the end-to-end solver.
//!
//! The input is a rectangular block of byte lines: `#` marks a wall, `^`
//! the guard's start cell (facing up), and every other byte is floor.
//! When several start markers occur, the last one in reading order wins.

use vstd::prelude::*;
use crate::geom::{Dir, Point, Position};
use crate::grid::{Grid, has_point};
use crate::model::{GridModel, walk_at};
use crate::patrol::{
    SolveError, loop_points, simulate, start_state, visited_points,
};

verus! {

/// The byte standing for a wall cell (`#`).
pub const OBSTRUCTION_MARK: u8 = 35;

/// The byte standing for the guard's start cell (`^`).
pub const START_MARK: u8 = 94;

/// The outcome carries exactly this error.
pub open spec fn is_err<T>(r: Result<T, SolveError>, e: SolveError) -> bool {
    r matches Err(e2) && e2 == e
}

/// All rows have the first row's length.
pub open spec fn rectangular(lines: Seq<Vec<u8>>) -> bool {
    forall|i: int| 0 <= i < lines.len() ==> (#[trigger] lines[i])@.len() == lines[0]@.len()
}

/// Cell `(x, y)` of the text map is a wall.
pub open spec fn map_obs(lines: Seq<Vec<u8>>, x: int, y: int) -> bool {
    &&& 0 <= y < lines.len()
    &&& 0 <= x < lines[y]@.len()
    &&& lines[y]@[x] == OBSTRUCTION_MARK
}

/// Cell `(x, y)` of the text map carries the start marker.
pub open spec fn map_start(lines: Seq<Vec<u8>>, x: int, y: int) -> bool {
    &&& 0 <= y < lines.len()
    &&& 0 <= x < lines[y]@.len()
    &&& lines[y]@[x] == START_MARK
}

/// Some start marker stands strictly after `(x, y)` in reading order.
pub open spec fn start_after(lines: Seq<Vec<u8>>, x: int, y: int) -> bool {
    exists|x2: int, y2: int|
        #[trigger] map_start(lines, x2, y2) && (y2 > y || (y2 == y && x2 > x))
}

/// The map holds a start marker somewhere.
pub open spec fn has_start(lines: Seq<Vec<u8>>) -> bool {
    exists|x: int, y: int| map_start(lines, x, y)
}

/// The mathematical map of a rectangular text map.
pub open spec fn lines_model(lines: Seq<Vec<u8>>) -> GridModel {
    GridModel {
        width: lines[0]@.len() as int,
        height: lines.len() as int,
        obs: Set::new(|p: (int, int)| map_obs(lines, p.0, p.1)),
    }
}

/// The cell of the winning (reading-order-last) start marker.
pub open spec fn start_cell(lines: Seq<Vec<u8>>) -> (int, int) {
    choose|p: (int, int)| map_start(lines, p.0, p.1) && !start_after(lines, p.0, p.1)
}

/// The guard's initial state on a parsed text map.
pub open spec fn start_position(lines: Seq<Vec<u8>>) -> Position {
    Position {
        point: Point { x: start_cell(lines).0 as usize, y: start_cell(lines).1 as usize },
        dir: Dir::Up,
    }
}

/// There is only one reading-order-last start marker.
pub proof fn lemma_start_cell(lines: Seq<Vec<u8>>, x: int, y: int)
    requires
        map_start(lines, x, y),
        !start_after(lines, x, y),
    ensures
        start_cell(lines) == (x, y),
{
    let w: (int, int) = (x, y);
    assert(map_start(lines, w.0, w.1) && !start_after(lines, w.0, w.1));
    let p = choose|p: (int, int)| map_start(lines, p.0, p.1) && !start_after(lines, p.0, p.1);
    if p != (x, y) {
        if p.1 > y || (p.1 == y && p.0 > x) {
            assert(start_after(lines, x, y));
        } else {
            assert(y > p.1 || (y == p.1 && x > p.0));
            assert(start_after(lines, p.0, p.1));
        }
    }
}

/// Every start marker lies at or after scan position `(x, y)` in reading
/// order.
pub open spec fn no_marker_before(lines: Seq<Vec<u8>>, x: int, y: int) -> bool {
    forall|x2: int, y2: int|
        #[trigger] map_start(lines, x2, y2) ==> (y2 > y || (y2 == y && x2 >= x))
}

/// The tracked start marker is the last one before scan position
/// `(x, y)`, or there is none yet.
pub open spec fn start_tracked(lines: Seq<Vec<u8>>, start: Option<Point>, x: int, y: int) -> bool {
    match start {
        None => no_marker_before(lines, x, y),
        Some(s) => {
            &&& map_start(lines, s.x as int, s.y as int)
            &&& ((s.y as int) < y || ((s.y as int) == y && (s.x as int) < x))
            &&& forall|x2: int, y2: int|
                #[trigger] map_start(lines, x2, y2) && (y2 > s.y || (y2 == s.y && x2 > s.x)) ==> (
                y2 > y || (y2 == y && x2 >= x))
        },
    }
}

/// Read a text map: its dimensions, its wall cells, and the start cell.
/// Rejects an empty map, ragged rows, a map whose dense state indexing
/// would overflow a machine word, and a map without a start marker.
#[verifier::loop_isolation(false)]
pub fn parse_map(lines: &Vec<Vec<u8>>) -> (r: Result<
    (usize, usize, Vec<Point>, Point),
    SolveError,
>)
    ensures
        is_err(r, SolveError::EmptyInput) <==> lines@.len() == 0,
        is_err(r, SolveError::NonRectangular) <==> (lines@.len() > 0 && !rectangular(lines@)),
        is_err(r, SolveError::TooLarge) <==> (lines@.len() > 0 && rectangular(lines@) && 4 * lines@[0]@.len()
            * lines@.len() > usize::MAX),
        is_err(r, SolveError::NoStart) <==> (lines@.len() > 0 && rectangular(lines@) && 4
            * lines@[0]@.len() * lines@.len() <= usize::MAX && !has_start(lines@)),
        r matches Ok(parsed) ==> {
            &&& parsed.0 == lines@[0]@.len()
            &&& parsed.1 == lines@.len()
            &&& lines@.len() > 0
            &&& rectangular(lines@)
            &&& 4 * (parsed.0 as int) * (parsed.1 as int) <= usize::MAX
            &&& forall|x: int, y: int| has_point(parsed.2@, x, y) <==> map_obs(lines@, x, y)
            &&& map_start(lines@, parsed.3.x as int, parsed.3.y as int)
            &&& !start_after(lines@, parsed.3.x as int, parsed.3.y as int)
        },
        r is Ok || is_err(r, SolveError::EmptyInput) || is_err(r, SolveError::NonRectangular)
            || is_err(r, SolveError::TooLarge) || is_err(r, SolveError::NoStart),
{
    let height = lines.len();
    if height == 0 {
        return Err(SolveError::EmptyInput);
    }
    let width = lines[0].len();
    let mut y: usize = 0;
    while y < height
        invariant
            y <= height,
            forall|i: int| 0 <= i < y ==> (#[trigger] lines@[i])@.len() == width,
        decreases height - y,
    {
        if lines[y].len() != width {
            assert(lines@[y as int]@.len() != lines@[0]@.len());
            return Err(SolveError::NonRectangular);
        }
        y = y + 1;
    }
    assert(rectangular(lines@));
    let fits = match width.checked_mul(height) {
        None => false,
        Some(wh) => wh.checked_mul(4).is_some(),
    };
    proof {
        assert((width as int) * (height as int) * 4 == 4 * (width as int) * (height as int))
            by (nonlinear_arith);
        if (width as int) * (height as int) > usize::MAX {
            assert(4 * (width as int) * (height as int) > usize::MAX) by (nonlinear_arith)
                requires
                    (width as int) * (height as int) > usize::MAX,
            ;
        }
    }
    if !fits {
        return Err(SolveError::TooLarge);
    }
    let mut obstructions: Vec<Point> = Vec::new();
    let mut start: Option<Point> = None;
    let mut yy: usize = 0;
    while yy < height
        invariant
            yy <= height,
            forall|x2: int, y2: int| has_point(obstructions@, x2, y2) <==> (y2 < yy && map_obs(
                lines@,
                x2,
                y2,
            )),
            start_tracked(lines@, start, 0, yy as int),
        decreases height - yy,
    {
        let mut xx: usize = 0;
        while xx < width
            invariant
                xx <= width,
                forall|x2: int, y2: int| has_point(obstructions@, x2, y2) <==> ((y2 < yy
                    && map_obs(lines@, x2, y2)) || (y2 == yy && x2 < xx && map_obs(
                    lines@,
                    x2,
                    y2,
                ))),
                start_tracked(lines@, start, xx as int, yy as int),
            decreases width - xx,
        {
            let c = lines[yy][xx];
            if c == OBSTRUCTION_MARK {
                let ghost old_obs = obstructions@;
                obstructions.push(Point { x: xx, y: yy });
                proof {
                    assert forall|x2: int, y2: int| has_point(obstructions@, x2, y2) <==> ((y2
                        < yy && map_obs(lines@, x2, y2)) || (y2 == yy && x2 < xx + 1 && map_obs(
                        lines@,
                        x2,
                        y2,
                    ))) by {
                        crate::grid::lemma_has_point_push(old_obs, Point { x: xx, y: yy }, x2, y2);
                    }
                }
            } else if c == START_MARK {
                start = Some(Point { x: xx, y: yy });
            }
            xx = xx + 1;
        }
        yy = yy + 1;
    }
    match start {
        None => {
            assert(!has_start(lines@));
            Err(SolveError::NoStart)
        },
        Some(s) => {
            proof {
                if start_after(lines@, s.x as int, s.y as int) {
                    let (x2, y2) = choose|x2: int, y2: int|
                        #[trigger] map_start(lines@, x2, y2) && (y2 > s.y || (y2 == s.y && x2
                            > s.x));
                    assert(y2 < lines@.len());
                }
            }
            Ok((width, height, obstructions, s))
        },
    }
}

/// Solve a text map end to end: parse it, build the grid, run the real
/// patrol, and report the visited-cell count and the loop-candidate
/// count.
pub fn solve(lines: &Vec<Vec<u8>>) -> (r: Result<(usize, usize), SolveError>)
    ensures
        is_err(r, SolveError::EmptyInput) <==> lines@.len() == 0,
        is_err(r, SolveError::NonRectangular) <==> (lines@.len() > 0 && !rectangular(lines@)),
        is_err(r, SolveError::TooLarge) <==> (lines@.len() > 0 && rectangular(lines@) && 4 * lines@[0]@.len()
            * lines@.len() > usize::MAX),
        is_err(r, SolveError::NoStart) <==> (lines@.len() > 0 && rectangular(lines@) && 4
            * lines@[0]@.len() * lines@.len() <= usize::MAX && !has_start(lines@)),
        !is_err(r, SolveError::StartObstructed),
        r matches Ok(ans) ==> {
            &&& exists|nn: int|
                0 <= nn && walk_at(lines_model(lines@), start_position(lines@), nn) is None
            &&& ans.0 == visited_points(lines_model(lines@), start_position(lines@)).len()
            &&& ans.1 == loop_points(lines_model(lines@), start_position(lines@)).len()
        },
        is_err(r, SolveError::EndlessPatrol) ==> forall|nn: int|
            0 <= nn ==> walk_at(lines_model(lines@), start_position(lines@), nn) is Some,
        r is Ok || is_err(r, SolveError::EmptyInput) || is_err(r, SolveError::NonRectangular)
            || is_err(r, SolveError::TooLarge) || is_err(r, SolveError::NoStart) || is_err(
            r,
            SolveError::EndlessPatrol,
        ),
{
    let parsed = match parse_map(lines) {
        Err(e) => {
            return Err(e);
        },
        Ok(parsed) => parsed,
    };
    let (width, height, obstructions, s) = parsed;
    proof {
        assert forall|i: int| 0 <= i < obstructions@.len() implies (
        #[trigger] obstructions@[i]).x < width && obstructions@[i].y < height by {
            let q = obstructions@[i];
            assert(has_point(obstructions@, q.x as int, q.y as int));
            assert(map_obs(lines@, q.x as int, q.y as int));
        }
    }
    let g = Grid::new(width, height, obstructions);
    proof {
        assert forall|p: (int, int)|
            g.model().obs.contains(p) == lines_model(lines@).obs.contains(p) by {
            assert(g.obs_at(p.0, p.1) <==> map_obs(lines@, p.0, p.1));
        }
        assert(g.model().obs =~= lines_model(lines@).obs);
        assert(g.model() == lines_model(lines@));
        lemma_start_cell(lines@, s.x as int, s.y as int);
        assert(start_position(lines@) == start_state(s));
        assert(!g.model().obs.contains((s.x as int, s.y as int))) by {
            assert(!map_obs(lines@, s.x as int, s.y as int));
        }
    }
    match simulate(&g, s) {
        Ok(ans) => Ok(ans),
        Err(e) => Err(e),
    }
}

} // verus!
