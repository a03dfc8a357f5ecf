//! The patrol simulator and its driver.
//!
//! `simulate` walks the real guard one step at a time, marking every
//! occupied state and cell. Immediately before stepping onto a cell for
//! the first time it asks the loop detector whether an obstruction there
//! would trap the guard, caching one verdict per cell. It returns the
//! number of distinct cells the real patrol visits and the number of
//! cells whose hypothetical obstruction makes the patrol loop.

use vstd::prelude::*;
use vstd::set_lib::{lemma_int_range, lemma_len_subset, set_int_range};
use crate::detector::{
    Status, array_states, detects, resolve_candidate, false_vec, state_at,
};
use crate::geom::{Dir, Point, Position};
use crate::grid::{Grid, GridState, lemma_step_model};
use crate::model::{
    GridModel, lemma_point_index_bounds, lemma_point_index_injective, lemma_state_index_bounds,
    lemma_state_index_injective, lemma_repeat_walks_forever, lemma_walk_none, lemma_walk_valid,
    state_index, walk_at,
};

verus! {

/// Why a map could not be simulated.
#[derive(Clone, Copy, PartialEq, Eq, Structural, Debug)]
pub enum SolveError {
    /// The input held no lines at all.
    EmptyInput,
    /// Two input rows had different lengths.
    NonRectangular,
    /// No `^` start marker was found.
    NoStart,
    /// The dense state indexing of the map would not fit in a machine word.
    TooLarge,
    /// The start cell is itself an obstruction.
    StartObstructed,
    /// The real patrol revisited a state and thus never leaves the map.
    EndlessPatrol,
}

/// The guard's initial state: the start cell, facing up.
pub open spec fn start_state(start: Point) -> Position {
    Position { point: start, dir: Dir::Up }
}

/// Every cell the walk from `s0` ever occupies.
pub open spec fn visited_points(m: GridModel, s0: Position) -> Set<(int, int)> {
    Set::new(
        |p: (int, int)|
            exists|j: int|
                0 <= j && (#[trigger] walk_at(m, s0, j) matches Some(s) && s.point.x == p.0
                    && s.point.y == p.1),
    )
}

/// Every state the walk occupies within its first `n` steps.
pub open spec fn states_upto(m: GridModel, s0: Position, n: int) -> Set<Position> {
    Set::new(|s: Position| exists|j: int| 0 <= j <= n && walk_at(m, s0, j) == Some(s))
}

/// The walk occupies cell `p` at some step up to `n`.
pub open spec fn point_seen(m: GridModel, s0: Position, p: (int, int), n: int) -> bool {
    exists|j: int|
        0 <= j <= n && (#[trigger] walk_at(m, s0, j) matches Some(s) && s.point.x == p.0
            && s.point.y == p.1)
}

/// At step `n` the guard moves onto cell `p` for the first time.
pub open spec fn discovered_at(m: GridModel, s0: Position, p: (int, int), n: int) -> bool {
    &&& 0 <= n
    &&& walk_at(m, s0, n) is Some
    &&& walk_at(m, s0, n + 1) is Some
    &&& state_at(m, s0, n + 1).point != state_at(m, s0, n).point
    &&& state_at(m, s0, n + 1).point.x == p.0
    &&& state_at(m, s0, n + 1).point.y == p.1
    &&& !point_seen(m, s0, p, n)
}

/// An obstruction hypothesized at `p` the moment the real walk first
/// reaches it would trap the guard: the trial walk from the real state at
/// the discovery step repeats a state instead of leaving the map.
pub open spec fn causes_loop(m: GridModel, s0: Position, p: (int, int)) -> bool {
    exists|d: int|
        #[trigger] discovered_at(m, s0, p, d) && detects(
            m.with_extra(p),
            state_at(m, s0, d),
            states_upto(m, s0, d),
        )
}

/// The cells whose hypothetical obstruction makes the patrol loop.
pub open spec fn loop_points(m: GridModel, s0: Position) -> Set<(int, int)> {
    Set::new(|p: (int, int)| causes_loop(m, s0, p))
}

/// A cell is stepped onto for the first time at most once.
pub proof fn lemma_discovery_unique(m: GridModel, s0: Position, p: (int, int), d1: int, d2: int)
    requires
        discovered_at(m, s0, p, d1),
        discovered_at(m, s0, p, d2),
    ensures
        d1 == d2,
{
    if d1 < d2 {
        assert(point_seen(m, s0, p, d2));
    }
    if d2 < d1 {
        assert(point_seen(m, s0, p, d1));
    }
}

/// Every visited cell other than the start cell was discovered: the walk
/// moved onto it, fresh, at some earlier step.
pub proof fn lemma_point_seen_discovered(m: GridModel, s0: Position, p: (int, int), n: int)
    requires
        point_seen(m, s0, p, n),
        !(s0.point.x == p.0 && s0.point.y == p.1),
    ensures
        exists|d: int| 0 <= d < n && #[trigger] discovered_at(m, s0, p, d),
    decreases n,
{
    if point_seen(m, s0, p, n - 1) {
        lemma_point_seen_discovered(m, s0, p, n - 1);
        let d = choose|d: int| 0 <= d < n - 1 && #[trigger] discovered_at(m, s0, p, d);
        assert(0 <= d < n && discovered_at(m, s0, p, d));
    } else {
        let j = choose|j: int|
            0 <= j <= n && (#[trigger] walk_at(m, s0, j) matches Some(s) && s.point.x == p.0
                && s.point.y == p.1);
        assert(j == n);
        assert(n >= 1);
        assert(walk_at(m, s0, n) is Some);
        crate::model::lemma_walk_some_prefix(m, s0, n, n - 1);
        assert(state_at(m, s0, n - 1).point.x != p.0 || state_at(m, s0, n - 1).point.y != p.1)
            by {
            if state_at(m, s0, n - 1).point.x == p.0 && state_at(m, s0, n - 1).point.y == p.1 {
                assert(point_seen(m, s0, p, n - 1));
            }
        }
        assert(discovered_at(m, s0, p, n - 1));
    }
}

/// A vector of `n` unresolved verdicts.
fn unknown_vec(n: usize) -> (v: Vec<Status>)
    ensures
        v@.len() == n,
        forall|i: int| 0 <= i < n ==> v@[i] == Status::Unknown,
{
    let mut v: Vec<Status> = Vec::new();
    while v.len() < n
        invariant
            v@.len() <= n,
            forall|i: int| 0 <= i < v@.len() ==> v@[i] == Status::Unknown,
        decreases n - v@.len(),
    {
        v.push(Status::Unknown);
    }
    v
}

/// The per-cell verdict cache is faithful: a cell discovered within the
/// first `n` processed steps caches exactly its loop verdict, and any
/// other cell is still unresolved.
pub open spec fn cache_entry_ok(
    m: GridModel,
    s0: Position,
    cache: Seq<Status>,
    p: (int, int),
    n: int,
) -> bool {
    m.in_bounds(p.0, p.1) ==> {
        let pix = p.1 * m.width + p.0;
        if exists|d: int| 0 <= d < n && #[trigger] discovered_at(m, s0, p, d) {
            cache[pix] == (if causes_loop(m, s0, p) {
                Status::Loop
            } else {
                Status::NotLoop
            })
        } else {
            cache[pix] == Status::Unknown
        }
    }
}

/// Walk the real patrol to completion. Returns the number of distinct
/// cells it visits and the number of cells at which one hypothetical new
/// obstruction would make it loop; rejects a start cell inside a wall,
/// and reports a patrol that can never leave the map.
#[verifier::loop_isolation(false)]
#[verifier::rlimit(100)]
pub fn simulate(grid: &Grid, start: Point) -> (r: Result<(usize, usize), SolveError>)
    requires
        grid.wf(),
        start.x < grid.width,
        start.y < grid.height,
    ensures
        (r == Err::<(usize, usize), SolveError>(SolveError::StartObstructed) <==> grid.model()
            .obs.contains((start.x as int, start.y as int))),
        r matches Ok(ans) ==> {
            &&& exists|nn: int| 0 <= nn && walk_at(grid.model(), start_state(start), nn) is None
            &&& ans.0 == visited_points(grid.model(), start_state(start)).len()
            &&& ans.1 == loop_points(grid.model(), start_state(start)).len()
        },
        r == Err::<(usize, usize), SolveError>(SolveError::EndlessPatrol) ==> forall|nn: int|
            0 <= nn ==> walk_at(grid.model(), start_state(start), nn) is Some,
        r matches Ok(_) || r == Err::<(usize, usize), SolveError>(SolveError::StartObstructed)
            || r == Err::<(usize, usize), SolveError>(SolveError::EndlessPatrol),
{
    let ghost m = grid.model();
    let s0 = Position { point: start, dir: Dir::Up };
    if grid.is_obstruction(start) {
        return Err(SolveError::StartObstructed);
    }
    proof {
        assert(4 * (grid.width as int) * (grid.height as int) <= usize::MAX);
        assert(0 <= (grid.width as int) * (grid.height as int) <= 4 * (grid.width as int) * (
        grid.height as int)) by (nonlinear_arith)
            requires
                0 <= grid.width as int,
                0 <= grid.height as int,
        ;
        assert(4 * ((grid.width as int) * (grid.height as int)) == 4 * (grid.width as int) * (
        grid.height as int)) by (nonlinear_arith);
        lemma_int_range(0, 4 * (grid.width as int) * (grid.height as int));
    }
    let wh = grid.width * grid.height;
    let n_states = 4 * wh;
    let mut visited = false_vec(n_states);
    let mut path_points = false_vec(wh);
    let mut is_loop = unknown_vec(wh);
    let mut c1: usize = 0;
    let mut c2: usize = 0;
    let mut cur = s0;
    proof {
        assert forall|p: (int, int)| #[trigger] cache_entry_ok(m, s0, is_loop@, p, 0) by {
            if m.in_bounds(p.0, p.1) {
                lemma_point_index_bounds(m, p);
            }
        }
        assert forall|p: (int, int)| m.in_bounds(p.0, p.1) implies !path_points@[p.1 * m.width
            + p.0] by {
            lemma_point_index_bounds(m, p);
        }
    }
    let ghost mut n: int = 0;
    let ghost mut vset: Set<int> = Set::empty();
    let ghost mut pts: Set<(int, int)> = Set::empty();
    let ghost mut lset: Set<(int, int)> = Set::empty();
    loop
        invariant
            visited@.len() == n_states,
            path_points@.len() == wh,
            is_loop@.len() == wh,
            0 <= n,
            walk_at(m, s0, n) == Some(cur),
            m.valid_state(cur),
            forall|ix: int| #[trigger] vset.contains(ix) <==> (0 <= ix < n_states
                && visited@[ix]),
            forall|ix: int| #[trigger] vset.contains(ix) <==> (exists|j: int|
                0 <= j < n && walk_at(m, s0, j) is Some && state_index(m, state_at(m, s0, j))
                    == ix),
            vset.finite(),
            vset.len() <= n_states,
            forall|p: (int, int)| #[trigger] pts.contains(p) <==> point_seen(m, s0, p, n - 1),
            forall|p: (int, int)| #[trigger] pts.contains(p) ==> m.in_bounds(p.0, p.1),
            forall|p: (int, int)| m.in_bounds(p.0, p.1) ==> (#[trigger] pts.contains(p)
                <==> path_points@[p.1 * m.width + p.0]),
            pts.finite(),
            c1 == pts.len(),
            c1 <= vset.len(),
            forall|p: (int, int)| #[trigger] lset.contains(p) <==> ((exists|d: int|
                0 <= d < n && #[trigger] discovered_at(m, s0, p, d)) && causes_loop(m, s0, p)),
            lset.finite(),
            c2 == lset.len(),
            c2 <= vset.len(),
            forall|p: (int, int)| #[trigger] cache_entry_ok(m, s0, is_loop@, p, n),
        decreases n_states - vset.len(),
    {
        let pi = grid.point_index(cur.point);
        let si = cur.dir.to_index(pi);
        proof {
            lemma_state_index_bounds(m, cur);
            assert(si == state_index(m, cur));
        }
        if visited[si] {
            proof {
                assert(vset.contains(si as int));
                let j = choose|j: int|
                    0 <= j < n && walk_at(m, s0, j) is Some && state_index(
                        m,
                        state_at(m, s0, j),
                    ) == si;
                lemma_walk_valid(m, s0, j);
                lemma_state_index_injective(m, state_at(m, s0, j), cur);
                assert(walk_at(m, s0, j) == walk_at(m, s0, n));
                assert forall|nn: int| 0 <= nn implies walk_at(m, s0, nn) is Some by {
                    lemma_repeat_walks_forever(m, s0, j, n, nn);
                }
            }
            return Err(SolveError::EndlessPatrol);
        }
        visited[si] = true;
        proof {
            let ghost old_vset = vset;
            vset = vset.insert(si as int);
            assert(vset.len() == old_vset.len() + 1);
            assert forall|ix: int| #[trigger] vset.contains(ix) implies (exists|j: int|
                0 <= j <= n && walk_at(m, s0, j) is Some && state_index(m, state_at(m, s0, j))
                    == ix) by {
                if ix == si as int {
                    assert(walk_at(m, s0, n) is Some && state_index(m, state_at(m, s0, n))
                        == ix);
                } else {
                    let j = choose|j: int|
                        0 <= j < n && walk_at(m, s0, j) is Some && state_index(
                            m,
                            state_at(m, s0, j),
                        ) == ix;
                    assert(0 <= j <= n && walk_at(m, s0, j) is Some && state_index(
                        m,
                        state_at(m, s0, j),
                    ) == ix);
                }
            }
            assert forall|ix: int|
                (exists|j: int|
                    0 <= j <= n && walk_at(m, s0, j) is Some && state_index(
                        m,
                        state_at(m, s0, j),
                    ) == ix) implies #[trigger] vset.contains(ix) by {
                let j = choose|j: int|
                    0 <= j <= n && walk_at(m, s0, j) is Some && state_index(
                        m,
                        state_at(m, s0, j),
                    ) == ix;
                if j < n {
                    assert(old_vset.contains(ix));
                } else {
                    assert(ix == si as int);
                }
            }
            assert(vset.subset_of(set_int_range(0, n_states as int)));
            lemma_len_subset(vset, set_int_range(0, n_states as int));
        }
        let ghost curp: (int, int) = (cur.point.x as int, cur.point.y as int);
        if !path_points[pi] {
            path_points[pi] = true;
            c1 = c1 + 1;
            proof {
                assert(!pts.contains(curp));
                pts = pts.insert(curp);
                assert(pts.len() == c1);
                assert forall|p: (int, int)| #[trigger] pts.contains(p) implies point_seen(
                    m,
                    s0,
                    p,
                    n,
                ) by {}
                assert forall|p: (int, int)| point_seen(m, s0, p, n) implies #[trigger]
                    pts.contains(p) by {
                    if !point_seen(m, s0, p, n - 1) {
                        assert(p == curp);
                    }
                }
                assert forall|p: (int, int)| m.in_bounds(p.0, p.1) implies (#[trigger]
                    pts.contains(p) <==> path_points@[p.1 * m.width + p.0]) by {
                    lemma_point_index_bounds(m, p);
                    lemma_point_index_bounds(m, curp);
                    if p.1 * m.width + p.0 == curp.1 * m.width + curp.0 {
                        lemma_point_index_injective(m, p, curp);
                    }
                }
            }
        } else {
            proof {
                assert(pts.contains(curp));
                assert forall|p: (int, int)| #[trigger] pts.contains(p) implies point_seen(
                    m,
                    s0,
                    p,
                    n,
                ) by {}
                assert forall|p: (int, int)| point_seen(m, s0, p, n) implies #[trigger]
                    pts.contains(p) by {
                    if !point_seen(m, s0, p, n - 1) {
                        assert(p == curp);
                    }
                }
            }
        }
        let step_result = grid.step(cur);
        proof {
            lemma_step_model(*grid, cur);
        }
        match step_result {
            GridState::OutOfBounds => {
                proof {
                    assert(walk_at(m, s0, n + 1) is None);
                    assert forall|p: (int, int)| visited_points(m, s0).contains(p)
                        implies #[trigger] pts.contains(p) by {
                        let j = choose|j: int|
                            0 <= j && (#[trigger] walk_at(m, s0, j) matches Some(s) && s.point.x
                                == p.0 && s.point.y == p.1);
                        if j > n {
                            lemma_walk_none(m, s0, n + 1, j);
                        }
                        assert(point_seen(m, s0, p, n));
                    }
                    assert forall|p: (int, int)| #[trigger] pts.contains(p)
                        implies visited_points(m, s0).contains(p) by {
                        assert(point_seen(m, s0, p, n));
                    }
                    assert(pts =~= visited_points(m, s0));
                    assert forall|p: (int, int)| loop_points(m, s0).contains(p)
                        implies #[trigger] lset.contains(p) by {
                        let d = choose|d: int|
                            #[trigger] discovered_at(m, s0, p, d) && detects(
                                m.with_extra(p),
                                state_at(m, s0, d),
                                states_upto(m, s0, d),
                            );
                        if d + 1 > n {
                            lemma_walk_none(m, s0, n + 1, d + 1);
                        }
                        assert(0 <= d < n);
                    }
                    assert forall|p: (int, int)| #[trigger] lset.contains(p)
                        implies loop_points(m, s0).contains(p) by {}
                    assert(lset =~= loop_points(m, s0));
                }
                return Ok((c1, c2));
            },
            GridState::Obstruction => {
                let turned = Position { point: cur.point, dir: cur.dir.turn_right() };
                proof {
                    assert(walk_at(m, s0, n + 1) == Some(turned));
                    assert forall|p: (int, int)| #[trigger] cache_entry_ok(
                        m,
                        s0,
                        is_loop@,
                        p,
                        n + 1,
                    ) by {
                        if m.in_bounds(p.0, p.1) {
                            lemma_point_index_bounds(m, p);
                        }
                        assert(!discovered_at(m, s0, p, n));
                        assert(cache_entry_ok(m, s0, is_loop@, p, n));
                    }
                    assert forall|p: (int, int)| #[trigger] lset.contains(p) <==> ((exists|
                        d: int,
                    | 0 <= d < n + 1 && #[trigger] discovered_at(m, s0, p, d)) && causes_loop(
                        m,
                        s0,
                        p,
                    )) by {
                        assert(!discovered_at(m, s0, p, n));
                    }
                    n = n + 1;
                }
                cur = turned;
            },
            GridState::Point(np) => {
                let moved = Position { point: np, dir: cur.dir };
                let ghost npp: (int, int) = (np.x as int, np.y as int);
                proof {
                    assert(walk_at(m, s0, n + 1) == Some(moved));
                    assert(m.valid_state(moved));
                    assert(moved.point != cur.point) by {
                        if cur.dir == Dir::Up {
                            assert((moved.point.y as int) == (cur.point.y as int) - 1);
                        }
                        if cur.dir == Dir::Down {
                            assert((moved.point.y as int) == (cur.point.y as int) + 1);
                        }
                        if cur.dir == Dir::Right {
                            assert((moved.point.x as int) == (cur.point.x as int) + 1);
                        }
                        if cur.dir == Dir::Left {
                            assert((moved.point.x as int) == (cur.point.x as int) - 1);
                        }
                    }
                }
                if np.x == start.x && np.y == start.y {
                    proof {
                        assert(point_seen(m, s0, npp, n)) by {
                            assert(walk_at(m, s0, 0) == Some(s0));
                        }
                        assert forall|p: (int, int)| #[trigger] cache_entry_ok(
                            m,
                            s0,
                            is_loop@,
                            p,
                            n + 1,
                        ) by {
                            if m.in_bounds(p.0, p.1) {
                                lemma_point_index_bounds(m, p);
                            }
                            assert(cache_entry_ok(m, s0, is_loop@, p, n));
                            if discovered_at(m, s0, p, n) {
                                assert(p == npp);
                                assert(!point_seen(m, s0, p, n));
                            }
                        }
                        assert forall|p: (int, int)| #[trigger] lset.contains(p) <==> ((exists|
                            d: int,
                        | 0 <= d < n + 1 && #[trigger] discovered_at(m, s0, p, d))
                            && causes_loop(m, s0, p)) by {
                            if discovered_at(m, s0, p, n) {
                                assert(p == npp);
                                assert(!point_seen(m, s0, p, n));
                            }
                        }
                        n = n + 1;
                    }
                    cur = moved;
                } else {
                    let ghost cache_before = is_loop@;
                    let npi = grid.point_index(np);
                    let previously = is_loop[npi];
                    let verdict = resolve_candidate(grid, &mut is_loop, np, cur, &visited);
                    proof {
                        let npix = npp.1 * m.width + npp.0;
                        assert(m.in_bounds(npp.0, npp.1));
                        assert(previously == cache_before[npix]);
                        if cache_before[npix] != Status::Unknown {
                            // Already resolved at its own discovery step;
                            // nothing changes.
                            assert(is_loop@ == cache_before);
                            assert(cache_entry_ok(m, s0, cache_before, npp, n));
                            let d = choose|d: int|
                                0 <= d < n && #[trigger] discovered_at(m, s0, npp, d);
                            assert(point_seen(m, s0, npp, n)) by {
                                assert(walk_at(m, s0, d + 1) is Some);
                                assert(state_at(m, s0, d + 1).point.x == npp.0 && state_at(
                                    m,
                                    s0,
                                    d + 1,
                                ).point.y == npp.1);
                            }
                            assert(!discovered_at(m, s0, npp, n));
                            assert forall|p: (int, int)| #[trigger] cache_entry_ok(
                                m,
                                s0,
                                is_loop@,
                                p,
                                n + 1,
                            ) by {
                                if m.in_bounds(p.0, p.1) {
                                    lemma_point_index_bounds(m, p);
                                }
                                assert(cache_entry_ok(m, s0, is_loop@, p, n));
                                if discovered_at(m, s0, p, n) {
                                    assert(p == npp);
                                }
                            }
                            assert forall|p: (int, int)| #[trigger] lset.contains(p) <==> ((
                            exists|d2: int|
                                0 <= d2 < n + 1 && #[trigger] discovered_at(m, s0, p, d2))
                                && causes_loop(m, s0, p)) by {
                                if discovered_at(m, s0, p, n) {
                                    assert(p == npp);
                                }
                            }
                            n = n + 1;
                        } else {
                            // A fresh discovery: the cell had never been
                            // entered, so this step is its one trial.
                            assert(cache_entry_ok(m, s0, cache_before, npp, n));
                            assert(!(exists|d: int|
                                0 <= d < n && #[trigger] discovered_at(m, s0, npp, d)));
                            assert(!point_seen(m, s0, npp, n)) by {
                                if point_seen(m, s0, npp, n) {
                                    lemma_point_seen_discovered(m, s0, npp, n);
                                }
                            }
                            assert(discovered_at(m, s0, npp, n));
                            assert(array_states(m, visited@) =~= states_upto(m, s0, n)) by {
                                assert forall|s: Position| array_states(m, visited@).contains(
                                    s,
                                ) implies states_upto(m, s0, n).contains(s) by {
                                    assert(visited@[state_index(m, s)]);
                                    assert(vset.contains(state_index(m, s)));
                                    let j = choose|j: int|
                                        0 <= j <= n && walk_at(m, s0, j) is Some && state_index(
                                            m,
                                            state_at(m, s0, j),
                                        ) == state_index(m, s);
                                    lemma_walk_valid(m, s0, j);
                                    lemma_state_index_injective(m, state_at(m, s0, j), s);
                                    assert(walk_at(m, s0, j) == Some(s));
                                }
                                assert forall|s: Position| states_upto(m, s0, n).contains(s)
                                    implies array_states(m, visited@).contains(s) by {
                                    let j = choose|j: int|
                                        0 <= j <= n && walk_at(m, s0, j) == Some(s);
                                    lemma_walk_valid(m, s0, j);
                                    lemma_state_index_bounds(m, s);
                                    assert(vset.contains(state_index(m, s)));
                                }
                            }
                            assert((verdict == Status::Loop) <==> detects(
                                m.with_extra(npp),
                                cur,
                                states_upto(m, s0, n),
                            ));
                            assert(state_at(m, s0, n) == cur);
                            assert((verdict == Status::Loop) <==> causes_loop(m, s0, npp)) by {
                                if causes_loop(m, s0, npp) {
                                    let d = choose|d: int|
                                        #[trigger] discovered_at(m, s0, npp, d) && detects(
                                            m.with_extra(npp),
                                            state_at(m, s0, d),
                                            states_upto(m, s0, d),
                                        );
                                    lemma_discovery_unique(m, s0, npp, d, n);
                                }
                            }
                            assert(is_loop@ == cache_before.update(npix, verdict));
                            assert forall|p: (int, int)| #[trigger] cache_entry_ok(
                                m,
                                s0,
                                is_loop@,
                                p,
                                n + 1,
                            ) by {
                                if m.in_bounds(p.0, p.1) {
                                    lemma_point_index_bounds(m, p);
                                    lemma_point_index_bounds(m, npp);
                                }
                                assert(cache_entry_ok(m, s0, cache_before, p, n));
                                if m.in_bounds(p.0, p.1) && p.1 * m.width + p.0 == npp.1 * m.width
                                    + npp.0 {
                                    lemma_point_index_injective(m, p, npp);
                                }
                                if discovered_at(m, s0, p, n) {
                                    assert(p == npp);
                                }
                            }
                            if verdict == Status::Loop {
                                assert(!lset.contains(npp));
                                lset = lset.insert(npp);
                            }
                            assert forall|p: (int, int)| #[trigger] lset.contains(p) <==> ((
                            exists|d2: int|
                                0 <= d2 < n + 1 && #[trigger] discovered_at(m, s0, p, d2))
                                && causes_loop(m, s0, p)) by {
                                if p == npp {
                                    assert(discovered_at(m, s0, p, n));
                                } else {
                                    if discovered_at(m, s0, p, n) {
                                        assert(p == npp);
                                    }
                                }
                            }
                            n = n + 1;
                        }
                    }
                    if previously == Status::Unknown && verdict == Status::Loop {
                        proof {
                            assert(c2 < vset.len());
                        }
                        c2 = c2 + 1;
                        proof {
                            assert(c2 == lset.len());
                        }
                    }
                    cur = moved;
                }
            },
        }
    }
}

} // verus!
