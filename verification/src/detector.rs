//! The loop detector.
//!
//! For a candidate cell the real patrol is about to step onto, the detector
//! re-walks the patrol from the current real state against the grid
//! extended by one obstruction at the candidate, and declares a loop
//! exactly when the hypothetical walk reaches a turn state that was either
//! already visited by the real patrol or already reached earlier in the
//! same trial. Walking stop-to-stop loses no detections: between stops the
//! facing never changes, so every repeatable state of a cycling walk is
//! seen at a turn.

use vstd::prelude::*;
use vstd::set_lib::{lemma_int_range, lemma_len_subset, set_int_range};
use crate::geom::{Point, Position, lemma_turn_changes_dir};
use crate::grid::Grid;
use crate::model::{
    GridModel, lemma_state_index_bounds, lemma_state_index_injective, lemma_walk_add, pos_ahead,
    lemma_walk_none, lemma_walk_valid, state_index, straight_until_exit, straight_until_turn,
    walk_at,
};

verus! {

/// The cached verdict for a candidate cell.
#[derive(Clone, Copy, PartialEq, Eq, Structural, Debug)]
pub enum Status {
    Unknown,
    NotLoop,
    Loop,
}

/// The state after `n` steps, where the walk is known not to have ended.
pub open spec fn state_at(m: GridModel, s0: Position, n: int) -> Position {
    walk_at(m, s0, n)->Some_0
}

/// Step `n` of the walk is a turn: the facing changed from step `n - 1`.
pub open spec fn is_turn(m: GridModel, s0: Position, n: int) -> bool {
    &&& 1 <= n
    &&& walk_at(m, s0, n - 1) is Some
    &&& walk_at(m, s0, n) is Some
    &&& state_at(m, s0, n).dir != state_at(m, s0, n - 1).dir
}

/// The trial walk is caught at step `n`: step `n` is a turn whose state
/// was already seen — by the real patrol (`seen`) or at an earlier turn of
/// the trial itself.
pub open spec fn detect_at(m: GridModel, s0: Position, seen: Set<Position>, n: int) -> bool {
    &&& is_turn(m, s0, n)
    &&& (seen.contains(state_at(m, s0, n)) || exists|k: int|
        1 <= k < n && is_turn(m, s0, k) && walk_at(m, s0, k) == walk_at(m, s0, n))
}

/// The trial walk from `s0` eventually repeats a state: it revisits one
/// from `seen` or one of its own turn states.
pub open spec fn detects(m: GridModel, s0: Position, seen: Set<Position>) -> bool {
    exists|n: int| detect_at(m, s0, seen, n)
}

/// The set of states marked in a dense visited array.
pub open spec fn array_states(m: GridModel, v: Seq<bool>) -> Set<Position> {
    Set::new(
        |s: Position|
            {
                &&& m.in_bounds(s.point.x as int, s.point.y as int)
                &&& 0 <= state_index(m, s) < v.len()
                &&& v[state_index(m, s)]
            },
    )
}

/// A vector of `n` cleared marks.
pub fn false_vec(n: usize) -> (v: Vec<bool>)
    ensures
        v@.len() == n,
        forall|i: int| 0 <= i < n ==> !v@[i],
{
    let mut v: Vec<bool> = Vec::new();
    while v.len() < n
        invariant
            v@.len() <= n,
            forall|i: int| 0 <= i < v@.len() ==> !v@[i],
        decreases n - v@.len(),
    {
        v.push(false);
    }
    v
}

/// Decide whether an extra obstruction at `temp` makes the patrol loop,
/// re-walking it from `entry` against the extended grid. `visited` is the
/// dense mark array of every state the real patrol has occupied so far.
#[verifier::loop_isolation(false)]
pub fn evaluate_candidate(grid: &Grid, temp: Point, entry: Position, visited: &Vec<bool>) -> (r:
    Status)
    requires
        grid.wf(),
        temp.x < grid.width,
        temp.y < grid.height,
        grid.model().with_extra((temp.x as int, temp.y as int)).valid_state(entry),
        visited@.len() == 4 * (grid.width as int) * (grid.height as int),
    ensures
        r == Status::Loop || r == Status::NotLoop,
        (r == Status::Loop) <==> detects(
            grid.model().with_extra((temp.x as int, temp.y as int)),
            entry,
            array_states(grid.model(), visited@),
        ),
{
    let ghost m = grid.model().with_extra((temp.x as int, temp.y as int));
    let ghost seen = array_states(grid.model(), visited@);
    let tob = grid.with_obstruction(temp);
    proof {
        assert(4 * (grid.width as int) * (grid.height as int) <= usize::MAX);
        assert(0 <= (grid.width as int) * (grid.height as int) <= 4 * (grid.width as int) * (
        grid.height as int)) by (nonlinear_arith)
            requires
                0 <= grid.width as int,
                0 <= grid.height as int,
        ;
        assert(4 * ((grid.width as int) * (grid.height as int)) == 4 * (grid.width as int) * (
        grid.height as int)) by (nonlinear_arith);
    }
    let wh = grid.width * grid.height;
    let n_states = 4 * wh;
    let mut tmp_visited = false_vec(n_states);
    let mut cur = entry;
    let ghost mut steps: int = 0;
    let ghost mut tmpset: Set<int> = Set::empty();
    proof {
        lemma_int_range(0, n_states as int);
    }
    loop
        invariant
            tmp_visited@.len() == n_states,
            0 <= steps,
            walk_at(m, entry, steps) == Some(cur),
            m.valid_state(cur),
            forall|n: int| #[trigger] is_turn(m, entry, n) && n <= steps ==> !detect_at(
                m,
                entry,
                seen,
                n,
            ),
            forall|ix: int| #[trigger] tmpset.contains(ix) <==> (0 <= ix < n_states
                && tmp_visited@[ix]),
            forall|ix: int| #[trigger] tmpset.contains(ix) <==> exists|n: int|
                1 <= n <= steps && is_turn(m, entry, n) && state_index(m, state_at(m, entry, n))
                    == ix,
            tmpset.finite(),
            tmpset.len() <= n_states,
        decreases n_states - tmpset.len(),
    {
        match tob.stops(cur) {
            None => {
                proof {
                    let k = choose|k: int| straight_until_exit(m, cur, k);
                    assert forall|n: int| #[trigger] is_turn(m, entry, n) implies n <= steps by {
                        if n > steps {
                            lemma_walk_add(m, entry, steps, n - steps);
                            lemma_walk_add(m, entry, steps, n - steps - 1);
                            if n - steps > k + 1 {
                                lemma_walk_none(m, cur, k + 1, n - steps);
                            }
                        }
                    }
                    assert(!detects(m, entry, seen));
                }
                return Status::NotLoop;
            },
            Some(s2) => {
                let ghost k = choose|k: int| straight_until_turn(m, cur, k, s2);
                proof {
                    assert(straight_until_turn(m, cur, k, s2));
                    assert forall|j: int| 0 <= j <= k implies walk_at(m, entry, steps + j)
                        == walk_at(m, cur, j) by {
                        lemma_walk_add(m, entry, steps, j);
                    }
                    assert(walk_at(m, entry, steps + k) == Some(s2));
                    assert(walk_at(m, cur, k - 1) == Some(pos_ahead(cur, k - 1)));
                    lemma_turn_changes_dir(cur.dir);
                    assert(is_turn(m, entry, steps + k));
                    assert forall|n: int| steps < n < steps + k implies !is_turn(m, entry, n) by {
                        let j = n - steps;
                        assert(walk_at(m, cur, j) == Some(pos_ahead(cur, j)));
                        assert(walk_at(m, cur, j - 1) == Some(pos_ahead(cur, j - 1)));
                        assert(state_at(m, entry, n).dir == cur.dir);
                        assert(state_at(m, entry, n - 1).dir == cur.dir);
                    }
                    lemma_walk_valid(m, entry, steps + k);
                    assert(m.valid_state(s2));
                    lemma_state_index_bounds(m, s2);
                }
                let pi = grid.point_index(s2.point);
                let si = s2.dir.to_index(pi);
                proof {
                    assert(si == state_index(m, s2));
                }
                if visited[si] {
                    proof {
                        assert(state_index(grid.model(), s2) == si);
                        assert(seen.contains(s2));
                        assert(detect_at(m, entry, seen, steps + k));
                    }
                    return Status::Loop;
                }
                if tmp_visited[si] {
                    proof {
                        assert(tmpset.contains(si as int));
                        let n0 = choose|n: int|
                            1 <= n <= steps && is_turn(m, entry, n) && state_index(
                                m,
                                state_at(m, entry, n),
                            ) == si;
                        lemma_walk_valid(m, entry, n0);
                        lemma_state_index_injective(m, state_at(m, entry, n0), s2);
                        assert(walk_at(m, entry, n0) == walk_at(m, entry, steps + k));
                        assert(detect_at(m, entry, seen, steps + k));
                    }
                    return Status::Loop;
                }
                tmp_visited[si] = true;
                proof {
                    let ghost old_tmpset = tmpset;
                    tmpset = tmpset.insert(si as int);
                    assert(!old_tmpset.contains(si as int));
                    assert(tmpset.len() == old_tmpset.len() + 1);
                    // The new turn at `steps + k` is itself undetected: its
                    // state was in neither the real marks nor the trial's.
                    assert forall|n: int| #[trigger] is_turn(m, entry, n) && n <= steps + k
                        implies !detect_at(m, entry, seen, n) by {
                        if n == steps + k {
                            if seen.contains(state_at(m, entry, n)) {
                                assert(visited@[state_index(grid.model(), s2)]);
                            }
                            if exists|k2: int|
                                1 <= k2 < n && is_turn(m, entry, k2) && walk_at(m, entry, k2)
                                    == walk_at(m, entry, n) {
                                let k2 = choose|k2: int|
                                    1 <= k2 < n && is_turn(m, entry, k2) && walk_at(m, entry, k2)
                                        == walk_at(m, entry, n);
                                assert(k2 <= steps);
                                assert(old_tmpset.contains(si as int));
                            }
                        }
                    }
                    assert forall|ix: int| #[trigger] tmpset.contains(ix) implies exists|n: int|
                        1 <= n <= steps + k && is_turn(m, entry, n) && state_index(
                            m,
                            state_at(m, entry, n),
                        ) == ix by {
                        if ix == si as int {
                            assert(is_turn(m, entry, steps + k) && state_index(
                                m,
                                state_at(m, entry, steps + k),
                            ) == ix);
                        } else {
                            let n0 = choose|n: int|
                                1 <= n <= steps && is_turn(m, entry, n) && state_index(
                                    m,
                                    state_at(m, entry, n),
                                ) == ix;
                            assert(1 <= n0 <= steps + k && is_turn(m, entry, n0));
                        }
                    }
                    assert forall|ix: int|
                        (exists|n: int|
                            1 <= n <= steps + k && is_turn(m, entry, n) && state_index(
                                m,
                                state_at(m, entry, n),
                            ) == ix) implies #[trigger] tmpset.contains(ix) by {
                        let n0 = choose|n: int|
                            1 <= n <= steps + k && is_turn(m, entry, n) && state_index(
                                m,
                                state_at(m, entry, n),
                            ) == ix;
                        if n0 <= steps {
                            assert(old_tmpset.contains(ix));
                        } else {
                            assert(n0 == steps + k);
                        }
                    }
                    assert(tmpset.subset_of(set_int_range(0, n_states as int)));
                    lemma_len_subset(tmpset, set_int_range(0, n_states as int));
                    steps = steps + k;
                }
                cur = s2;
            },
        }
    }
}

/// Look up or compute the verdict for candidate cell `temp`, caching it
/// under the cell's dense point index. A cell already resolved keeps its
/// first verdict whatever the entry state of the later visit: the cache
/// comes back untouched and no second trial runs.
pub fn resolve_candidate(
    grid: &Grid,
    cache: &mut Vec<Status>,
    temp: Point,
    entry: Position,
    visited: &Vec<bool>,
) -> (r: Status)
    requires
        grid.wf(),
        temp.x < grid.width,
        temp.y < grid.height,
        grid.model().with_extra((temp.x as int, temp.y as int)).valid_state(entry),
        visited@.len() == 4 * (grid.width as int) * (grid.height as int),
        old(cache)@.len() == (grid.width as int) * (grid.height as int),
    ensures
        final(cache)@.len() == old(cache)@.len(),
        r != Status::Unknown,
        old(cache)@[temp.y * grid.width + temp.x] != Status::Unknown ==> {
            &&& r == old(cache)@[temp.y * grid.width + temp.x]
            &&& final(cache)@ == old(cache)@
        },
        old(cache)@[temp.y * grid.width + temp.x] == Status::Unknown ==> {
            &&& ((r == Status::Loop) <==> detects(
                grid.model().with_extra((temp.x as int, temp.y as int)),
                entry,
                array_states(grid.model(), visited@),
            ))
            &&& final(cache)@ == old(cache)@.update(temp.y * grid.width + temp.x, r)
        },
{
    let pi = grid.point_index(temp);
    proof {
        assert((temp.y * grid.width + temp.x) < (grid.width as int) * (grid.height as int))
            by (nonlinear_arith)
            requires
                0 <= (temp.x as int) < grid.width,
                0 <= (temp.y as int) < grid.height,
        ;
    }
    let cached = cache[pi];
    if cached != Status::Unknown {
        return cached;
    }
    let r = evaluate_candidate(grid, temp, entry, visited);
    cache[pi] = r;
    r
}

} // verus!
