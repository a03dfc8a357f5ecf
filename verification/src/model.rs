//! The mathematical model of a map and of the guard's walk.
//!
//! A map is a pair of dimensions together with a set of obstructed cells.
//! The walk advances one cell at a time: if the cell ahead is outside the
//! bounded area the walk ends, if it is obstructed the guard turns clockwise
//! in place, and otherwise the guard moves onto it. Everything the library
//! proves about patrols is stated against this single-step model.

use vstd::prelude::*;
use vstd::set_lib::{lemma_int_range, lemma_len_subset, set_int_range};
use crate::geom::{Dir, Point, Position};

verus! {

/// The mathematical content of a map: its dimensions and which cells
/// are obstructed.
pub ghost struct GridModel {
    pub width: int,
    pub height: int,
    pub obs: Set<(int, int)>,
}

impl GridModel {
    /// Both coordinates lie within the bounded area.
    pub open spec fn in_bounds(self, x: int, y: int) -> bool {
        0 <= x < self.width && 0 <= y < self.height
    }

    /// The same map with one extra obstructed cell.
    pub open spec fn with_extra(self, p: (int, int)) -> GridModel {
        GridModel { width: self.width, height: self.height, obs: self.obs.insert(p) }
    }

    /// A guard state the walk can occupy: on the map and not inside a wall.
    pub open spec fn valid_state(self, s: Position) -> bool {
        &&& self.in_bounds(s.point.x as int, s.point.y as int)
        &&& !self.obs.contains((s.point.x as int, s.point.y as int))
    }

    /// A well-formed map: obstructions lie within bounds, and the dense
    /// state indexing below fits in a machine word.
    pub open spec fn wf(self) -> bool {
        &&& 0 <= self.width
        &&& 0 <= self.height
        &&& 4 * self.width * self.height <= usize::MAX
        &&& forall|p: (int, int)| self.obs.contains(p) ==> self.in_bounds(p.0, p.1)
    }
}

/// Column of the cell one step ahead of `s`.
pub open spec fn target_x(s: Position) -> int {
    s.point.x + s.dir.dx()
}

/// Row of the cell one step ahead of `s`.
pub open spec fn target_y(s: Position) -> int {
    s.point.y + s.dir.dy()
}

/// One step of the patrol: end the walk, turn in place, or advance.
pub open spec fn walk_next(m: GridModel, s: Position) -> Option<Position> {
    let tx = target_x(s);
    let ty = target_y(s);
    if !m.in_bounds(tx, ty) {
        None
    } else if m.obs.contains((tx, ty)) {
        Some(Position { point: s.point, dir: s.dir.turn_spec() })
    } else {
        Some(Position { point: Point { x: tx as usize, y: ty as usize }, dir: s.dir })
    }
}

/// The state after `n` steps of the patrol from `s0`, or `None` once the
/// walk has left the bounded area.
pub open spec fn walk_at(m: GridModel, s0: Position, n: int) -> Option<Position>
    decreases n,
{
    if n <= 0 {
        Some(s0)
    } else {
        match walk_at(m, s0, n - 1) {
            None => None,
            Some(s) => walk_next(m, s),
        }
    }
}

/// Dense index of a guard state: four facings per cell, cells in row-major
/// order.
pub open spec fn state_index(m: GridModel, s: Position) -> int {
    4 * (s.point.y * m.width + s.point.x) + s.dir.index_spec()
}

/// Equal facing ranks come from equal facings.
pub proof fn lemma_dir_index_injective(d1: Dir, d2: Dir)
    requires
        d1.index_spec() == d2.index_spec(),
    ensures
        d1 == d2,
{
}

/// A state on the map has its index inside the dense range.
pub proof fn lemma_state_index_bounds(m: GridModel, s: Position)
    requires
        m.in_bounds(s.point.x as int, s.point.y as int),
    ensures
        0 <= state_index(m, s) < 4 * m.width * m.height,
{
    let x = s.point.x as int;
    let y = s.point.y as int;
    assert(0 <= y * m.width + x < m.width * m.height) by (nonlinear_arith)
        requires
            0 <= x < m.width,
            0 <= y < m.height,
    ;
    assert(4 * (y * m.width + x) + 3 < 4 * (m.width * m.height)) by (nonlinear_arith)
        requires
            0 <= y * m.width + x < m.width * m.height,
    ;
    assert(4 * (m.width * m.height) == 4 * m.width * m.height) by (nonlinear_arith);
}

/// Distinct states on the map get distinct dense indices.
pub proof fn lemma_state_index_injective(m: GridModel, s1: Position, s2: Position)
    requires
        m.in_bounds(s1.point.x as int, s1.point.y as int),
        m.in_bounds(s2.point.x as int, s2.point.y as int),
        state_index(m, s1) == state_index(m, s2),
    ensures
        s1 == s2,
{
    let p1 = s1.point.y * m.width + s1.point.x;
    let p2 = s2.point.y * m.width + s2.point.x;
    assert(0 <= s1.dir.index_spec() < 4);
    assert(0 <= s2.dir.index_spec() < 4);
    assert(p1 == p2 && s1.dir.index_spec() == s2.dir.index_spec()) by (nonlinear_arith)
        requires
            4 * p1 + s1.dir.index_spec() == 4 * p2 + s2.dir.index_spec(),
            0 <= s1.dir.index_spec() < 4,
            0 <= s2.dir.index_spec() < 4,
    ;
    assert(s1.point.x == s2.point.x && s1.point.y == s2.point.y) by (nonlinear_arith)
        requires
            s1.point.y * m.width + s1.point.x == s2.point.y * m.width + s2.point.x,
            0 <= (s1.point.x as int) < m.width,
            0 <= (s2.point.x as int) < m.width,
            0 <= s1.point.y,
            0 <= s2.point.y,
    ;
    lemma_dir_index_injective(s1.dir, s2.dir);
}

/// An in-bounds cell has its row-major index inside the dense range.
pub proof fn lemma_point_index_bounds(m: GridModel, p: (int, int))
    requires
        m.in_bounds(p.0, p.1),
    ensures
        0 <= p.1 * m.width + p.0 < m.width * m.height,
{
    assert(0 <= p.1 * m.width + p.0 < m.width * m.height) by (nonlinear_arith)
        requires
            0 <= p.0 < m.width,
            0 <= p.1 < m.height,
    ;
}

/// Distinct in-bounds cells get distinct row-major indices.
pub proof fn lemma_point_index_injective(m: GridModel, p: (int, int), q: (int, int))
    requires
        m.in_bounds(p.0, p.1),
        m.in_bounds(q.0, q.1),
        p.1 * m.width + p.0 == q.1 * m.width + q.0,
    ensures
        p == q,
{
    assert(p.0 == q.0 && p.1 == q.1) by (nonlinear_arith)
        requires
            p.1 * m.width + p.0 == q.1 * m.width + q.0,
            0 <= p.0 < m.width,
            0 <= q.0 < m.width,
            0 <= p.1,
            0 <= q.1,
    ;
}

/// Every state the walk reaches is on the map and outside the walls.
pub proof fn lemma_walk_valid(m: GridModel, s0: Position, n: int)
    requires
        m.valid_state(s0),
        m.width <= usize::MAX,
        m.height <= usize::MAX,
    ensures
        walk_at(m, s0, n) matches Some(s) ==> m.valid_state(s),
    decreases n,
{
    if n > 0 {
        lemma_walk_valid(m, s0, n - 1);
    }
}

/// Once the walk has ended it stays ended.
pub proof fn lemma_walk_none(m: GridModel, s0: Position, n: int, k: int)
    requires
        walk_at(m, s0, n) is None,
        n <= k,
    ensures
        walk_at(m, s0, k) is None,
    decreases k - n,
{
    if n < k {
        lemma_walk_none(m, s0, n, k - 1);
    }
}

/// A walk that is still going had not ended earlier either.
pub proof fn lemma_walk_some_prefix(m: GridModel, s0: Position, n: int, k: int)
    requires
        walk_at(m, s0, n) is Some,
        k <= n,
    ensures
        walk_at(m, s0, k) is Some,
{
    if walk_at(m, s0, k) is None {
        lemma_walk_none(m, s0, k, n);
    }
}

/// Walking `i + k` steps is walking `i` steps and then `k` more from there.
pub proof fn lemma_walk_add(m: GridModel, s0: Position, i: int, k: int)
    requires
        0 <= i,
        0 <= k,
        walk_at(m, s0, i) matches Some(s),
    ensures
        walk_at(m, s0, i + k) == walk_at(m, walk_at(m, s0, i)->Some_0, k),
    decreases k,
{
    if k > 0 {
        lemma_walk_add(m, s0, i, k - 1);
    }
}

/// The walk is deterministic: from equal states, equal futures.
pub proof fn lemma_walk_shift(m: GridModel, s0: Position, i: int, j: int, k: int)
    requires
        0 <= i,
        0 <= j,
        0 <= k,
        walk_at(m, s0, i) == walk_at(m, s0, j),
    ensures
        walk_at(m, s0, i + k) == walk_at(m, s0, j + k),
    decreases k,
{
    if k > 0 {
        lemma_walk_shift(m, s0, i, j, k - 1);
    }
}

/// A walk that revisits a state never ends: it cycles forever.
pub proof fn lemma_repeat_walks_forever(m: GridModel, s0: Position, i: int, j: int, n: int)
    requires
        0 <= i < j,
        0 <= n,
        walk_at(m, s0, i) is Some,
        walk_at(m, s0, i) == walk_at(m, s0, j),
    ensures
        walk_at(m, s0, n) is Some,
    decreases n,
{
    if n <= j {
        lemma_walk_some_prefix(m, s0, j, n);
    } else {
        lemma_repeat_walks_forever(m, s0, i, j, n - (j - i));
        lemma_walk_shift(m, s0, i, j, n - j);
    }
}

/// The dense indices of the states the walk occupies within its first
/// `k` steps.
pub open spec fn walk_index_set(m: GridModel, s0: Position, k: int) -> Set<int> {
    Set::new(
        |ix: int|
            exists|i: int|
                0 <= i <= k && #[trigger] walk_at(m, s0, i) is Some && state_index(
                    m,
                    walk_at(m, s0, i)->Some_0,
                ) == ix,
    )
}

/// A walk that goes `k` steps without repeating a state has occupied
/// `k + 1` distinct dense indices, all inside the range.
pub proof fn lemma_distinct_prefix_card(m: GridModel, s0: Position, k: int)
    requires
        m.wf(),
        m.width <= usize::MAX,
        m.height <= usize::MAX,
        m.valid_state(s0),
        0 <= k,
        forall|n: int| 0 <= n <= k ==> walk_at(m, s0, n) is Some,
        forall|i: int, j: int|
            0 <= i < j <= k ==> walk_at(m, s0, i) != walk_at(m, s0, j),
    ensures
        walk_index_set(m, s0, k).finite(),
        walk_index_set(m, s0, k).len() == k + 1,
        walk_index_set(m, s0, k).subset_of(set_int_range(0, 4 * m.width * m.height)),
    decreases k,
{
    lemma_walk_valid(m, s0, k);
    let sk = walk_at(m, s0, k)->Some_0;
    lemma_state_index_bounds(m, sk);
    if k == 0 {
        assert(walk_index_set(m, s0, 0) =~= Set::empty().insert(state_index(m, s0))) by {
            assert(walk_at(m, s0, 0) is Some && state_index(m, walk_at(m, s0, 0)->Some_0)
                == state_index(m, s0));
        }
        assert forall|ix: int| walk_index_set(m, s0, 0).contains(ix) implies set_int_range(
            0,
            4 * m.width * m.height,
        ).contains(ix) by {
            let i = choose|i: int|
                0 <= i <= 0 && #[trigger] walk_at(m, s0, i) is Some && state_index(
                    m,
                    walk_at(m, s0, i)->Some_0,
                ) == ix;
            lemma_walk_valid(m, s0, i);
            lemma_state_index_bounds(m, walk_at(m, s0, i)->Some_0);
        }
    } else {
        lemma_distinct_prefix_card(m, s0, k - 1);
        assert(walk_index_set(m, s0, k) =~= walk_index_set(m, s0, k - 1).insert(
            state_index(m, sk),
        )) by {
            assert forall|ix: int| walk_index_set(m, s0, k).contains(ix) implies walk_index_set(
                m,
                s0,
                k - 1,
            ).insert(state_index(m, sk)).contains(ix) by {
                let i = choose|i: int|
                    0 <= i <= k && #[trigger] walk_at(m, s0, i) is Some && state_index(
                        m,
                        walk_at(m, s0, i)->Some_0,
                    ) == ix;
                if i < k {
                    assert(walk_index_set(m, s0, k - 1).contains(ix));
                }
            }
            assert forall|ix: int|
                walk_index_set(m, s0, k - 1).insert(state_index(m, sk)).contains(ix)
                implies walk_index_set(m, s0, k).contains(ix) by {
                if walk_index_set(m, s0, k - 1).contains(ix) {
                    let i = choose|i: int|
                        0 <= i <= k - 1 && #[trigger] walk_at(m, s0, i) is Some && state_index(
                            m,
                            walk_at(m, s0, i)->Some_0,
                        ) == ix;
                    assert(0 <= i <= k && walk_at(m, s0, i) is Some);
                } else {
                    assert(ix == state_index(m, sk));
                }
            }
        }
        assert(!walk_index_set(m, s0, k - 1).contains(state_index(m, sk))) by {
            if walk_index_set(m, s0, k - 1).contains(state_index(m, sk)) {
                let i = choose|i: int|
                    0 <= i <= k - 1 && #[trigger] walk_at(m, s0, i) is Some && state_index(
                        m,
                        walk_at(m, s0, i)->Some_0,
                    ) == state_index(m, sk);
                lemma_walk_valid(m, s0, i);
                lemma_state_index_injective(m, walk_at(m, s0, i)->Some_0, sk);
                assert(walk_at(m, s0, i) != walk_at(m, s0, k));
            }
        }
    }
}

/// Patrol termination: a walk that never revisits a state leaves the
/// bounded area within `4 * width * height` steps — there are only that
/// many states, so a longer walk must repeat one. (A guard boxed in on
/// all four sides from the start turns in place forever, revisiting its
/// states; the hypothesis excludes it, and such a walk indeed never
/// ends.)
pub proof fn lemma_patrol_termination(m: GridModel, s0: Position)
    requires
        m.wf(),
        m.width <= usize::MAX,
        m.height <= usize::MAX,
        m.valid_state(s0),
    ensures
        (forall|i: int, j: int|
            0 <= i < j <= 4 * m.width * m.height ==> walk_at(m, s0, i) != walk_at(m, s0, j))
            ==> exists|n: int|
            0 <= n <= 4 * m.width * m.height && walk_at(m, s0, n) is None,
{
    let bound = 4 * m.width * m.height;
    if forall|i: int, j: int| 0 <= i < j <= bound ==> walk_at(m, s0, i) != walk_at(m, s0, j) {
        if forall|n: int| 0 <= n <= bound ==> #[trigger] walk_at(m, s0, n) is Some {
            lemma_distinct_prefix_card(m, s0, bound);
            lemma_int_range(0, bound);
            lemma_len_subset(walk_index_set(m, s0, bound), set_int_range(0, bound));
            assert(false);
        } else {
            let n = choose|n: int| !(0 <= n <= bound ==> #[trigger] walk_at(m, s0, n) is Some);
            assert(0 <= n <= bound && walk_at(m, s0, n) is None);
        }
    }
}

/// Column of the cell `k` steps ahead of `s` along its facing.
pub open spec fn ahead_x(s: Position, k: int) -> int {
    s.point.x + k * s.dir.dx()
}

/// Row of the cell `k` steps ahead of `s` along its facing.
pub open spec fn ahead_y(s: Position, k: int) -> int {
    s.point.y + k * s.dir.dy()
}

/// The state `k` cells ahead of `s`, facing unchanged.
pub open spec fn pos_ahead(s: Position, k: int) -> Position {
    Position {
        point: Point { x: ahead_x(s, k) as usize, y: ahead_y(s, k) as usize },
        dir: s.dir,
    }
}

/// Evaluate the cell `j` steps ahead for each concrete facing.
pub proof fn lemma_ahead_eval(s: Position, j: int)
    ensures
        s.dir == Dir::Up ==> ahead_x(s, j) == s.point.x && ahead_y(s, j) == s.point.y - j,
        s.dir == Dir::Right ==> ahead_x(s, j) == s.point.x + j && ahead_y(s, j) == s.point.y,
        s.dir == Dir::Down ==> ahead_x(s, j) == s.point.x && ahead_y(s, j) == s.point.y + j,
        s.dir == Dir::Left ==> ahead_x(s, j) == s.point.x - j && ahead_y(s, j) == s.point.y,
{
    assert(j * 0 == 0) by (nonlinear_arith);
    assert(j * 1 == j) by (nonlinear_arith);
    assert(j * (-1) == -j) by (nonlinear_arith);
}

/// The walk from `pos` marches straight for `k` steps and then turns:
/// state `k` occupies the cell `k - 1` ahead with the facing rotated.
pub open spec fn straight_until_turn(m: GridModel, pos: Position, k: int, s2: Position) -> bool {
    &&& 1 <= k
    &&& forall|j: int| 0 <= j < k ==> walk_at(m, pos, j) == Some(pos_ahead(pos, j))
    &&& walk_at(m, pos, k) == Some(s2)
    &&& s2.point == pos_ahead(pos, k - 1).point
    &&& s2.dir == pos.dir.turn_spec()
}

/// The walk from `pos` marches straight for `k` steps and then leaves the
/// bounded area.
pub open spec fn straight_until_exit(m: GridModel, pos: Position, k: int) -> bool {
    &&& 0 <= k
    &&& forall|j: int| 0 <= j <= k ==> walk_at(m, pos, j) == Some(pos_ahead(pos, j))
    &&& walk_at(m, pos, k + 1) is None
}

/// While every cell ahead is free and on the map, the walk marches
/// straight through them, one step per cell.
pub proof fn lemma_straight_run(m: GridModel, s: Position, n: int)
    requires
        m.valid_state(s),
        0 <= n,
        m.width <= usize::MAX,
        m.height <= usize::MAX,
        forall|j: int| 1 <= j <= n ==> m.in_bounds(ahead_x(s, j), ahead_y(s, j)),
        forall|j: int| 1 <= j <= n ==> !m.obs.contains((ahead_x(s, j), ahead_y(s, j))),
    ensures
        forall|j: int| 0 <= j <= n ==> walk_at(m, s, j) == Some(pos_ahead(s, j)),
    decreases n,
{
    assert(ahead_x(s, 0) == s.point.x && ahead_y(s, 0) == s.point.y) by (nonlinear_arith);
    assert(pos_ahead(s, 0) == s);
    if n > 0 {
        lemma_straight_run(m, s, n - 1);
        let prev = pos_ahead(s, n - 1);
        if n - 1 == 0 {
            assert(m.in_bounds(ahead_x(s, 0), ahead_y(s, 0)));
        }
        assert(m.in_bounds(ahead_x(s, n - 1), ahead_y(s, n - 1)));
        assert(prev.point.x as int == ahead_x(s, n - 1));
        assert(prev.point.y as int == ahead_y(s, n - 1));
        assert(target_x(prev) == ahead_x(s, n) && target_y(prev) == ahead_y(s, n))
            by (nonlinear_arith)
            requires
                prev.point.x as int == ahead_x(s, n - 1),
                prev.point.y as int == ahead_y(s, n - 1),
                prev.dir == s.dir,
                ahead_x(s, n - 1) == s.point.x + (n - 1) * s.dir.dx(),
                ahead_y(s, n - 1) == s.point.y + (n - 1) * s.dir.dy(),
                ahead_x(s, n) == s.point.x + n * s.dir.dx(),
                ahead_y(s, n) == s.point.y + n * s.dir.dy(),
                target_x(prev) == prev.point.x + prev.dir.dx(),
                target_y(prev) == prev.point.y + prev.dir.dy(),
        ;
        assert(walk_at(m, s, n - 1) == Some(prev));
        assert(walk_at(m, s, n) == walk_next(m, prev));
        assert(walk_next(m, prev) == Some(pos_ahead(s, n)));
    }
}

} // verus!
