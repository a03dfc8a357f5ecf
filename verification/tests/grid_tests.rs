use guard_patrol::geom::{Dir, Point, Position};
use guard_patrol::grid::{Grid, GridState};
use guard_patrol::patrol::{simulate, SolveError};

fn pt(x: usize, y: usize) -> Point {
    Point { x, y }
}

#[test]
fn turn_right_cycles_clockwise() {
    assert_eq!(Dir::Up.turn_right(), Dir::Right);
    assert_eq!(Dir::Right.turn_right(), Dir::Down);
    assert_eq!(Dir::Down.turn_right(), Dir::Left);
    assert_eq!(Dir::Left.turn_right(), Dir::Up);
}

#[test]
fn to_index_packs_four_facings_per_cell() {
    assert_eq!(Dir::Up.to_index(0), 0);
    assert_eq!(Dir::Right.to_index(3), 13);
    assert_eq!(Dir::Down.to_index(3), 14);
    assert_eq!(Dir::Left.to_index(7), 31);
}

#[test]
fn bounds_and_obstruction_queries() {
    let g = Grid::new(3, 2, vec![pt(1, 0), pt(2, 1)]);
    assert!(g.is_in_bounds(pt(0, 0)));
    assert!(g.is_in_bounds(pt(2, 1)));
    assert!(!g.is_in_bounds(pt(3, 0)));
    assert!(!g.is_in_bounds(pt(0, 2)));
    assert!(g.is_obstruction(pt(1, 0)));
    assert!(g.is_obstruction(pt(2, 1)));
    assert!(!g.is_obstruction(pt(0, 0)));
    assert!(!g.is_obstruction(pt(1, 1)));
}

#[test]
fn point_index_is_row_major() {
    let g = Grid::new(10, 5, vec![]);
    assert_eq!(g.point_index(pt(0, 0)), 0);
    assert_eq!(g.point_index(pt(3, 2)), 23);
    assert_eq!(g.point_index(pt(9, 4)), 49);
}

#[test]
fn step_reports_edge_wall_or_floor() {
    let g = Grid::new(3, 3, vec![pt(1, 0)]);
    let up_into_wall = Position { point: pt(1, 1), dir: Dir::Up };
    assert_eq!(g.step(up_into_wall), GridState::Obstruction);
    let up_off_map = Position { point: pt(0, 0), dir: Dir::Up };
    assert_eq!(g.step(up_off_map), GridState::OutOfBounds);
    let right_onto_floor = Position { point: pt(1, 1), dir: Dir::Right };
    assert_eq!(g.step(right_onto_floor), GridState::Point(pt(2, 1)));
    let left_off_map = Position { point: pt(0, 1), dir: Dir::Left };
    assert_eq!(g.step(left_off_map), GridState::OutOfBounds);
}

#[test]
fn derived_grid_leaves_parent_unchanged() {
    let g = Grid::new(3, 3, vec![pt(2, 2)]);
    let mut before = Vec::new();
    for y in 0..3 {
        for x in 0..3 {
            before.push(g.is_obstruction(pt(x, y)));
        }
    }
    let extended = g.with_obstruction(pt(1, 1));
    // Marching against the extension turns where the extra wall stands.
    let stop = extended.stops(Position { point: pt(1, 2), dir: Dir::Up });
    assert_eq!(stop, Some(Position { point: pt(1, 2), dir: Dir::Right }));
    // The parent grid answers every query exactly as before.
    let mut after = Vec::new();
    for y in 0..3 {
        for x in 0..3 {
            after.push(g.is_obstruction(pt(x, y)));
        }
    }
    assert_eq!(before, after);
    assert!(!g.is_obstruction(pt(1, 1)));
}

#[test]
fn stops_jumps_to_next_turn() {
    let g = Grid::new(6, 2, vec![pt(4, 0)]);
    let extended = g.with_obstruction(pt(5, 1));
    let first = extended.stops(Position { point: pt(0, 0), dir: Dir::Right });
    assert_eq!(first, Some(Position { point: pt(3, 0), dir: Dir::Down }));
    // Marching down from there leaves the map: no further stop.
    let second = extended.stops(Position { point: pt(3, 0), dir: Dir::Down });
    assert_eq!(second, None);
}

#[test]
fn obstructed_start_is_rejected() {
    let g = Grid::new(3, 3, vec![pt(1, 1)]);
    assert_eq!(simulate(&g, pt(1, 1)), Err(SolveError::StartObstructed));
}
