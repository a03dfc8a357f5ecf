use guard_patrol::detector::{evaluate_candidate, false_vec, resolve_candidate, Status};
use guard_patrol::geom::{Dir, Point, Position};
use guard_patrol::grid::Grid;
use guard_patrol::parse::{parse_map, solve};
use guard_patrol::patrol::{simulate, SolveError};

fn pt(x: usize, y: usize) -> Point {
    Point { x, y }
}

fn lines_of(rows: &[&str]) -> Vec<Vec<u8>> {
    rows.iter().map(|r| r.as_bytes().to_vec()).collect()
}

#[test]
fn golden_example_counts() {
    let lines = lines_of(&[
        "....#.....",
        ".........#",
        "..........",
        "..#.......",
        ".......#..",
        "..........",
        ".#..^.....",
        "........#.",
        "#.........",
        "......#...",
    ]);
    assert_eq!(solve(&lines), Ok((41, 6)));
}

#[test]
fn single_cell_map() {
    let lines = lines_of(&["^"]);
    assert_eq!(solve(&lines), Ok((1, 0)));
}

#[test]
fn straight_walk_north() {
    // The guard walks straight up and off the map; no cell can trap it.
    let lines = lines_of(&["...", "...", ".^."]);
    assert_eq!(solve(&lines), Ok((3, 0)));
}

#[test]
fn boxed_in_guard_never_exits() {
    let lines = lines_of(&[".#.", "#^#", ".#."]);
    assert_eq!(solve(&lines), Err(SolveError::EndlessPatrol));
}

#[test]
fn empty_input_is_rejected() {
    let lines: Vec<Vec<u8>> = Vec::new();
    assert_eq!(solve(&lines), Err(SolveError::EmptyInput));
}

#[test]
fn ragged_rows_are_rejected() {
    let lines = lines_of(&["..^", ".."]);
    assert_eq!(solve(&lines), Err(SolveError::NonRectangular));
}

#[test]
fn missing_start_is_rejected() {
    let lines = lines_of(&["..#", "..."]);
    assert_eq!(solve(&lines), Err(SolveError::NoStart));
}

#[test]
fn parse_reads_walls_and_start() {
    let lines = lines_of(&[".#", "^."]);
    let (width, height, obstructions, start) = parse_map(&lines).unwrap();
    assert_eq!(width, 2);
    assert_eq!(height, 2);
    assert_eq!(obstructions, vec![pt(1, 0)]);
    assert_eq!(start, pt(0, 1));
}

#[test]
fn last_start_marker_wins() {
    let lines = lines_of(&["^.", ".^"]);
    let (_, _, _, start) = parse_map(&lines).unwrap();
    assert_eq!(start, pt(1, 1));
}

#[test]
fn trial_detects_a_boxed_in_cycle() {
    // Walls on three sides; the candidate closes the box, so the trial
    // walk turns in place forever and must be caught.
    let g = Grid::new(3, 3, vec![pt(1, 0), pt(0, 1), pt(2, 1)]);
    let visited = false_vec(4 * 9);
    let entry = Position { point: pt(1, 1), dir: Dir::Up };
    assert_eq!(evaluate_candidate(&g, pt(1, 2), entry, &visited), Status::Loop);
}

#[test]
fn trial_reports_an_exiting_walk() {
    let g = Grid::new(3, 3, vec![]);
    let visited = false_vec(4 * 9);
    let entry = Position { point: pt(0, 1), dir: Dir::Right };
    assert_eq!(evaluate_candidate(&g, pt(1, 1), entry, &visited), Status::NotLoop);
}

#[test]
fn trial_reuses_real_walk_history() {
    // The real patrol is recorded as having faced down on cell (0,1)
    // (dense index 4 * (1 * 3 + 0) + 2). A trial that turns into that
    // very state must report a loop without any repeat of its own.
    let g = Grid::new(3, 3, vec![]);
    let mut visited = false_vec(4 * 9);
    visited[14] = true;
    let entry = Position { point: pt(0, 1), dir: Dir::Right };
    assert_eq!(evaluate_candidate(&g, pt(1, 1), entry, &visited), Status::Loop);
}

#[test]
fn resolved_candidate_keeps_its_verdict() {
    // The same candidate cell entered from two different states must
    // report the verdict cached at its first evaluation.
    let g = Grid::new(3, 3, vec![]);
    let visited = false_vec(4 * 9);
    let mut cache = vec![Status::Unknown; 9];
    let entry_one = Position { point: pt(0, 1), dir: Dir::Right };
    let first = resolve_candidate(&g, &mut cache, pt(1, 1), entry_one, &visited);
    assert_eq!(first, Status::NotLoop);
    assert_eq!(cache[4], Status::NotLoop);
    let cache_snapshot = cache.clone();
    let entry_two = Position { point: pt(1, 0), dir: Dir::Down };
    let second = resolve_candidate(&g, &mut cache, pt(1, 1), entry_two, &visited);
    assert_eq!(second, first);
    assert_eq!(cache, cache_snapshot);
}

#[test]
fn simulate_counts_turns_once_per_cell() {
    // The guard turns right at the wall and leaves to the east:
    // it occupies (1,2), (1,1) and then (2,1).
    let g = Grid::new(3, 3, vec![pt(1, 0)]);
    assert_eq!(simulate(&g, pt(1, 2)), Ok((3, 0)));
}
