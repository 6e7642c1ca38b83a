use puzzles::patrol::{AdvanceResult, Direction, EngineError, Lab, LoadError, Position};

fn grid(rows: &[&str]) -> Vec<Vec<char>> {
    rows.iter().map(|r| r.chars().collect()).collect()
}

fn load(rows: &[&str]) -> Lab {
    Lab::from_lines(&grid(rows)).expect("grid should load")
}

#[test]
fn straight_walk_exits_top() {
    let lab = load(&["....", ".^..", "....", "...."]);
    assert_eq!(lab.patrol_length(), Ok(2));
    assert_eq!(lab.count_loop_obstructions(), Ok(0));
}

#[test]
fn obstruction_above_turns_right() {
    let lab = load(&[".#..", ".^..", "...."]);
    assert_eq!(lab.patrol_length(), Ok(3));
}

#[test]
fn single_loop_candidate_minimal_grid() {
    let lab = load(&[".#..", "...#", "#^..", "...."]);
    assert_eq!(lab.patrol_length(), Ok(5));
    assert_eq!(lab.count_loop_obstructions(), Ok(1));
}

#[test]
fn guard_facing_edge_immediately_exits() {
    let lab = load(&[".^.", "...", "..."]);
    assert_eq!(lab.patrol_length(), Ok(1));
    assert_eq!(lab.count_loop_obstructions(), Ok(0));
}

#[test]
fn reversed_candidate_order_same_total() {
    let lab = load(&[".#..", "...#", "#^..", "...."]);
    let forward = lab.count_loop_obstructions();
    let backward = lab.count_loop_obstructions_reversed();
    assert_eq!(forward, backward);
    assert_eq!(forward, Ok(1));
}

#[test]
fn repeated_runs_are_identical() {
    let lab = load(&[".#..", "...#", "#^..", "...."]);
    assert_eq!(lab.patrol_length(), lab.patrol_length());
    assert_eq!(lab.count_loop_obstructions(), lab.count_loop_obstructions());
}

#[test]
fn template_with_builtin_loop_is_reported() {
    let lab = load(&[".#..", "...#", "#^..", "..#."]);
    assert_eq!(lab.patrol_length(), Err(EngineError::StuckOnTemplate));
}

#[test]
fn enclosed_guard_is_reported() {
    let lab = load(&[".#.", "#^#", ".#."]);
    assert_eq!(lab.patrol_length(), Err(EngineError::GuardEnclosed));
}

#[test]
fn loader_rejects_ragged_rows() {
    assert!(matches!(Lab::from_lines(&grid(&["...", ".^"])), Err(LoadError::RaggedRows)));
}

#[test]
fn loader_rejects_missing_guard() {
    assert!(matches!(Lab::from_lines(&grid(&["...", "..."])), Err(LoadError::NoGuard)));
    assert!(matches!(Lab::from_lines(&grid(&[])), Err(LoadError::NoGuard)));
}

#[test]
fn loader_rejects_two_guards() {
    assert!(matches!(Lab::from_lines(&grid(&["^..", "..^"])), Err(LoadError::MultipleGuards)));
}

#[test]
fn loader_builds_expected_cells() {
    let lab = load(&["#.", ".^"]);
    assert_eq!(lab.width, 2);
    assert_eq!(lab.position, (1, 1));
    assert_eq!(lab.direction, Direction::Up);
    assert!(matches!(lab.cell(0, 0), Position::Obstructed));
    assert!(matches!(lab.cell(1, 0), Position::Empty));
    assert!(matches!(lab.cell(0, 1), Position::Empty));
    assert!(matches!(lab.cell(1, 1), Position::Visited(Direction::Up)));
}

#[test]
fn turn_cycles_clockwise() {
    let mut d = Direction::Up;
    d.turn();
    assert_eq!(d, Direction::Right);
    d.turn();
    assert_eq!(d, Direction::Down);
    d.turn();
    assert_eq!(d, Direction::Left);
    d.turn();
    assert_eq!(d, Direction::Up);
}

#[test]
fn advance_turns_then_moves() {
    let mut lab = load(&[".#..", ".^..", "...."]);
    let r = lab.advance();
    assert!(matches!(r, AdvanceResult::NewPosition));
    assert_eq!(lab.position, (2, 1));
    assert_eq!(lab.direction, Direction::Right);
}

#[test]
fn next_position_respects_edges() {
    let lab = load(&["^..", "...", "..."]);
    assert_eq!(lab.next_position(), None);
    assert_eq!(lab.target_from(Direction::Right), Some((1, 0)));
    assert_eq!(lab.target_from(Direction::Down), Some((0, 1)));
    assert_eq!(lab.target_from(Direction::Left), None);
}

#[test]
fn cell_mut_writes_one_cell() {
    let mut lab = load(&["^..", "...", "..."]);
    *lab.cell_mut(2, 2) = Position::Obstructed;
    assert!(matches!(lab.cell(2, 2), Position::Obstructed));
    assert!(matches!(lab.cell(1, 2), Position::Empty));
}
