use mazegen::{CellPos, CellState, Maze};

fn cleared(height: i32, width: i32) -> Maze {
    let mut maze = Maze::new(height, width);
    maze.clear_grid();
    maze
}

fn carve(maze: &mut Maze, cells: &[(i32, i32)]) {
    for &(x, y) in cells {
        assert_eq!(maze.set(CellPos(x, y), CellState::Passage), Ok(()));
    }
}

#[test]
fn step_two_query_finds_all_four_passages() {
    let mut maze = cleared(7, 7);
    carve(&mut maze, &[(1, 3), (5, 3), (3, 1), (3, 5)]);
    let found = maze.get_adjcells(CellPos(3, 3), CellState::Passage, 2);
    assert_eq!(found, vec![CellPos(1, 3), CellPos(5, 3), CellPos(3, 1), CellPos(3, 5)]);
}

#[test]
fn corner_query_finds_only_the_two_cells_inside() {
    let maze = cleared(7, 7);
    let found = maze.get_adjcells(CellPos(0, 0), CellState::Blocked, 2);
    assert_eq!(found, vec![CellPos(2, 0), CellPos(0, 2)]);
}

#[test]
fn query_for_walls_passes_over_passages() {
    let mut maze = cleared(5, 5);
    carve(&mut maze, &[(1, 2), (2, 3)]);
    let found = maze.get_adjcells(CellPos(2, 2), CellState::Blocked, 1);
    assert_eq!(found, vec![CellPos(3, 2), CellPos(2, 1)]);
}

#[test]
fn query_for_passages_finds_lights_but_not_entry_or_exit() {
    let mut maze = cleared(5, 5);
    assert_eq!(maze.set(CellPos(1, 2), CellState::Light), Ok(()));
    assert_eq!(maze.set(CellPos(3, 2), CellState::Entry), Ok(()));
    assert_eq!(maze.set(CellPos(2, 1), CellState::Exit), Ok(()));
    assert_eq!(maze.set(CellPos(2, 3), CellState::Passage), Ok(()));
    let found = maze.get_adjcells(CellPos(2, 2), CellState::Passage, 1);
    assert_eq!(found, vec![CellPos(1, 2), CellPos(2, 3)]);
}

#[test]
fn query_for_any_carved_state_finds_passages_and_lights() {
    let mut maze = cleared(5, 5);
    assert_eq!(maze.set(CellPos(1, 2), CellState::Light), Ok(()));
    assert_eq!(maze.set(CellPos(3, 2), CellState::Entry), Ok(()));
    assert_eq!(maze.set(CellPos(2, 3), CellState::Passage), Ok(()));
    for target in [CellState::Light, CellState::Entry, CellState::Exit] {
        let found = maze.get_adjcells(CellPos(2, 2), target, 1);
        assert_eq!(found, vec![CellPos(1, 2), CellPos(2, 3)]);
    }
}

#[test]
fn query_on_an_uncleared_maze_is_empty() {
    let maze = Maze::new(5, 5);
    assert_eq!(maze.get_adjcells(CellPos(2, 2), CellState::Blocked, 1), vec![]);
    assert_eq!(maze.get_adjcells(CellPos(2, 2), CellState::Passage, 2), vec![]);
}

#[test]
fn query_at_distance_zero_lists_the_centre_once() {
    let maze = cleared(3, 3);
    assert_eq!(maze.get_adjcells(CellPos(1, 1), CellState::Blocked, 0), vec![CellPos(1, 1)]);
    assert_eq!(maze.get_adjcells(CellPos(1, 1), CellState::Passage, 0), vec![]);
}

#[test]
fn query_with_a_negative_distance_swaps_the_sides() {
    let maze = cleared(5, 5);
    let found = maze.get_adjcells(CellPos(2, 2), CellState::Blocked, -1);
    assert_eq!(found, vec![CellPos(3, 2), CellPos(1, 2), CellPos(2, 3), CellPos(2, 1)]);
}

#[test]
fn query_far_outside_the_number_range_is_empty() {
    let maze = cleared(5, 5);
    assert_eq!(maze.get_adjcells(CellPos(2, 2), CellState::Blocked, i32::MAX), vec![]);
    assert_eq!(maze.get_adjcells(CellPos(2, 2), CellState::Blocked, i32::MIN), vec![]);
    assert_eq!(
        maze.get_adjcells(CellPos(i32::MAX, i32::MAX), CellState::Blocked, 2),
        vec![]
    );
}

#[test]
fn diagonal_query_appends_the_carved_corners() {
    let mut maze = cleared(5, 5);
    carve(&mut maze, &[(1, 1), (3, 3)]);
    assert_eq!(maze.set(CellPos(3, 1), CellState::Light), Ok(()));
    let mut found = vec![CellPos(0, 0)];
    maze.get_diagonal_cells(&mut found, CellPos(2, 2));
    assert_eq!(found, vec![CellPos(0, 0), CellPos(1, 1), CellPos(3, 1), CellPos(3, 3)]);
}

#[test]
fn diagonal_query_counts_entry_and_exit_as_carved() {
    let mut maze = cleared(3, 3);
    assert_eq!(maze.set(CellPos(0, 0), CellState::Entry), Ok(()));
    assert_eq!(maze.set(CellPos(2, 2), CellState::Exit), Ok(()));
    let mut found = Vec::new();
    maze.get_diagonal_cells(&mut found, CellPos(1, 1));
    assert_eq!(found, vec![CellPos(0, 0), CellPos(2, 2)]);
}

#[test]
fn diagonal_query_at_a_corner_stays_inside() {
    let mut maze = cleared(3, 3);
    carve(&mut maze, &[(1, 1)]);
    let mut found = Vec::new();
    maze.get_diagonal_cells(&mut found, CellPos(0, 0));
    assert_eq!(found, vec![CellPos(1, 1)]);
    let mut found = Vec::new();
    maze.get_diagonal_cells(&mut found, CellPos(i32::MIN, i32::MAX));
    assert_eq!(found, vec![]);
}
