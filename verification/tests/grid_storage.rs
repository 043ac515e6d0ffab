use mazegen::{CellPos, CellState, GridError, Maze};

#[test]
fn new_maze_stores_nothing_until_cleared() {
    let maze = Maze::new(5, 7);
    assert_eq!(maze.height(), 5);
    assert_eq!(maze.width(), 7);
    for x in -1..8 {
        for y in -1..6 {
            assert_eq!(maze.get(CellPos(x, y)), None);
        }
    }
}

#[test]
fn clear_blocks_all_25_cells_of_a_5_by_5_grid() {
    let mut maze = Maze::new(5, 5);
    maze.clear_grid();
    let mut blocked = 0;
    for x in 0..5 {
        for y in 0..5 {
            assert_eq!(maze.get(CellPos(x, y)), Some(CellState::Blocked));
            blocked += 1;
        }
    }
    assert_eq!(blocked, 25);
}

#[test]
fn get_outside_the_rectangle_is_none() {
    let mut maze = Maze::new(3, 4);
    maze.clear_grid();
    assert_eq!(maze.get(CellPos(-1, 0)), None);
    assert_eq!(maze.get(CellPos(0, -1)), None);
    assert_eq!(maze.get(CellPos(4, 0)), None);
    assert_eq!(maze.get(CellPos(0, 3)), None);
    assert_eq!(maze.get(CellPos(3, 2)), Some(CellState::Blocked));
    assert_eq!(maze.get(CellPos(i32::MAX, i32::MIN)), None);
}

#[test]
fn width_and_height_are_not_mixed_up() {
    let mut maze = Maze::new(2, 6);
    maze.clear_grid();
    assert_eq!(maze.get(CellPos(5, 1)), Some(CellState::Blocked));
    assert_eq!(maze.get(CellPos(1, 5)), None);
}

#[test]
fn set_replaces_one_state_only() {
    let mut maze = Maze::new(3, 3);
    maze.clear_grid();
    assert_eq!(maze.set(CellPos(1, 2), CellState::Light), Ok(()));
    for x in 0..3 {
        for y in 0..3 {
            let expected = if (x, y) == (1, 2) { CellState::Light } else { CellState::Blocked };
            assert_eq!(maze.get(CellPos(x, y)), Some(expected));
        }
    }
}

#[test]
fn set_outside_the_domain_is_turned_down() {
    let mut maze = Maze::new(3, 3);
    assert_eq!(maze.set(CellPos(1, 1), CellState::Passage), Err(GridError::OutOfDomain));
    assert_eq!(maze.get(CellPos(1, 1)), None);
    maze.clear_grid();
    assert_eq!(maze.set(CellPos(3, 1), CellState::Passage), Err(GridError::OutOfDomain));
    assert_eq!(maze.set(CellPos(-1, 1), CellState::Passage), Err(GridError::OutOfDomain));
    assert_eq!(maze.get(CellPos(3, 1)), None);
}

#[test]
fn clear_twice_is_clear_once() {
    let mut once = Maze::new(4, 6);
    once.clear_grid();
    let mut twice = Maze::new(4, 6);
    twice.clear_grid();
    twice.clear_grid();
    for x in -1..7 {
        for y in -1..5 {
            assert_eq!(once.get(CellPos(x, y)), twice.get(CellPos(x, y)));
        }
    }
}

#[test]
fn clear_wipes_what_was_set() {
    let mut maze = Maze::new(3, 3);
    maze.clear_grid();
    assert_eq!(maze.set(CellPos(1, 1), CellState::Exit), Ok(()));
    maze.clear_grid();
    assert_eq!(maze.get(CellPos(1, 1)), Some(CellState::Blocked));
}

#[test]
fn a_maze_without_columns_or_rows_stays_empty() {
    let mut maze = Maze::new(0, 5);
    maze.clear_grid();
    assert_eq!(maze.get(CellPos(0, 0)), None);
    let mut maze = Maze::new(5, -3);
    maze.clear_grid();
    assert_eq!(maze.get(CellPos(0, 0)), None);
}

#[test]
fn midpoint_is_the_cell_between() {
    assert_eq!(CellPos(3, 5).midpoint(CellPos(5, 5)), CellPos(4, 5));
    assert_eq!(CellPos(3, 5).midpoint(CellPos(1, 5)), CellPos(2, 5));
    assert_eq!(CellPos(3, 5).midpoint(CellPos(3, 7)), CellPos(3, 6));
    assert_eq!(CellPos(3, 5).midpoint(CellPos(3, 3)), CellPos(3, 4));
}

#[test]
fn midpoint_rounds_towards_the_first_cell() {
    assert_eq!(CellPos(0, 0).midpoint(CellPos(3, -3)), CellPos(1, -1));
    assert_eq!(CellPos(3, -3).midpoint(CellPos(0, 0)), CellPos(2, -2));
    assert_eq!(CellPos(i32::MIN, i32::MAX).midpoint(CellPos(i32::MAX, i32::MIN)), CellPos(-1, 0));
}

#[test]
fn glyphs_of_the_five_states() {
    assert_eq!(CellState::Blocked.glyph(), '#');
    assert_eq!(CellState::Passage.glyph(), ' ');
    assert_eq!(CellState::Light.glyph(), '.');
    assert_eq!(CellState::Entry.glyph(), 'E');
    assert_eq!(CellState::Exit.glyph(), 'S');
}

#[test]
fn render_row_draws_stored_cells_from_left_to_right() {
    let mut maze = Maze::new(2, 5);
    assert_eq!(maze.render_row(0), Vec::<char>::new());
    maze.clear_grid();
    assert_eq!(maze.set(CellPos(1, 1), CellState::Entry), Ok(()));
    assert_eq!(maze.set(CellPos(2, 1), CellState::Passage), Ok(()));
    assert_eq!(maze.set(CellPos(3, 1), CellState::Light), Ok(()));
    assert_eq!(maze.set(CellPos(4, 1), CellState::Exit), Ok(()));
    assert_eq!(maze.render_row(0), vec!['#', '#', '#', '#', '#']);
    assert_eq!(maze.render_row(1), vec!['#', 'E', ' ', '.', 'S']);
    assert_eq!(maze.render_row(2), Vec::<char>::new());
}
