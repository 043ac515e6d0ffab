use mazegen::{CellPos, CellState, Maze};

fn cleared(height: i32, width: i32) -> Maze {
    let mut maze = Maze::new(height, width);
    maze.clear_grid();
    maze
}

fn carve(maze: &mut Maze, cells: &[(i32, i32)]) {
    for &(x, y) in cells {
        assert_eq!(maze.set(CellPos(x, y), CellState::Passage), Ok(()));
    }
}

fn rows(maze: &Maze) -> Vec<String> {
    (0..maze.height()).map(|y| maze.render_row(y).into_iter().collect()).collect()
}

fn lights(maze: &Maze) -> Vec<CellPos> {
    let mut found = Vec::new();
    for x in 0..maze.width() {
        for y in 0..maze.height() {
            if maze.get(CellPos(x, y)) == Some(CellState::Light) {
                found.push(CellPos(x, y));
            }
        }
    }
    found
}

#[test]
fn footprint_in_a_corridor() {
    let mut maze = cleared(11, 3);
    carve(&mut maze, &[(1, 1), (1, 2), (1, 3), (1, 4), (1, 5), (1, 6), (1, 7), (1, 8), (1, 9)]);
    assert_eq!(
        maze.light_footprint(CellPos(1, 4)),
        vec![CellPos(1, 3), CellPos(1, 5), CellPos(1, 2), CellPos(1, 6)]
    );
    assert_eq!(maze.light_footprint(CellPos(1, 9)), vec![CellPos(1, 8), CellPos(1, 7)]);
    assert_eq!(maze.light_footprint(CellPos(1, 1)), vec![CellPos(1, 2), CellPos(1, 3)]);
}

#[test]
fn footprint_takes_diagonals_and_sees_through_near_cells_only() {
    let mut maze = cleared(7, 7);
    carve(&mut maze, &[(3, 3), (2, 3), (1, 3), (5, 3), (3, 5), (4, 4), (2, 2)]);
    assert_eq!(
        maze.light_footprint(CellPos(3, 3)),
        vec![CellPos(2, 3), CellPos(2, 2), CellPos(4, 4), CellPos(1, 3)]
    );
}

#[test]
fn footprint_of_a_walled_in_cell_is_empty() {
    let mut maze = cleared(3, 3);
    carve(&mut maze, &[(1, 1)]);
    assert_eq!(maze.light_footprint(CellPos(1, 1)), vec![]);
    assert_eq!(maze.light_footprint(CellPos(9, 9)), vec![]);
}

#[test]
fn lights_in_a_corridor_stand_where_the_walk_places_them() {
    let mut maze = cleared(11, 3);
    carve(&mut maze, &[(1, 1), (1, 2), (1, 3), (1, 4), (1, 5), (1, 6), (1, 7), (1, 8), (1, 9)]);
    maze.generate_light();
    assert_eq!(lights(&maze), vec![CellPos(1, 4), CellPos(1, 9)]);
    assert_eq!(
        rows(&maze),
        vec!["###", "# #", "# #", "# #", "#.#", "# #", "# #", "# #", "# #", "#.#", "###"]
    );
}

#[test]
fn no_light_within_three_steps_of_the_start() {
    let mut maze = cleared(5, 3);
    carve(&mut maze, &[(1, 1), (1, 2), (1, 3)]);
    maze.generate_light();
    assert_eq!(lights(&maze), vec![]);
}

#[test]
fn the_fourth_cell_visited_is_lit() {
    let mut maze = cleared(3, 6);
    carve(&mut maze, &[(1, 1), (2, 1), (3, 1), (4, 1)]);
    maze.generate_light();
    assert_eq!(lights(&maze), vec![CellPos(4, 1)]);
}

#[test]
fn lighting_an_uncleared_or_all_wall_maze_changes_nothing() {
    let mut maze = Maze::new(5, 5);
    maze.generate_light();
    assert_eq!(maze.get(CellPos(1, 1)), None);
    let mut maze = cleared(5, 5);
    maze.generate_light();
    assert_eq!(rows(&maze), vec!["#####"; 5]);
}

#[test]
fn the_walk_does_not_cross_entry_or_exit() {
    let mut maze = cleared(3, 9);
    carve(&mut maze, &[(1, 1), (2, 1), (3, 1), (5, 1), (6, 1), (7, 1)]);
    assert_eq!(maze.set(CellPos(4, 1), CellState::Exit), Ok(()));
    maze.generate_light();
    assert_eq!(rows(&maze), vec!["#########", "#   S   #", "#########"]);
}

#[test]
fn the_walk_ends_on_a_grid_with_cycles() {
    let mut maze = cleared(6, 6);
    for x in 0..6 {
        for y in 0..6 {
            carve(&mut maze, &[(x, y)]);
        }
    }
    maze.generate_light();
    let placed = lights(&maze);
    assert!(!placed.is_empty());
    for a in &placed {
        let mut cover_a = maze.light_footprint(*a);
        cover_a.push(*a);
        for b in &placed {
            if a != b {
                let mut cover_b = maze.light_footprint(*b);
                cover_b.push(*b);
                for q in &cover_a {
                    assert!(!cover_b.contains(q));
                }
            }
        }
    }
}

#[test]
fn lighting_changes_passages_only() {
    let mut maze = Maze::new(15, 15);
    maze.carve_with(&(0..300).map(|i| i * 31 + 7).collect());
    let before: Vec<Option<CellState>> =
        (0..15).flat_map(|y| (0..15).map(move |x| (x, y))).map(|(x, y)| maze.get(CellPos(x, y))).collect();
    maze.generate_light();
    let after: Vec<Option<CellState>> =
        (0..15).flat_map(|y| (0..15).map(move |x| (x, y))).map(|(x, y)| maze.get(CellPos(x, y))).collect();
    let mut lit = 0;
    for (old, new) in before.iter().zip(after.iter()) {
        if old != new {
            assert_eq!(*old, Some(CellState::Passage));
            assert_eq!(*new, Some(CellState::Light));
            lit += 1;
        }
    }
    assert!(lit > 0);
}
