use mazegen::carve::{next_choice, start_cell};
use mazegen::{CellPos, CellState, Maze};

fn cleared(height: i32, width: i32) -> Maze {
    let mut maze = Maze::new(height, width);
    maze.clear_grid();
    maze
}

fn states(maze: &Maze) -> Vec<Option<CellState>> {
    let mut all = Vec::new();
    for y in 0..maze.height() {
        for x in 0..maze.width() {
            all.push(maze.get(CellPos(x, y)));
        }
    }
    all
}

fn odd(v: i32) -> bool {
    v % 2 != 0
}

fn assert_tree(maze: &Maze) {
    let (w, h) = (maze.width(), maze.height());
    let mut nodes = 0;
    let mut links = 0;
    for x in 0..w {
        for y in 0..h {
            let state = maze.get(CellPos(x, y)).unwrap();
            if state == CellState::Blocked {
                assert!(!(odd(x) && odd(y)), "node ({x}, {y}) left uncarved");
                continue;
            }
            if odd(x) && odd(y) {
                nodes += 1;
            } else {
                assert!(odd(x) != odd(y), "cell ({x}, {y}) carved off the lattice");
                links += 1;
                let (a, b) = if odd(y) {
                    (CellPos(x - 1, y), CellPos(x + 1, y))
                } else {
                    (CellPos(x, y - 1), CellPos(x, y + 1))
                };
                assert!(matches!(maze.get(a), Some(s) if s != CellState::Blocked));
                assert!(matches!(maze.get(b), Some(s) if s != CellState::Blocked));
            }
        }
    }
    assert_eq!(links + 1, nodes);
    let mut seen = vec![CellPos(1, 1)];
    let mut stack = vec![CellPos(1, 1)];
    while let Some(CellPos(x, y)) = stack.pop() {
        for next in [CellPos(x - 1, y), CellPos(x + 1, y), CellPos(x, y - 1), CellPos(x, y + 1)] {
            let open = matches!(maze.get(next), Some(s) if s != CellState::Blocked);
            if open && !seen.contains(&next) {
                seen.push(next);
                stack.push(next);
            }
        }
    }
    assert_eq!(seen.len(), nodes + links);
}

#[test]
fn start_cell_rounds_even_samples_up() {
    assert_eq!(start_cell(1, 1), CellPos(1, 1));
    assert_eq!(start_cell(2, 3), CellPos(3, 3));
    assert_eq!(start_cell(5, 4), CellPos(5, 5));
    assert_eq!(start_cell(12, 12), CellPos(13, 13));
    assert_eq!(start_cell(0, -2), CellPos(1, -1));
    assert_eq!(start_cell(-3, i32::MAX), CellPos(-3, i32::MAX));
}

#[test]
fn next_choice_reduces_the_entry_and_moves_on() {
    let script = vec![7, 3, 10];
    let mut at = 0;
    assert_eq!(next_choice(&script, &mut at, 5), 2);
    assert_eq!(at, 1);
    assert_eq!(next_choice(&script, &mut at, 5), 3);
    assert_eq!(at, 2);
    assert_eq!(next_choice(&script, &mut at, 1), 0);
    assert_eq!(at, 3);
}

#[test]
fn next_choice_is_the_first_alternative_past_the_end() {
    let script = vec![4];
    let mut at = 1;
    assert_eq!(next_choice(&script, &mut at, 3), 0);
    assert_eq!(at, 1);
    let empty: Vec<usize> = Vec::new();
    let mut at = 0;
    assert_eq!(next_choice(&empty, &mut at, 9), 0);
    assert_eq!(at, 0);
}

#[test]
fn open_start_carves_the_start_and_returns_the_walls_around() {
    let mut maze = cleared(7, 7);
    let frontier = maze.open_start(CellPos(3, 3));
    assert_eq!(maze.get(CellPos(3, 3)), Some(CellState::Passage));
    assert_eq!(frontier, vec![CellPos(1, 3), CellPos(5, 3), CellPos(3, 1), CellPos(3, 5)]);
}

#[test]
fn open_start_in_a_corner_has_two_frontier_cells() {
    let mut maze = cleared(5, 5);
    let frontier = maze.open_start(CellPos(1, 1));
    assert_eq!(frontier, vec![CellPos(3, 1), CellPos(1, 3)]);
}

#[test]
fn connect_carves_the_cell_and_the_one_between() {
    let mut maze = cleared(7, 7);
    let mut frontier = maze.open_start(CellPos(3, 3));
    let cell = frontier.swap_remove(1);
    assert_eq!(cell, CellPos(5, 3));
    assert_eq!(frontier, vec![CellPos(1, 3), CellPos(3, 5), CellPos(3, 1)]);
    maze.connect(cell, CellPos(3, 3), &mut frontier);
    assert_eq!(maze.get(CellPos(4, 3)), Some(CellState::Passage));
    assert_eq!(maze.get(CellPos(5, 3)), Some(CellState::Passage));
    assert_eq!(
        frontier,
        vec![CellPos(1, 3), CellPos(3, 5), CellPos(3, 1), CellPos(5, 1), CellPos(5, 5)]
    );
    let carved = states(&maze).into_iter().filter(|s| *s == Some(CellState::Passage)).count();
    assert_eq!(carved, 3);
}

#[test]
fn connect_adds_no_frontier_cell_twice() {
    let mut maze = cleared(5, 5);
    let mut frontier = maze.open_start(CellPos(1, 1));
    let cell = frontier.swap_remove(0);
    assert_eq!(cell, CellPos(3, 1));
    maze.connect(cell, CellPos(1, 1), &mut frontier);
    assert_eq!(frontier, vec![CellPos(1, 3), CellPos(3, 3)]);
    let cell = frontier.swap_remove(0);
    maze.connect(cell, CellPos(1, 1), &mut frontier);
    assert_eq!(frontier, vec![CellPos(3, 3)]);
}

#[test]
fn carving_a_5_by_5_grid_from_1_1_leaves_1_1_a_passage() {
    let mut maze = cleared(5, 5);
    for cell in states(&maze) {
        assert_eq!(cell, Some(CellState::Blocked));
    }
    maze.carve_with(&vec![0, 0]);
    assert_eq!(maze.get(CellPos(1, 1)), Some(CellState::Passage));
    assert_tree(&maze);
}

#[test]
fn carving_with_an_empty_script_is_exact() {
    let mut maze = Maze::new(5, 5);
    maze.carve_with(&Vec::new());
    let rows: Vec<String> = (0..5).map(|y| maze.render_row(y).into_iter().collect()).collect();
    assert_eq!(rows, vec!["#####", "#   #", "# ###", "#   #", "#####"]);
}

#[test]
fn carving_with_a_script_is_exact() {
    let mut maze = Maze::new(5, 5);
    maze.carve_with(&vec![1, 2, 1, 0, 1, 0, 0, 1]);
    let rows: Vec<String> = (0..5).map(|y| maze.render_row(y).into_iter().collect()).collect();
    assert_eq!(rows, vec!["#####", "#   #", "# # #", "# # #", "#####"]);
}

#[test]
fn carving_a_3_by_3_grid_opens_the_one_node() {
    let mut maze = Maze::new(3, 3);
    maze.carve_with(&vec![5, 9]);
    let rows: Vec<String> = (0..3).map(|y| maze.render_row(y).into_iter().collect()).collect();
    assert_eq!(rows, vec!["###", "# #", "###"]);
    let mut maze = Maze::new(3, 3);
    maze.carve();
    assert_eq!(maze.get(CellPos(1, 1)), Some(CellState::Passage));
    assert_tree(&maze);
}

#[test]
fn scripted_carving_gives_a_tree_for_many_scripts_and_sizes() {
    for (h, w) in [(5, 5), (7, 5), (5, 9), (11, 11), (15, 9), (3, 7)] {
        for seed in 0..25usize {
            let script: Vec<usize> = (0..200).map(|i| (i * 7919 + seed * 104729) % 1009).collect();
            let mut maze = Maze::new(h, w);
            maze.carve_with(&script);
            assert_tree(&maze);
        }
    }
}

#[test]
fn random_carving_gives_a_tree() {
    for (h, w) in [(5, 5), (9, 13), (15, 15), (21, 7)] {
        for _ in 0..10 {
            let mut maze = Maze::new(h, w);
            maze.carve();
            assert_tree(&maze);
            for cell in states(&maze) {
                assert!(cell == Some(CellState::Blocked) || cell == Some(CellState::Passage));
            }
        }
    }
}

#[test]
fn random_carving_draws_different_mazes() {
    let mut first = Maze::new(15, 15);
    first.carve();
    let first = states(&first);
    let mut differs = false;
    for _ in 0..20 {
        let mut other = Maze::new(15, 15);
        other.carve();
        if states(&other) != first {
            differs = true;
        }
    }
    assert!(differs);
}

#[test]
fn carving_clears_what_was_there() {
    let mut maze = cleared(5, 5);
    assert_eq!(maze.set(CellPos(0, 0), CellState::Light), Ok(()));
    assert_eq!(maze.set(CellPos(2, 2), CellState::Exit), Ok(()));
    maze.carve_with(&vec![0, 0, 0, 0]);
    assert_eq!(maze.get(CellPos(0, 0)), Some(CellState::Blocked));
    assert_eq!(maze.get(CellPos(2, 2)), Some(CellState::Blocked));
}

#[test]
fn carving_an_odd_sized_grid_keeps_the_border_wall() {
    for seed in 0..10usize {
        let script: Vec<usize> = (0..300).map(|i| (i * 131 + seed * 977) % 613).collect();
        let mut maze = Maze::new(9, 13);
        maze.carve_with(&script);
        for x in 0..13 {
            assert_eq!(maze.get(CellPos(x, 0)), Some(CellState::Blocked));
            assert_eq!(maze.get(CellPos(x, 8)), Some(CellState::Blocked));
        }
        for y in 0..9 {
            assert_eq!(maze.get(CellPos(0, y)), Some(CellState::Blocked));
            assert_eq!(maze.get(CellPos(12, y)), Some(CellState::Blocked));
        }
    }
}

#[test]
fn carving_an_even_sized_grid_still_gives_a_tree() {
    for seed in 0..10usize {
        let script: Vec<usize> = (0..300).map(|i| (i * 37 + seed * 211) % 401).collect();
        let mut maze = Maze::new(6, 8);
        maze.carve_with(&script);
        assert_tree(&maze);
        let mut maze = Maze::new(4, 4);
        maze.carve();
        assert_tree(&maze);
    }
}
