use mazegen::{CellPos, CellState, Maze};

fn rows(maze: &Maze) -> Vec<String> {
    (0..maze.height()).map(|y| maze.render_row(y).into_iter().collect()).collect()
}

fn open(maze: &Maze, p: CellPos) -> bool {
    matches!(maze.get(p), Some(state) if state != CellState::Blocked)
}

fn assert_finished(maze: &Maze) {
    let (w, h) = (maze.width(), maze.height());
    let mut nodes = 0;
    let mut links = 0;
    let mut entries = Vec::new();
    let mut exits = Vec::new();
    let mut lights = Vec::new();
    for x in 0..w {
        for y in 0..h {
            let p = CellPos(x, y);
            let state = maze.get(p).expect("every cell of the rectangle is stored");
            if x == 0 || y == 0 || x == w - 1 || y == h - 1 {
                assert_eq!(state, CellState::Blocked, "border cell ({x}, {y})");
            }
            match state {
                CellState::Entry => entries.push(p),
                CellState::Exit => exits.push(p),
                CellState::Light => lights.push(p),
                _ => {}
            }
            if x % 2 == 1 && y % 2 == 1 {
                assert!(open(maze, p), "node ({x}, {y}) left uncarved");
                nodes += 1;
            } else if open(maze, p) {
                assert!(x % 2 == 1 || y % 2 == 1);
                links += 1;
            }
        }
    }
    assert_eq!(links + 1, nodes);
    assert_eq!(entries, vec![CellPos(1, 1)]);
    assert_eq!(exits, vec![CellPos(w - 2, h - 2)]);
    let mut seen = vec![CellPos(1, 1)];
    let mut stack = vec![CellPos(1, 1)];
    while let Some(CellPos(x, y)) = stack.pop() {
        for next in [CellPos(x - 1, y), CellPos(x + 1, y), CellPos(x, y - 1), CellPos(x, y + 1)] {
            if open(maze, next) && !seen.contains(&next) {
                seen.push(next);
                stack.push(next);
            }
        }
    }
    assert!(seen.contains(&CellPos(w - 2, h - 2)));
    assert_eq!(seen.len(), nodes + links);
    for a in &lights {
        let mut cover_a = maze.light_footprint(*a);
        cover_a.push(*a);
        for b in &lights {
            if a != b {
                let mut cover_b = maze.light_footprint(*b);
                cover_b.push(*b);
                for q in &cover_a {
                    assert!(!cover_b.contains(q), "lights {a:?} and {b:?} both cover {q:?}");
                }
            }
        }
    }
}

#[test]
fn mark_boundary_stamps_the_two_interior_corners() {
    let mut maze = Maze::new(5, 7);
    maze.carve_with(&vec![0, 0]);
    let before = rows(&maze);
    maze.mark_boundary();
    assert_eq!(maze.get(CellPos(1, 1)), Some(CellState::Entry));
    assert_eq!(maze.get(CellPos(5, 3)), Some(CellState::Exit));
    let after = rows(&maze);
    for (y, (old, new)) in before.iter().zip(after.iter()).enumerate() {
        for (x, (o, n)) in old.chars().zip(new.chars()).enumerate() {
            if (x, y) != (1, 1) && (x, y) != (5, 3) {
                assert_eq!(o, n);
            }
        }
    }
}

#[test]
fn generating_with_an_empty_script_is_exact() {
    let mut maze = Maze::new(7, 7);
    maze.generate_with(&Vec::new());
    assert_eq!(
        rows(&maze),
        vec!["#######", "#E   .#", "# #####", "#    .#", "#.#####", "#    S#", "#######"]
    );
    assert_finished(&maze);
}

#[test]
fn the_same_script_gives_the_same_maze() {
    for seed in 0..10usize {
        let script: Vec<usize> = (0..400).map(|i| (i * 48271 + seed * 7) % 65537).collect();
        let mut first = Maze::new(13, 17);
        first.generate_with(&script);
        let mut second = Maze::new(13, 17);
        second.clear_grid();
        second.carve();
        second.generate_with(&script);
        assert_eq!(rows(&first), rows(&second));
    }
}

#[test]
fn different_scripts_can_give_different_mazes() {
    let mut first = Maze::new(9, 9);
    first.generate_with(&vec![0, 0, 0, 0, 0, 0]);
    let mut second = Maze::new(9, 9);
    second.generate_with(&vec![2, 4, 1, 0, 2, 1, 3, 0, 1, 1]);
    assert_ne!(rows(&first), rows(&second));
}

#[test]
fn scripted_mazes_are_finished() {
    for (h, w) in [(3, 5), (5, 3), (5, 5), (7, 9), (11, 11), (15, 15), (9, 21)] {
        for seed in 0..20usize {
            let script: Vec<usize> = (0..500).map(|i| (i * 2654435761 + seed * 40503) % 9973).collect();
            let mut maze = Maze::new(h, w);
            maze.generate_with(&script);
            assert_finished(&maze);
        }
    }
}

#[test]
fn random_mazes_are_finished() {
    for (h, w) in [(3, 5), (5, 5), (15, 15), (21, 31)] {
        for _ in 0..10 {
            let mut maze = Maze::new(h, w);
            maze.generate();
            assert_eq!(maze.height(), h);
            assert_eq!(maze.width(), w);
            assert_finished(&maze);
        }
    }
}

#[test]
fn random_generation_draws_different_mazes() {
    let mut first = Maze::new(15, 15);
    first.generate();
    let first = rows(&first);
    let mut differs = false;
    for _ in 0..20 {
        let mut other = Maze::new(15, 15);
        other.generate();
        if rows(&other) != first {
            differs = true;
        }
    }
    assert!(differs);
}

#[test]
fn a_15_by_15_maze_has_lights() {
    let mut maze = Maze::new(15, 15);
    maze.generate();
    let lit = rows(&maze).iter().map(|row| row.matches('.').count()).sum::<usize>();
    assert!(lit >= 1);
}
