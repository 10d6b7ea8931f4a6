use mazeweb::cell::{Cell, CellType, WALL_E, WALL_N, WALL_S, WALL_W};
use mazeweb::generators::generator::MazeBuilder;
use mazeweb::maze::Maze;
use mazeweb::utils::Draws;

fn words(seed: u32, n: usize) -> Vec<u32> {
    let mut x = seed;
    let mut out = Vec::new();
    for _ in 0..n {
        x = x.wrapping_mul(1664525).wrapping_add(1013904223);
        out.push(x);
    }
    out
}

#[test]
fn new_builder_has_one_empty_step() {
    let mut b = MazeBuilder::new();
    assert_eq!(b.total_steps(), 1);
    assert_eq!(b.current_step(), 0);
    let mut maze = Maze::new(2, 2);
    assert!(b.step_forward(&mut maze));
    assert_eq!(b.current_step(), 1);
    assert!(!b.step_forward(&mut maze));
    assert_eq!(b.current_step(), 1);
    assert!(maze.get_cells().iter().all(|c| c.raw() == 0));
    assert!(b.step_backward(&mut maze));
    assert!(!b.step_backward(&mut maze));
    assert_eq!(b.current_step(), 0);
}

#[test]
fn generate_all_then_replay_everything() {
    let start = Maze::new(3, 3);
    let mut b = MazeBuilder::with_generator("kruskals");
    let mut draws = Draws::new(words(1, 11));
    assert!(b.generate_all(&start, &mut draws));
    assert_eq!(b.total_steps(), 9);
    assert_eq!(b.current_step(), 0);
    let mut maze = start.clone();
    assert!(b.fits_first(9, &maze));
    b.step_to(8, &mut maze);
    assert_eq!(b.current_step(), 9);
    // every inner boundary is seen the same way from both sides
    for r in 0..3u32 {
        for c in 0..2u32 {
            assert_eq!(maze.get_cell(r, c).has_wall(WALL_E), maze.get_cell(r, c + 1).has_wall(WALL_W));
        }
    }
    // stepping further does nothing
    let before = maze.clone();
    assert!(!b.step_forward(&mut maze));
    assert_eq!(maze.get_cells(), before.get_cells());
}

#[test]
fn step_backward_undoes_step_forward() {
    let start = Maze::new(3, 3);
    let mut b = MazeBuilder::with_generator("kruskals");
    let mut draws = Draws::new(words(2, 11));
    assert!(b.generate_all(&start, &mut draws));
    let mut maze = start.clone();
    let mut states = vec![maze.clone()];
    while b.step_forward(&mut maze) {
        states.push(maze.clone());
    }
    assert_eq!(states.len(), 10);
    for k in (0..9).rev() {
        assert!(b.step_backward(&mut maze));
        assert_eq!(maze.get_cells(), states[k].get_cells());
    }
    assert!(!b.step_backward(&mut maze));
    // and forward again
    assert!(b.step_forward(&mut maze));
    assert_eq!(maze.get_cells(), states[1].get_cells());
}

#[test]
fn step_to_past_the_end_stops_at_the_last_step() {
    let start = Maze::new(2, 2);
    let mut b = MazeBuilder::with_generator("prims");
    let mut draws = Draws::new(words(9, 1000));
    assert!(b.generate_all(&start, &mut draws));
    let total = b.total_steps();
    let mut all = start.clone();
    b.step_to(usize::MAX, &mut all);
    assert_eq!(b.current_step(), total);
    let mut stepwise = start.clone();
    b.reset();
    assert_eq!(b.current_step(), 0);
    for _ in 0..total {
        assert!(b.step_forward(&mut stepwise));
    }
    assert_eq!(all.get_cells(), stepwise.get_cells());
    b.step_to(0, &mut stepwise);
    assert_eq!(b.current_step(), 1);
}

#[test]
fn with_generator_names() {
    // a 1x1 maze tells the generators apart by the steps they record
    let maze = Maze::new(1, 1);
    let mut walk = MazeBuilder::with_generator("aldous_broder");
    assert!(walk.generate_all(&maze, &mut Draws::new(vec![0, 0])));
    assert_eq!(walk.total_steps(), 3);
    let mut fallback = MazeBuilder::with_generator("no such generator");
    assert!(fallback.generate_all(&maze, &mut Draws::new(vec![0, 0])));
    assert_eq!(fallback.total_steps(), 3);
    let mut division = MazeBuilder::with_generator("recursive_division");
    assert!(division.generate_all(&maze, &mut Draws::new(vec![0])));
    assert_eq!(division.total_steps(), 1);
    let mut kruskal = MazeBuilder::with_generator("kruskals");
    assert!(kruskal.generate_all(&maze, &mut Draws::new(Vec::new())));
    assert_eq!(kruskal.total_steps(), 1);
    let mut prim = MazeBuilder::with_generator("prims");
    assert!(prim.generate_all(&maze, &mut Draws::new(vec![0, 0, 0, 0])));
    assert_eq!(prim.total_steps(), 2);
}

#[test]
fn failed_generation_keeps_previous_steps() {
    let maze = Maze::new(3, 3);
    let mut b = MazeBuilder::with_generator("kruskals");
    assert!(b.generate_all(&maze, &mut Draws::new(words(4, 11))));
    let mut m = maze.clone();
    b.step_forward(&mut m);
    let mut short = Draws::new(words(4, 3));
    assert!(!b.generate_all(&maze, &mut short));
    assert_eq!(short.remaining(), 0);
    assert_eq!(b.total_steps(), 9);
    assert_eq!(b.current_step(), 1);
}

#[test]
fn fits_checks_the_maze_size() {
    let maze = Maze::new(3, 3);
    let mut b = MazeBuilder::with_generator("kruskals");
    assert!(b.generate_all(&maze, &mut Draws::new(words(4, 11))));
    assert!(b.fits_first(9, &maze));
    assert!(b.fits_first(usize::MAX, &maze));
    assert!(!b.fits_first(9, &Maze::new(2, 3)));
    assert!(!b.fits_first(9, &Maze::new(3, 2)));
    assert!(b.fits_first(9, &Maze::new(4, 4)));
    // the walling step touches every cell; a knocked-down wall touches two
    assert!(b.fits_step(0, &maze));
    assert!(!b.fits_step(0, &Maze::new(2, 2)));
    assert!(!b.fits_step(9, &maze));
    assert!(b.fits_first(0, &Maze::new(1, 1)));
}

#[test]
fn step_backward_restores_replayed_cells() {
    // replaying onto a maze that was changed by hand: going back writes the
    // recorded old values
    let maze = Maze::new(2, 1);
    let mut b = MazeBuilder::with_generator("kruskals");
    assert!(b.generate_all(&maze, &mut Draws::new(Vec::new())));
    assert_eq!(b.total_steps(), 2);
    let mut m = maze.clone();
    b.step_to(1, &mut m);
    assert!(!m.get_cell(0, 0).has_wall(WALL_E));
    m.set_cell(0, 0, Cell::new(CellType::End));
    assert!(b.step_backward(&mut m));
    assert_eq!(m.get_cell(0, 0).raw(), 0x0f);
    assert_eq!(m.get_cell(0, 1).raw(), 0x0f);
}

#[test]
fn stepping_back_over_a_cell_changed_twice() {
    // going back writes each change's old value in recorded order, so a cell
    // changed twice in one step ends at its value between the two changes
    let maze = Maze::new(2, 1);
    let mut b = MazeBuilder::with_generator("aldous_broder");
    assert!(b.generate_all(&maze, &mut Draws::new(vec![0, 0, 0xc000_0000])));
    assert_eq!(b.total_steps(), 4);
    let mut m = maze.clone();
    b.step_to(1, &mut m);
    let before_walk = m.clone();
    assert_eq!(before_walk.get_cell(0, 0).raw(), 0x8f);
    assert!(b.step_forward(&mut m));
    assert!(b.step_backward(&mut m));
    assert_eq!(m.get_cell(0, 0).raw(), 0x5f);
    assert_eq!(m.get_cell(0, 1).raw(), 0x07);
    assert_ne!(m.get_cells(), before_walk.get_cells());
    // forward again restores the state after the step
    assert!(b.step_forward(&mut m));
    assert_eq!(m.get_cell(0, 0).raw(), 0x5d);
    assert_eq!(m.get_cell(0, 1).raw(), 0x87);
}

/// Whether every cell can be reached from the top-left one through open walls.
fn all_reachable(m: &Maze) -> bool {
    let (w, h) = (m.width() as usize, m.height() as usize);
    let mut seen = vec![false; w * h];
    let mut stack = vec![(0usize, 0usize)];
    seen[0] = true;
    while let Some((r, c)) = stack.pop() {
        let cell = m.get_cell(r as u32, c as u32);
        let mut next = Vec::new();
        if r > 0 && !cell.has_wall(WALL_N) {
            next.push((r - 1, c));
        }
        if r + 1 < h && !cell.has_wall(WALL_S) {
            next.push((r + 1, c));
        }
        if c > 0 && !cell.has_wall(WALL_W) {
            next.push((r, c - 1));
        }
        if c + 1 < w && !cell.has_wall(WALL_E) {
            next.push((r, c + 1));
        }
        for (nr, nc) in next {
            if !seen[nr * w + nc] {
                seen[nr * w + nc] = true;
                stack.push((nr, nc));
            }
        }
    }
    seen.iter().all(|&s| s)
}

#[test]
fn every_generator_connects_a_fresh_maze() {
    for (k, name) in ["aldous_broder", "recursive_division", "kruskals", "prims"].iter().enumerate() {
        let start = Maze::new(5, 4);
        let mut b = MazeBuilder::with_generator(name);
        let mut draws = Draws::new(words(40 + k as u32, 20000));
        assert!(b.generate_all(&start, &mut draws), "{}", name);
        let mut maze = start.clone();
        let total = b.total_steps();
        b.step_to(total - 1, &mut maze);
        assert_eq!(b.current_step(), total);
        assert!(all_reachable(&maze), "{}", name);
    }
}

#[test]
fn stepping_back_restores_every_step_of_kruskals_and_recursive_division() {
    for (k, name) in ["kruskals", "recursive_division"].iter().enumerate() {
        let start = Maze::new(4, 3);
        let mut b = MazeBuilder::with_generator(name);
        let mut draws = Draws::new(words(70 + k as u32, 5000));
        assert!(b.generate_all(&start, &mut draws), "{}", name);
        let mut maze = start.clone();
        for step in 0..b.total_steps() {
            let before = maze.clone();
            assert!(b.step_forward(&mut maze));
            assert!(b.step_backward(&mut maze));
            assert_eq!(maze.get_cells(), before.get_cells(), "{} step {}", name, step);
            assert_eq!(b.current_step(), step);
            assert!(b.step_forward(&mut maze));
        }
    }
}

#[test]
fn accepts_tells_which_sizes_a_generator_can_build() {
    assert!(!MazeBuilder::new().accepts(0, 3));
    assert!(MazeBuilder::new().accepts(2, 3));
    assert!(!MazeBuilder::with_generator("prims").accepts(3, 0));
    assert!(MazeBuilder::with_generator("kruskals").accepts(0, 0));
    assert!(MazeBuilder::with_generator("recursive_division").accepts(0, 7));
}
