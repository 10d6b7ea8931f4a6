use mazeweb::cell::{Cell, CellType, WALL_E, WALL_N, WALL_S, WALL_W};
use mazeweb::generators::aldous_broder::AdlousBroder;
use mazeweb::generators::builders::kruskals::Kruskals;
use mazeweb::generators::builders::prims::Prims;
use mazeweb::generators::generator::MazeGenerator;
use mazeweb::generators::recursive_division::{Orientation, RecursiveDivision};
use mazeweb::maze::{Maze, MazeChange};
use mazeweb::utils::Draws;

/// A deterministic stream of words for the tests.
fn words(seed: u32, n: usize) -> Vec<u32> {
    let mut x = seed;
    let mut out = Vec::new();
    for _ in 0..n {
        x = x.wrapping_mul(1664525).wrapping_add(1013904223);
        out.push(x);
    }
    out
}

/// Replay the steps onto a copy of `maze`, checking that each change's old
/// value is what the cell holds at that moment.
fn replay(maze: &Maze, steps: &[Vec<MazeChange>]) -> Maze {
    let mut m = maze.clone();
    for step in steps {
        for ch in step {
            assert_eq!(m.get_cell(ch.row, ch.col), ch.old);
            m.set_cell(ch.row, ch.col, ch.new);
        }
    }
    m
}

fn walls_consistent(m: &Maze) -> bool {
    for r in 0..m.height() {
        for c in 0..m.width() {
            if c + 1 < m.width()
                && m.get_cell(r, c).has_wall(WALL_E) != m.get_cell(r, c + 1).has_wall(WALL_W)
            {
                return false;
            }
            if r + 1 < m.height()
                && m.get_cell(r, c).has_wall(WALL_S) != m.get_cell(r + 1, c).has_wall(WALL_N)
            {
                return false;
            }
        }
    }
    true
}

/// Number of open inner boundaries and whether every cell is reachable.
fn passages(m: &Maze) -> (usize, bool) {
    let (w, h) = (m.width() as usize, m.height() as usize);
    let mut open = 0;
    for r in 0..h {
        for c in 0..w {
            if c + 1 < w && !m.get_cell(r as u32, c as u32).has_wall(WALL_E) {
                open += 1;
            }
            if r + 1 < h && !m.get_cell(r as u32, c as u32).has_wall(WALL_S) {
                open += 1;
            }
        }
    }
    let mut seen = vec![false; w * h];
    let mut stack = vec![(0usize, 0usize)];
    seen[0] = true;
    while let Some((r, c)) = stack.pop() {
        let cell = m.get_cell(r as u32, c as u32);
        let mut next = Vec::new();
        if r > 0 && !cell.has_wall(WALL_N) {
            next.push((r - 1, c));
        }
        if r + 1 < h && !cell.has_wall(WALL_S) {
            next.push((r + 1, c));
        }
        if c > 0 && !cell.has_wall(WALL_W) {
            next.push((r, c - 1));
        }
        if c + 1 < w && !cell.has_wall(WALL_E) {
            next.push((r, c + 1));
        }
        for (nr, nc) in next {
            if !seen[nr * w + nc] {
                seen[nr * w + nc] = true;
                stack.push((nr, nc));
            }
        }
    }
    (open, seen.iter().all(|&s| s))
}

#[test]
fn kruskals_builds_a_perfect_maze() {
    let maze = Maze::new(3, 3);
    let mut draws = Draws::new(words(7, 11));
    let steps = Kruskals::new().generate_maze_steps(&maze, &mut draws).unwrap();
    assert_eq!(draws.remaining(), 0);
    // one walling step, then one step per knocked-down wall
    assert_eq!(steps.len(), 9);
    assert_eq!(steps[0].len(), 9);
    assert!(steps[0].iter().all(|ch| ch.new.raw() == 0x0f));
    assert!(steps[1..].iter().all(|s| s.len() == 2));
    let built = replay(&maze, &steps);
    assert!(walls_consistent(&built));
    assert_eq!(passages(&built), (8, true));
}

#[test]
fn kruskals_needs_one_draw_per_wall_but_one() {
    let maze = Maze::new(3, 3);
    let mut draws = Draws::new(words(7, 10));
    assert!(Kruskals::new().generate_maze_steps(&maze, &mut draws).is_none());
    assert_eq!(draws.remaining(), 0);
    // a single row of two cells has one wall: no draw at all
    let small = Maze::new(2, 1);
    let mut none = Draws::new(Vec::new());
    let steps = Kruskals::new().generate_maze_steps(&small, &mut none).unwrap();
    assert_eq!(steps.len(), 2);
    assert_eq!(passages(&replay(&small, &steps)), (1, true));
}

#[test]
fn kruskals_on_an_empty_maze() {
    let maze = Maze::new(0, 0);
    let mut draws = Draws::new(Vec::new());
    let steps = Kruskals::new().generate_maze_steps(&maze, &mut draws).unwrap();
    assert!(steps.is_empty());
}

#[test]
fn aldous_broder_builds_a_perfect_maze() {
    let maze = Maze::new(4, 3);
    let mut draws = Draws::new(words(11, 5000));
    let mut gen = AdlousBroder::new();
    let steps = gen.generate_maze_steps(&maze, &mut draws).unwrap();
    let built = replay(&maze, &steps);
    assert!(walls_consistent(&built));
    assert_eq!(passages(&built), (11, true));
    // no cell is left marked as visited; only the walk's last cell is current
    let current = built.get_cells().iter().filter(|c| c.get_type() == CellType::Current).count();
    assert_eq!(current, 1);
    assert!(built.get_cells().iter().all(|c| c.get_type() != CellType::Visited));
}

#[test]
fn aldous_broder_without_draws() {
    let maze = Maze::new(2, 2);
    let mut draws = Draws::new(vec![5]);
    assert!(AdlousBroder::new().generate_maze_steps(&maze, &mut draws).is_none());
    assert_eq!(draws.remaining(), 0);
}

#[test]
fn aldous_broder_single_cell() {
    let maze = Maze::new(1, 1);
    let mut draws = Draws::new(vec![0, 0]);
    let steps = AdlousBroder::new().generate_maze_steps(&maze, &mut draws).unwrap();
    // walling, marking the start, and an empty clean-up step
    assert_eq!(steps.len(), 3);
    assert_eq!(steps[0].len(), 1);
    assert_eq!(steps[1].len(), 1);
    assert!(steps[2].is_empty());
    let built = replay(&maze, &steps);
    assert_eq!(built.get_cell(0, 0).raw(), 0x8f);
}

#[test]
fn prims_builds_a_perfect_maze() {
    let maze = Maze::new(4, 4);
    let mut draws = Draws::new(words(3, 5000));
    let steps = Prims::new().generate_maze_steps(&maze, &mut draws).unwrap();
    let built = replay(&maze, &steps);
    assert!(walls_consistent(&built));
    assert_eq!(passages(&built), (15, true));
    assert!(built.get_cells().iter().all(|c| c.get_type() == CellType::Visited));
}

#[test]
fn prims_runs_out_of_draws() {
    let maze = Maze::new(4, 4);
    let mut draws = Draws::new(words(3, 4));
    assert!(Prims::new().generate_maze_steps(&maze, &mut draws).is_none());
    assert_eq!(draws.remaining(), 0);
}

#[test]
fn recursive_division_builds_a_perfect_maze() {
    let maze = Maze::new(5, 4);
    let mut draws = Draws::new(words(5, 5000));
    let steps = RecursiveDivision::new().generate_maze_steps(&maze, &mut draws).unwrap();
    let built = replay(&maze, &steps);
    assert!(walls_consistent(&built));
    assert_eq!(passages(&built), (19, true));
}

#[test]
fn recursive_division_of_empty_maze_flips_one_coin() {
    let maze = Maze::new(0, 0);
    let mut none = Draws::new(Vec::new());
    assert!(RecursiveDivision::new().generate_maze_steps(&maze, &mut none).is_none());
    let mut one = Draws::new(vec![0]);
    let steps = RecursiveDivision::new().generate_maze_steps(&maze, &mut one).unwrap();
    assert!(steps.is_empty());
    assert_eq!(one.remaining(), 0);
}

#[test]
fn choose_orientation_follows_the_longer_side() {
    let g = RecursiveDivision::new();
    let mut d = Draws::new(vec![0x7fff_ffff, 0x8000_0000]);
    assert!(g.choose_orientation(3, 5, &mut d) == Some(Orientation::Horizontal));
    assert!(g.choose_orientation(5, 3, &mut d) == Some(Orientation::Vertical));
    assert_eq!(d.remaining(), 2);
    assert!(g.choose_orientation(4, 4, &mut d) == Some(Orientation::Vertical));
    assert!(g.choose_orientation(4, 4, &mut d) == Some(Orientation::Horizontal));
    assert!(g.choose_orientation(4, 4, &mut d).is_none());
}

#[test]
fn mark_cell_keeps_walls_and_skips_no_change() {
    let mut maze = Maze::new(2, 2);
    let mut c = Cell::new(CellType::Default);
    c.add_wall(WALL_N | WALL_W);
    maze.set_cell(0, 0, c);
    let mut step = Vec::new();
    Kruskals::new().mark_cell(&mut maze, 0, 0, Cell::new(CellType::Start), &mut step);
    assert_eq!(maze.get_cell(0, 0).raw(), 0x29);
    assert_eq!(step.len(), 1);
    assert_eq!(step[0].old.raw(), 0x09);
    assert_eq!(step[0].new.raw(), 0x29);
    // same type again: nothing changes, nothing is recorded
    let mut other = Cell::new(CellType::Start);
    other.add_wall(WALL_E);
    Kruskals::new().mark_cell(&mut maze, 0, 0, other, &mut step);
    assert_eq!(step.len(), 1);
    assert_eq!(maze.get_cell(0, 0).raw(), 0x29);
}

#[test]
fn wall_between_neighbours_only() {
    let mut maze = Maze::new(3, 3);
    let mut step = Vec::new();
    let g = Kruskals::new();
    g.add_wall_between(&mut maze, 1, 1, 1, 2, &mut step);
    assert!(maze.get_cell(1, 1).has_wall(WALL_E));
    assert!(maze.get_cell(1, 2).has_wall(WALL_W));
    assert_eq!(step.len(), 2);
    g.add_wall_dir(&mut maze, 1, 1, -1, 0, &mut step);
    assert!(maze.get_cell(1, 1).has_wall(WALL_N));
    assert!(maze.get_cell(0, 1).has_wall(WALL_S));
    assert_eq!(step.len(), 4);
    // not neighbours: nothing happens
    g.remove_wall_between(&mut maze, 0, 0, 2, 2, &mut step);
    assert_eq!(step.len(), 4);
    g.remove_wall_dir(&mut maze, 1, 2, 0, -1, &mut step);
    assert!(!maze.get_cell(1, 1).has_wall(WALL_E));
    assert!(!maze.get_cell(1, 2).has_wall(WALL_W));
    assert_eq!(step.len(), 6);
    assert_eq!(step[4].row, 1);
    assert_eq!(step[4].col, 2);
    assert_eq!(step[5].col, 1);
    assert!(walls_consistent(&maze));
}

#[test]
fn whole_maze_passes() {
    let mut maze = Maze::new(2, 2);
    maze.set_cell(0, 1, Cell::new(CellType::Visited));
    maze.set_cell(1, 0, Cell::new(CellType::Visited));
    let g = Kruskals::new();
    let walled = g.add_all_walls(&mut maze);
    assert_eq!(walled.len(), 4);
    assert!(maze.get_cells().iter().all(|c| c.raw() & 0x0f == 0x0f));
    let reset = g.set_all_visited_to_default(&mut maze);
    assert_eq!(reset.len(), 2);
    assert_eq!((reset[0].row, reset[0].col), (0, 1));
    assert_eq!((reset[1].row, reset[1].col), (1, 0));
    assert!(maze.get_cells().iter().all(|c| c.raw() == 0x0f));
    let retyped = g.make_all_into(&mut maze, CellType::Path);
    assert_eq!(retyped.len(), 4);
    assert!(maze.get_cells().iter().all(|c| c.raw() == 0x4f));
    assert!(g.make_all_into(&mut maze, CellType::Path).is_empty());
    let cleared = g.remove_all_walls(&mut maze);
    assert_eq!(cleared.len(), 4);
    assert!(maze.get_cells().iter().all(|c| c.raw() == 0x40));
}

/// Whether every outer side of the grid is a wall (`Some(true)`), none is
/// (`Some(false)`), or it is mixed (`None`).
fn frame(m: &Maze) -> Option<bool> {
    let mut sides = Vec::new();
    for r in 0..m.height() {
        for c in 0..m.width() {
            let cell = m.get_cell(r, c);
            if r == 0 {
                sides.push(cell.has_wall(WALL_N));
            }
            if r + 1 == m.height() {
                sides.push(cell.has_wall(WALL_S));
            }
            if c == 0 {
                sides.push(cell.has_wall(WALL_W));
            }
            if c + 1 == m.width() {
                sides.push(cell.has_wall(WALL_E));
            }
        }
    }
    if sides.iter().all(|&s| s) {
        Some(true)
    } else if sides.iter().all(|&s| !s) {
        Some(false)
    } else {
        None
    }
}

#[test]
fn wall_knocking_generators_keep_the_outer_frame() {
    let maze = Maze::new(5, 3);
    let k = Kruskals::new()
        .generate_maze_steps(&maze, &mut Draws::new(words(21, 100)))
        .unwrap();
    assert_eq!(frame(&replay(&maze, &k)), Some(true));
    let a = AdlousBroder::new()
        .generate_maze_steps(&maze, &mut Draws::new(words(22, 5000)))
        .unwrap();
    assert_eq!(frame(&replay(&maze, &a)), Some(true));
    let p = Prims::new()
        .generate_maze_steps(&maze, &mut Draws::new(words(23, 5000)))
        .unwrap();
    assert_eq!(frame(&replay(&maze, &p)), Some(true));
}

#[test]
fn recursive_division_leaves_the_outside_open() {
    let maze = Maze::new(5, 3);
    let d = RecursiveDivision::new()
        .generate_maze_steps(&maze, &mut Draws::new(words(24, 5000)))
        .unwrap();
    let built = replay(&maze, &d);
    assert_eq!(frame(&built), Some(false));
    assert!(walls_consistent(&built));
}

#[test]
fn aldous_broder_walk_step_changes_a_cell_twice() {
    // a walk from (0, 0) east to (0, 1): the start cell is marked visited and
    // then loses its east wall within the same step
    let maze = Maze::new(2, 1);
    let mut draws = Draws::new(vec![0, 0, 0xc000_0000]);
    let steps = AdlousBroder::new().generate_maze_steps(&maze, &mut draws).unwrap();
    assert_eq!(steps.len(), 4);
    let walk = &steps[2];
    assert_eq!(walk.len(), 4);
    assert_eq!((walk[0].row, walk[0].col, walk[0].old.raw(), walk[0].new.raw()), (0, 0, 0x8f, 0x5f));
    assert_eq!((walk[1].row, walk[1].col, walk[1].old.raw(), walk[1].new.raw()), (0, 0, 0x5f, 0x5d));
    assert_eq!((walk[2].row, walk[2].col, walk[2].old.raw(), walk[2].new.raw()), (0, 1, 0x0f, 0x07));
    assert_eq!((walk[3].row, walk[3].col, walk[3].old.raw(), walk[3].new.raw()), (0, 1, 0x07, 0x87));
    let built = replay(&maze, &steps);
    assert_eq!(built.get_cell(0, 0).raw(), 0x0d);
    assert_eq!(built.get_cell(0, 1).raw(), 0x87);
}

#[test]
fn aldous_broder_builds_a_perfect_maze_over_toggled_cells() {
    let mut maze = Maze::new(4, 3);
    maze.toggle_cell(0, 1);
    maze.toggle_cell(2, 3);
    maze.set_cell(1, 1, Cell::new(CellType::Path));
    let mut draws = Draws::new(words(13, 5000));
    let steps = AdlousBroder::new().generate_maze_steps(&maze, &mut draws).unwrap();
    let built = replay(&maze, &steps);
    assert!(walls_consistent(&built));
    assert_eq!(passages(&built), (11, true));
}

#[test]
fn aldous_broder_never_counts_a_cell_visited_from_the_start() {
    // the walk starts at (0, 0); the visited cell (0, 1) is never counted,
    // so the walk goes on until the words run out
    let mut maze = Maze::new(2, 1);
    maze.set_cell(0, 1, Cell::new(CellType::Visited));
    let mut draws = Draws::new(words(17, 200).iter().enumerate().map(|(i, w)| if i < 2 { 0 } else { *w }).collect());
    assert!(AdlousBroder::new().generate_maze_steps(&maze, &mut draws).is_none());
    assert_eq!(draws.remaining(), 0);
}

#[test]
fn prims_takes_a_marked_cell_for_part_of_the_maze() {
    // start at (0, 0): the cell (0, 1) is not `Default`, so the wall between
    // them is never opened
    let mut maze = Maze::new(2, 1);
    maze.set_cell(0, 1, Cell::new(CellType::Path));
    let mut draws = Draws::new(vec![0, 0, 0, 0, 0, 0]);
    let steps = Prims::new().generate_maze_steps(&maze, &mut draws).unwrap();
    let built = replay(&maze, &steps);
    assert_eq!(passages(&built), (0, false));
    // starting at the marked cell instead, the maze is perfect
    let mut draws = Draws::new(vec![0, 0xffff_ffff, 0, 0, 0, 0]);
    let steps = Prims::new().generate_maze_steps(&maze, &mut draws).unwrap();
    assert_eq!(passages(&replay(&maze, &steps)), (1, true));
}

#[test]
fn kruskals_and_recursive_division_change_only_walls() {
    let mut maze = Maze::new(4, 3);
    maze.toggle_cell(1, 2);
    maze.set_cell(0, 0, Cell::new(CellType::Start));
    let types = |m: &Maze| m.get_cells().iter().map(|c| c.get_type()).collect::<Vec<_>>();
    let k_steps = Kruskals::new().generate_maze_steps(&maze, &mut Draws::new(words(21, 100))).unwrap();
    let k_built = replay(&maze, &k_steps);
    assert_eq!(types(&k_built), types(&maze));
    assert_eq!(passages(&k_built), (11, true));
    let d_steps = RecursiveDivision::new().generate_maze_steps(&maze, &mut Draws::new(words(22, 100))).unwrap();
    let d_built = replay(&maze, &d_steps);
    assert_eq!(types(&d_built), types(&maze));
    assert_eq!(passages(&d_built), (11, true));
    assert_eq!(k_built.get_cell(1, 2).get_type(), CellType::Wall);
}

#[test]
fn recursive_division_succeeds_with_one_coin_and_four_words_per_cell() {
    for (k, (w, h)) in [(5u32, 4u32), (3, 3), (1, 6), (0, 0)].iter().enumerate() {
        let maze = Maze::new(*w, *h);
        let n = 1 + 4 * (*w as usize) * (*h as usize);
        let mut draws = Draws::new(words(30 + k as u32, n));
        assert!(RecursiveDivision::new().generate_maze_steps(&maze, &mut draws).is_some());
    }
}

#[test]
fn prims_succeeds_with_two_words_and_four_per_cell() {
    for (k, (w, h)) in [(4u32, 4u32), (1, 1), (2, 5)].iter().enumerate() {
        let maze = Maze::new(*w, *h);
        let n = 2 + 4 * (*w as usize) * (*h as usize);
        let mut draws = Draws::new(words(50 + k as u32, n));
        assert!(Prims::new().generate_maze_steps(&maze, &mut draws).is_some());
    }
}

#[test]
fn recursive_division_with_zero_words() {
    let maze = Maze::new(2, 3);
    let steps = RecursiveDivision::new().generate_maze_steps(&maze, &mut Draws::new(vec![0; 20])).unwrap();
    let lens: Vec<usize> = steps.iter().map(|s| s.len()).collect();
    assert_eq!(lens, vec![6, 4, 2, 4, 2]);
    let built = replay(&maze, &steps);
    let raw: Vec<u8> = built.get_cells().iter().map(|c| c.raw()).collect();
    assert_eq!(raw, vec![0x00, 0x04, 0x00, 0x01, 0x02, 0x08]);
}

#[test]
fn recursive_division_of_a_single_row_only_clears() {
    let maze = Maze::new(2, 1);
    let mut draws = Draws::new(Vec::new());
    let steps = RecursiveDivision::new().generate_maze_steps(&maze, &mut draws).unwrap();
    assert_eq!(steps.len(), 1);
    assert_eq!(steps[0].len(), 2);
    assert!(steps[0].iter().all(|ch| ch.old.raw() == 0 && ch.new.raw() == 0));
}

#[test]
fn prims_with_zero_words() {
    let maze = Maze::new(2, 1);
    let steps = Prims::new().generate_maze_steps(&maze, &mut Draws::new(vec![0; 20])).unwrap();
    let raw = |s: &Vec<MazeChange>| s.iter().map(|c| (c.row, c.col, c.old.raw(), c.new.raw())).collect::<Vec<_>>();
    assert_eq!(steps.len(), 4);
    assert_eq!(raw(&steps[0]), vec![(0, 0, 0x00, 0x0f), (0, 1, 0x00, 0x0f)]);
    assert_eq!(raw(&steps[1]), vec![(0, 0, 0x0f, 0x5f)]);
    assert_eq!(raw(&steps[2]), vec![(0, 0, 0x5f, 0x8f)]);
    assert_eq!(
        raw(&steps[3]),
        vec![(0, 0, 0x8f, 0x8d), (0, 1, 0x0f, 0x07), (0, 1, 0x07, 0x57), (0, 0, 0x8d, 0x5d)]
    );
}
