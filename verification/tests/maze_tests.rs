use mazeweb::cell::{Cell, CellType, WALL_E, WALL_N};
use mazeweb::maze::Maze;

#[test]
fn new_maze_is_all_default() {
    let m = Maze::new(3, 2);
    assert_eq!(m.width(), 3);
    assert_eq!(m.height(), 2);
    assert_eq!(m.get_cells().len(), 6);
    for c in m.get_cells() {
        assert_eq!(c.raw(), 0);
    }
}

#[test]
fn empty_maze() {
    let m = Maze::new(0, 5);
    assert_eq!(m.get_cells().len(), 0);
    let n = Maze::new(4, 0);
    assert_eq!(n.get_cells().len(), 0);
}

#[test]
fn set_cell_then_get_cell() {
    let mut m = Maze::new(3, 2);
    let start = Cell::new(CellType::Start);
    m.set_cell(1, 2, start);
    assert_eq!(m.get_cell(1, 2), start);
    // row-major storage: (1, 2) is the sixth cell
    assert_eq!(m.get_cells()[5], start);
    for i in 0..5 {
        assert_eq!(m.get_cells()[i].raw(), 0);
    }
}

#[test]
fn toggle_cell_flips_one_cell() {
    let mut m = Maze::new(2, 2);
    m.toggle_cell(0, 1);
    assert_eq!(m.get_cell(0, 1).get_type(), CellType::Wall);
    assert_eq!(m.get_cell(0, 0).get_type(), CellType::Default);
    assert_eq!(m.get_cell(1, 1).get_type(), CellType::Default);
    m.toggle_cell(0, 1);
    assert_eq!(m.get_cell(0, 1).get_type(), CellType::Default);
    assert_eq!(m.get_cell(0, 1).raw(), 0);
}

#[test]
fn set_cells_writes_every_listed_cell() {
    let mut m = Maze::new(5, 5);
    let wall_list = [(0, 0), (0, 2), (1, 0), (1, 2), (1, 3), (3, 0), (3, 1), (3, 2), (3, 4), (4, 1)];
    let path = Cell::new(CellType::Path);
    m.set_cells(&wall_list, path);
    for r in 0..5u32 {
        for c in 0..5u32 {
            let listed = wall_list.iter().any(|&(lr, lc)| lr == r && lc == c);
            if listed {
                assert_eq!(m.get_cell(r, c), path);
            } else {
                assert_eq!(m.get_cell(r, c).raw(), 0);
            }
        }
    }
}

#[test]
fn set_width_and_height_reset_cells() {
    let mut m = Maze::new(2, 2);
    m.set_cell(1, 1, Cell::new(CellType::End));
    m.set_width(4);
    assert_eq!(m.width(), 4);
    assert_eq!(m.height(), 2);
    assert_eq!(m.get_cells().len(), 8);
    assert!(m.get_cells().iter().all(|c| c.raw() == 0));
    m.set_cell(0, 3, Cell::new(CellType::End));
    m.set_height(3);
    assert_eq!(m.height(), 3);
    assert_eq!(m.get_cells().len(), 12);
    assert!(m.get_cells().iter().all(|c| c.raw() == 0));
}

#[test]
fn render_draws_rows() {
    let mut m = Maze::new(2, 2);
    m.set_cell(0, 1, Cell::new(CellType::Visited));
    assert_eq!(m.render(), "\u{25FB}\u{25FC}\n\u{25FB}\u{25FB}\n");
}

#[test]
fn render_ignores_walls() {
    let mut m = Maze::new(3, 1);
    let mut c = Cell::new(CellType::Default);
    c.add_wall(WALL_N | WALL_E);
    m.set_cell(0, 0, c);
    m.set_cell(0, 2, Cell::new(CellType::Start));
    assert_eq!(m.render(), "\u{25FB}\u{25FB}\u{25FC}\n");
}

#[test]
fn render_of_zero_height_maze_is_empty() {
    let m = Maze::new(3, 0);
    assert_eq!(m.render(), "");
}

#[test]
fn get_cell_mut_writes_back() {
    let mut m = Maze::new(2, 3);
    {
        let c = m.get_cell_mut(2, 1);
        c.add_wall(WALL_E);
        c.set_type(CellType::Path);
    }
    assert_eq!(m.get_cell(2, 1).raw(), 0x42);
    assert_eq!(m.get_cell(2, 0).raw(), 0);
}

#[test]
fn clone_is_equal_and_independent() {
    let mut m = Maze::new(2, 2);
    m.set_cell(1, 0, Cell::new(CellType::Current));
    let copy = m.clone();
    assert_eq!(copy.get_cells(), m.get_cells());
    m.set_cell(1, 0, Cell::new(CellType::Default));
    assert_eq!(copy.get_cell(1, 0).get_type(), CellType::Current);
}
