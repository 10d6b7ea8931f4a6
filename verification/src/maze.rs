//! The maze: a `width` x `height` grid of cells stored row by row.
use vstd::prelude::*;

use vstd::string::StringExecFns;

use crate::cell::{type_of, Cell, CellType};

verus! {

/// Position of cell (`row`, `col`) in the row-major cell list of a maze `width` wide.
pub open spec fn cell_index(width: u32, row: u32, col: u32) -> int {
    row as int * width as int + col as int
}

/// A position inside a `width` x `height` grid lies inside the cell list, and
/// its index fits in a `u32` when the grid's size does.
pub proof fn lemma_index_in_bounds(width: u32, height: u32, row: u32, col: u32)
    requires
        row < height,
        col < width,
    ensures
        0 <= cell_index(width, row, col) < width as int * height as int,
        cell_index(width, row, col) + 1 <= width as int * height as int,
{
    assert((row as int) * (width as int) + (col as int) < (width as int) * (height as int)) by (nonlinear_arith)
        requires
            row < height,
            col < width,
    ;
    assert(0 <= row as int * width as int) by (nonlinear_arith);
}

/// The same position can be named by only one (row, col) pair of the grid.
pub proof fn lemma_index_injective(width: u32, r1: u32, c1: u32, r2: u32, c2: u32)
    requires
        c1 < width,
        c2 < width,
        cell_index(width, r1, c1) == cell_index(width, r2, c2),
    ensures
        r1 == r2,
        c1 == c2,
{
    let w = width as int;
    if r1 < r2 {
        assert(r1 as int * w + w <= r2 as int * w) by (nonlinear_arith)
            requires
                r1 < r2,
                w > 0,
        ;
    } else if r2 < r1 {
        assert(r2 as int * w + w <= r1 as int * w) by (nonlinear_arith)
            requires
                r2 < r1,
                w > 0,
        ;
    }
}

/// The symbol that a cell is drawn with: an empty square for `Default`, a full one otherwise.
pub open spec fn symbol_of(c: Cell) -> char {
    if type_of(c@) == CellType::Default {
        '\u{25FB}'
    } else {
        '\u{25FC}'
    }
}

/// The first `cols` symbols of row `row`.
pub open spec fn render_partial_row(cells: Seq<Cell>, width: nat, row: nat, cols: nat) -> Seq<char> {
    Seq::new(cols, |c: int| symbol_of(cells[row * width + c]))
}

/// The text of the first `rows` rows: each row's symbols followed by a line break.
pub open spec fn render_rows(cells: Seq<Cell>, width: nat, rows: nat) -> Seq<char>
    decreases rows,
{
    if rows == 0 {
        Seq::empty()
    } else {
        render_rows(cells, width, (rows - 1) as nat) + render_partial_row(
            cells,
            width,
            (rows - 1) as nat,
            width,
        ).push('\n')
    }
}

/// What the text of a maze holds: `rows` lines of `width` characters and a
/// line break each; the character for the cell in row `r`, column `c` is at
/// `r * (width + 1) + c`, and it is an empty square (U+25FB) exactly when
/// that cell's type is `Default`, a full square (U+25FC) for every other
/// type, a wall included.
pub proof fn lemma_render_law(cells: Seq<Cell>, width: nat, rows: nat)
    ensures
        render_rows(cells, width, rows).len() == rows * (width + 1),
        forall|r: int, c: int|
            0 <= r < rows && 0 <= c < width ==> #[trigger] render_rows(cells, width, rows)[r * (width
                + 1) + c] == if type_of(cells[r * width + c]@) == CellType::Default {
                '\u{25FB}'
            } else {
                '\u{25FC}'
            },
        forall|r: int|
            0 <= r < rows ==> #[trigger] render_rows(cells, width, rows)[r * (width + 1) + width]
                == '\n',
    decreases rows,
{
    if rows > 0 {
        let pr = (rows - 1) as nat;
        lemma_render_law(cells, width, pr);
        let prev = render_rows(cells, width, pr);
        let line = render_partial_row(cells, width, pr, width).push('\n');
        let all = render_rows(cells, width, rows);
        assert(all == prev + line);
        assert(pr * (width + 1) + (width + 1) == rows * (width + 1)) by (nonlinear_arith)
            requires
                pr + 1 == rows,
        ;
        assert forall|r: int, c: int| 0 <= r < rows && 0 <= c < width implies #[trigger] all[r * (
        width + 1) + c] == if type_of(cells[r * width + c]@) == CellType::Default {
            '\u{25FB}'
        } else {
            '\u{25FC}'
        } by {
            if r < pr {
                assert(r * (width + 1) + c < pr * (width + 1)) by (nonlinear_arith)
                    requires
                        r < pr,
                        0 <= c < width,
                ;
            } else {
                assert(r * (width + 1) + c == pr * (width + 1) + c);
                assert(all[r * (width + 1) + c] == line[c]);
                assert(r * width + c == pr * width + c);
            }
        }
        assert forall|r: int| 0 <= r < rows implies #[trigger] all[r * (width + 1) + width] == '\n' by {
            if r < pr {
                assert(r * (width + 1) + width < pr * (width + 1)) by (nonlinear_arith)
                    requires
                        r < pr,
                ;
            } else {
                assert(r * (width + 1) + width == pr * (width + 1) + width);
            }
        }
    }
}

/// A grid of cells, `width` cells wide and `height` cells high, stored row by row.
pub struct Maze {
    width: u32,
    height: u32,
    cells: Vec<Cell>,
}

/// One recorded change of one cell: its position and its value before and after.
#[derive(Clone, Copy)]
pub struct MazeChange {
    pub row: u32,
    pub col: u32,
    pub old: Cell,
    pub new: Cell,
}

impl Maze {
    pub closed spec fn spec_width(&self) -> u32 {
        self.width
    }

    pub closed spec fn spec_height(&self) -> u32 {
        self.height
    }

    pub closed spec fn spec_cells(&self) -> Seq<Cell> {
        self.cells@
    }

    /// The cell list holds exactly one cell per grid position, and the grid's
    /// size fits in a `u32`.
    pub open spec fn wf(&self) -> bool {
        &&& self.spec_cells().len() == self.spec_width() as int * self.spec_height() as int
        &&& self.spec_width() as int * self.spec_height() as int <= u32::MAX
    }

    /// (`row`, `col`) lies inside the grid.
    pub open spec fn in_bounds(&self, row: u32, col: u32) -> bool {
        row < self.spec_height() && col < self.spec_width()
    }

    /// The cell at (`row`, `col`).
    pub open spec fn cell_at(&self, row: u32, col: u32) -> Cell {
        self.spec_cells()[cell_index(self.spec_width(), row, col)]
    }

    /// A maze of the given size whose cells are all `Default` with no walls.
    pub fn new(width: u32, height: u32) -> (m: Maze)
        requires
            width as int * height as int <= u32::MAX,
        ensures
            m.wf(),
            m.spec_width() == width,
            m.spec_height() == height,
            forall|i: int| 0 <= i < m.spec_cells().len() ==> #[trigger] m.spec_cells()[i]@ == 0,
    {
        let n = width * height;
        let mut cells: Vec<Cell> = Vec::new();
        let mut i: u32 = 0;
        while i < n
            invariant
                i <= n,
                cells@.len() == i,
                forall|j: int| 0 <= j < i ==> #[trigger] cells@[j]@ == 0,
            decreases n - i,
        {
            cells.push(Cell::new(CellType::Default));
            i = i + 1;
        }
        Maze { width, height, cells }
    }

    /// Toggle a cell between empty (`Default`) and wall; any other type
    /// becomes empty. The wall bits are kept.
    pub fn toggle_cell(&mut self, row: u32, col: u32)
        requires
            old(self).wf(),
            old(self).in_bounds(row, col),
        ensures
            final(self).wf(),
            final(self).spec_width() == old(self).spec_width(),
            final(self).spec_height() == old(self).spec_height(),
            final(self).spec_cells().len() == old(self).spec_cells().len(),
            forall|i: int|
                0 <= i < old(self).spec_cells().len() && i != cell_index(
                    old(self).spec_width(),
                    row,
                    col,
                ) ==> #[trigger] final(self).spec_cells()[i] == old(self).spec_cells()[i],
            final(self).cell_at(row, col)@ == crate::cell::with_type(
                old(self).cell_at(row, col)@,
                crate::cell::toggled_type(type_of(old(self).cell_at(row, col)@)),
            ),
            final(self).cell_at(row, col)@ == crate::cell::with_type(
                old(self).cell_at(row, col)@,
                if type_of(old(self).cell_at(row, col)@) == CellType::Default {
                    CellType::Wall
                } else {
                    CellType::Default
                },
            ),
    {
        let idx = self.get_index(row, col);
        let mut c = self.cells[idx];
        c.toggle();
        self.cells.set(idx, c);
    }

    /// Set the width of the maze.
    ///
    /// Resets the cells to `Default`.
    pub fn set_width(&mut self, width: u32)
        requires
            width as int * old(self).spec_height() as int <= u32::MAX,
        ensures
            final(self).wf(),
            final(self).spec_width() == width,
            final(self).spec_height() == old(self).spec_height(),
            forall|i: int|
                0 <= i < final(self).spec_cells().len() ==> #[trigger] final(self).spec_cells()[i]@ == 0,
    {
        *self = Maze::new(width, self.height);
    }

    /// Set the height of the maze.
    ///
    /// Resets the cells to `Default`.
    pub fn set_height(&mut self, height: u32)
        requires
            old(self).spec_width() as int * height as int <= u32::MAX,
        ensures
            final(self).wf(),
            final(self).spec_width() == old(self).spec_width(),
            final(self).spec_height() == height,
            forall|i: int|
                0 <= i < final(self).spec_cells().len() ==> #[trigger] final(self).spec_cells()[i]@ == 0,
    {
        *self = Maze::new(self.width, height);
    }

    /// The maze drawn as text: one line per row, `Default` cells as an empty
    /// square and all others as a full one.
    pub fn render(&self) -> (s: String)
        requires
            self.wf(),
            self.spec_width() > 0,
        ensures
            s@ == render_rows(self.spec_cells(), self.spec_width() as nat, self.spec_height() as nat),
            s@.len() == self.spec_height() as int * (self.spec_width() as int + 1),
            forall|r: int, c: int|
                0 <= r < self.spec_height() && 0 <= c < self.spec_width() ==> #[trigger] s@[r * (
                self.spec_width() as int + 1) + c] == if type_of(
                    self.spec_cells()[r * self.spec_width() as int + c]@,
                ) == CellType::Default {
                    '\u{25FB}'
                } else {
                    '\u{25FC}'
                },
            forall|r: int|
                0 <= r < self.spec_height() ==> #[trigger] s@[r * (self.spec_width() as int + 1)
                    + self.spec_width() as int] == '\n',
    {
        let mut s = String::new();
        let mut row: u32 = 0;
        while row < self.height
            invariant
                self.wf(),
                row <= self.height,
                s@ == render_rows(self.cells@, self.width as nat, row as nat),
            decreases self.height - row,
        {
            let mut col: u32 = 0;
            while col < self.width
                invariant
                    self.wf(),
                    row < self.height,
                    col <= self.width,
                    s@ == render_rows(self.cells@, self.width as nat, row as nat)
                        + render_partial_row(self.cells@, self.width as nat, row as nat, col as nat),
                decreases self.width - col,
            {
                proof {
                    lemma_index_in_bounds(self.width, self.height, row, col);
                }
                let c = self.cells[(row * self.width + col) as usize];
                let symbol = if c.get_type() == CellType::Default {
                    "\u{25FB}"
                } else {
                    "\u{25FC}"
                };
                proof {
                    reveal_strlit("\u{25FB}");
                    reveal_strlit("\u{25FC}");
                }
                s.append(symbol);
                proof {
                    assert(symbol@ == seq![symbol_of(c)]);
                    assert(render_partial_row(self.cells@, self.width as nat, row as nat, col as nat).push(symbol_of(c))
                        =~= render_partial_row(self.cells@, self.width as nat, row as nat, (col + 1) as nat));
                }
                col = col + 1;
            }
            proof {
                reveal_strlit("\n");
            }
            s.append("\n");
            row = row + 1;
        }
        proof {
            lemma_render_law(self.cells@, self.width as nat, self.height as nat);
        }
        s
    }

    pub fn width(&self) -> (w: u32)
        ensures
            w == self.spec_width(),
    {
        self.width
    }

    pub fn height(&self) -> (h: u32)
        ensures
            h == self.spec_height(),
    {
        self.height
    }

    fn get_index(&self, row: u32, col: u32) -> (idx: usize)
        requires
            self.wf(),
            self.in_bounds(row, col),
        ensures
            idx as int == cell_index(self.spec_width(), row, col),
            idx < self.spec_cells().len(),
    {
        proof {
            lemma_index_in_bounds(self.width, self.height, row, col);
        }
        (row * self.width + col) as usize
    }

    /// Get the cell state for the full maze
    pub fn get_cells(&self) -> (cells: &[Cell])
        ensures
            cells@ == self.spec_cells(),
    {
        self.cells.as_slice()
    }

    /// Set every cell named in `cells` (as row and column) to `cell`.
    pub fn set_cells(&mut self, cells: &[(u32, u32)], cell: Cell)
        requires
            old(self).wf(),
            forall|k: int|
                0 <= k < cells@.len() ==> old(self).in_bounds(#[trigger] cells@[k].0, cells@[k].1),
        ensures
            final(self).wf(),
            final(self).spec_width() == old(self).spec_width(),
            final(self).spec_height() == old(self).spec_height(),
            final(self).spec_cells().len() == old(self).spec_cells().len(),
            forall|i: int|
                0 <= i < old(self).spec_cells().len() ==> #[trigger] final(self).spec_cells()[i] == if (
                exists|k: int|
                    0 <= k < cells@.len() && cell_index(
                        old(self).spec_width(),
                        #[trigger] cells@[k].0,
                        cells@[k].1,
                    ) == i) {
                    cell
                } else {
                    old(self).spec_cells()[i]
                },
    {
        let ghost before = self.cells@;
        let mut k: usize = 0;
        while k < cells.len()
            invariant
                self.wf(),
                self.width == old(self).spec_width(),
                self.height == old(self).spec_height(),
                before == old(self).spec_cells(),
                self.cells@.len() == before.len(),
                k <= cells@.len(),
                forall|j: int|
                    0 <= j < cells@.len() ==> old(self).in_bounds(#[trigger] cells@[j].0, cells@[j].1),
                forall|i: int|
                    0 <= i < before.len() ==> #[trigger] self.cells@[i] == if (exists|j: int|
                        0 <= j < k && cell_index(self.width, #[trigger] cells@[j].0, cells@[j].1)
                            == i) {
                        cell
                    } else {
                        before[i]
                    },
            decreases cells@.len() - k,
        {
            let (row, col) = cells[k];
            let idx = self.get_index(row, col);
            let ghost prev = self.cells@;
            self.cells.set(idx, cell);
            proof {
                assert forall|i: int| 0 <= i < before.len() implies #[trigger] self.cells@[i] == if (
                exists|j: int|
                    0 <= j < k + 1 && cell_index(self.width, #[trigger] cells@[j].0, cells@[j].1)
                        == i) {
                    cell
                } else {
                    before[i]
                } by {
                    if i == idx as int {
                        assert(cell_index(self.width, cells@[k as int].0, cells@[k as int].1) == i);
                    } else {
                        assert(self.cells@[i] == prev[i]);
                        if exists|j: int|
                            0 <= j < k + 1 && cell_index(self.width, #[trigger] cells@[j].0, cells@[j].1)
                                == i {
                            let j = choose|j: int|
                                0 <= j < k + 1 && cell_index(self.width, #[trigger] cells@[j].0, cells@[j].1)
                                    == i;
                            assert(j < k);
                        }
                    }
                }
            }
            k = k + 1;
        }
    }

    pub fn set_cell(&mut self, row: u32, col: u32, cell: Cell)
        requires
            old(self).wf(),
            old(self).in_bounds(row, col),
        ensures
            final(self).wf(),
            final(self).spec_width() == old(self).spec_width(),
            final(self).spec_height() == old(self).spec_height(),
            final(self).spec_cells() == old(self).spec_cells().update(
                cell_index(old(self).spec_width(), row, col),
                cell,
            ),
    {
        let idx = self.get_index(row, col);
        self.cells.set(idx, cell);
    }

    pub fn get_cell(&self, row: u32, col: u32) -> (c: Cell)
        requires
            self.wf(),
            self.in_bounds(row, col),
        ensures
            c == self.cell_at(row, col),
    {
        let idx = self.get_index(row, col);
        self.cells[idx]
    }

    pub fn get_cell_mut(&mut self, row: u32, col: u32) -> (c: &mut Cell)
        requires
            old(self).wf(),
            old(self).in_bounds(row, col),
        ensures
            *c == old(self).cell_at(row, col),
            final(self).spec_width() == old(self).spec_width(),
            final(self).spec_height() == old(self).spec_height(),
            final(self).spec_cells() == old(self).spec_cells().update(
                cell_index(old(self).spec_width(), row, col),
                *final(c),
            ),
    {
        let idx = self.get_index(row, col);
        &mut self.cells[idx]
    }
}

impl Clone for Maze {
    fn clone(&self) -> (m: Maze)
        ensures
            m.spec_width() == self.spec_width(),
            m.spec_height() == self.spec_height(),
            m.spec_cells() == self.spec_cells(),
    {
        let mut cells: Vec<Cell> = Vec::new();
        let mut i: usize = 0;
        while i < self.cells.len()
            invariant
                i <= self.cells@.len(),
                cells@ == self.cells@.take(i as int),
            decreases self.cells@.len() - i,
        {
            cells.push(self.cells[i]);
            proof {
                assert(self.cells@.take(i as int).push(self.cells@[i as int]) =~= self.cells@.take(
                    i as int + 1,
                ));
            }
            i = i + 1;
        }
        proof {
            assert(self.cells@.take(self.cells@.len() as int) =~= self.cells@);
        }
        Maze { width: self.width, height: self.height, cells }
    }
}

/// Writing a cell and reading it back gives the written cell; every other
/// position keeps its cell.
pub proof fn lemma_read_after_write(m: Maze, cell: Cell, row: u32, col: u32, r2: u32, c2: u32)
    requires
        m.wf(),
        m.in_bounds(row, col),
        m.in_bounds(r2, c2),
    ensures
        m.spec_cells().update(cell_index(m.spec_width(), row, col), cell)[cell_index(
            m.spec_width(),
            r2,
            c2,
        )] == if row == r2 && col == c2 {
            cell
        } else {
            m.cell_at(r2, c2)
        },
{
    lemma_index_in_bounds(m.spec_width(), m.spec_height(), row, col);
    lemma_index_in_bounds(m.spec_width(), m.spec_height(), r2, c2);
    if cell_index(m.spec_width(), row, col) == cell_index(m.spec_width(), r2, c2) {
        lemma_index_injective(m.spec_width(), row, col, r2, c2);
    }
}

} // verus!
