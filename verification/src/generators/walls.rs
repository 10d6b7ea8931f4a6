//! Walls between neighbouring cells: each cell stores its own four walls, and
//! a grid is consistent when the two cells on either side of every inner
//! boundary agree on whether there is a wall there.
use vstd::prelude::*;

use crate::cell::{Cell, WALL_E, WALL_N, WALL_S, WALL_W};
use crate::maze::{cell_index, lemma_index_in_bounds, lemma_index_injective};

verus! {

/// The cell has the wall `wall` (one of the four wall bits).
pub open spec fn wall(c: Cell, w: u8) -> bool {
    c@ & w != 0
}

/// The cell has all four walls.
pub open spec fn walled(c: Cell) -> bool {
    &&& wall(c, WALL_N)
    &&& wall(c, WALL_E)
    &&& wall(c, WALL_S)
    &&& wall(c, WALL_W)
}

/// `a` and `b` have the same walls on every side other than `w`.
pub open spec fn walls_agree_except(a: Cell, b: Cell, w: u8) -> bool {
    &&& w != WALL_N ==> wall(a, WALL_N) == wall(b, WALL_N)
    &&& w != WALL_E ==> wall(a, WALL_E) == wall(b, WALL_E)
    &&& w != WALL_S ==> wall(a, WALL_S) == wall(b, WALL_S)
    &&& w != WALL_W ==> wall(a, WALL_W) == wall(b, WALL_W)
}

/// `a` and `b` have the same four walls.
pub open spec fn same_walls(a: Cell, b: Cell) -> bool {
    walls_agree_except(a, b, 0)
}

/// Cell (r, c) and the cell east of it agree on the wall between them.
pub open spec fn east_ok(cells: Seq<Cell>, width: u32, r: u32, c: u32) -> bool {
    wall(cells[cell_index(width, r, c)], WALL_E) == wall(
        cells[cell_index(width, r, (c + 1) as u32)],
        WALL_W,
    )
}

/// Cell (r, c) and the cell south of it agree on the wall between them.
pub open spec fn south_ok(cells: Seq<Cell>, width: u32, r: u32, c: u32) -> bool {
    wall(cells[cell_index(width, r, c)], WALL_S) == wall(
        cells[cell_index(width, (r + 1) as u32, c)],
        WALL_N,
    )
}

/// Every inner boundary of the grid is seen the same way from both sides.
pub open spec fn walls_consistent(cells: Seq<Cell>, width: u32, height: u32) -> bool {
    &&& forall|r: u32, c: u32| r < height && c + 1 < width ==> #[trigger] east_ok(cells, width, r, c)
    &&& forall|r: u32, c: u32|
        r + 1 < height && c < width ==> #[trigger] south_ok(cells, width, r, c)
}

/// Which wall of (r1, c1) faces (r2, c2), and which wall of (r2, c2) faces
/// back, when the two cells are neighbours.
pub open spec fn facing(r1: u32, c1: u32, r2: u32, c2: u32) -> Option<(u8, u8)> {
    if r2 + 1 == r1 && c2 == c1 {
        Some((WALL_N, WALL_S))
    } else if r2 == r1 + 1 && c2 == c1 {
        Some((WALL_S, WALL_N))
    } else if r2 == r1 && c2 + 1 == c1 {
        Some((WALL_W, WALL_E))
    } else if r2 == r1 && c2 == c1 + 1 {
        Some((WALL_E, WALL_W))
    } else {
        None
    }
}

/// Bit facts: clearing or setting one wall bit leaves the other three, and
/// replacing the upper nibble leaves all four.
pub proof fn lemma_wall_bits(v: u8, w: u8, t: u8)
    requires
        w == WALL_N || w == WALL_E || w == WALL_S || w == WALL_W,
    ensures
        walls_agree_except(crate::cell::cell_of(v & !w), crate::cell::cell_of(v), w),
        walls_agree_except(crate::cell::cell_of(v | w), crate::cell::cell_of(v), w),
        !wall(crate::cell::cell_of(v & !w), w),
        wall(crate::cell::cell_of(v | w), w),
        same_walls(crate::cell::cell_of((t & 0xf0) | (v & 0x0f)), crate::cell::cell_of(v)),
{
    broadcast use crate::cell::group_cell_lemmas;

    assert(forall|d: u8|
        (d == 1u8 || d == 2u8 || d == 4u8 || d == 8u8) && d != w ==> #[trigger] ((v & !w) & d)
            == v & d) by (bit_vector)
        requires
            w == 1u8 || w == 2u8 || w == 4u8 || w == 8u8,
    ;
    assert(forall|d: u8|
        (d == 1u8 || d == 2u8 || d == 4u8 || d == 8u8) && d != w ==> #[trigger] ((v | w) & d) == v
            & d) by (bit_vector)
        requires
            w == 1u8 || w == 2u8 || w == 4u8 || w == 8u8,
    ;
    assert((v & !w) & w == 0) by (bit_vector);
    assert((v | w) & w != 0) by (bit_vector)
        requires
            w == 1u8 || w == 2u8 || w == 4u8 || w == 8u8,
    ;
    assert(forall|d: u8|
        (d == 1u8 || d == 2u8 || d == 4u8 || d == 8u8) ==> #[trigger] (((t & 0xf0) | (v & 0x0f))
            & d) == v & d) by (bit_vector);
    assert(((v & !w) & 1u8) == v & 1u8 || w == 1u8);
}

/// A cell with all four walls, and one with none.
pub proof fn lemma_full_and_empty_walls(v: u8)
    ensures
        wall(crate::cell::cell_of(v | 0x0f), WALL_N),
        wall(crate::cell::cell_of(v | 0x0f), WALL_E),
        wall(crate::cell::cell_of(v | 0x0f), WALL_S),
        wall(crate::cell::cell_of(v | 0x0f), WALL_W),
        !wall(crate::cell::cell_of(v & !0x0fu8), WALL_N),
        !wall(crate::cell::cell_of(v & !0x0fu8), WALL_E),
        !wall(crate::cell::cell_of(v & !0x0fu8), WALL_S),
        !wall(crate::cell::cell_of(v & !0x0fu8), WALL_W),
{
    broadcast use crate::cell::group_cell_lemmas;

    assert((v | 0x0f) & 1 != 0 && (v | 0x0f) & 2 != 0 && (v | 0x0f) & 4 != 0 && (v | 0x0f) & 8
        != 0) by (bit_vector);
    assert((v & !0x0fu8) & 1 == 0 && (v & !0x0fu8) & 2 == 0 && (v & !0x0fu8) & 4 == 0 && (v
        & !0x0fu8) & 8 == 0) by (bit_vector);
}

/// Changing one cell without touching its walls keeps the walls consistent.
pub proof fn lemma_consistent_update_same_walls(
    cells: Seq<Cell>,
    width: u32,
    height: u32,
    r1: u32,
    c1: u32,
    n1: Cell,
)
    requires
        cells.len() == width as int * height as int,
        walls_consistent(cells, width, height),
        r1 < height,
        c1 < width,
        same_walls(n1, cells[cell_index(width, r1, c1)]),
    ensures
        walls_consistent(cells.update(cell_index(width, r1, c1), n1), width, height),
{
    let i1 = cell_index(width, r1, c1);
    let new = cells.update(i1, n1);
    lemma_index_in_bounds(width, height, r1, c1);
    assert forall|r: u32, c: u32| r < height && c + 1 < width implies #[trigger] east_ok(
        new,
        width,
        r,
        c,
    ) by {
        assert(east_ok(cells, width, r, c));
        lemma_index_in_bounds(width, height, r, c);
        lemma_index_in_bounds(width, height, r, (c + 1) as u32);
    }
    assert forall|r: u32, c: u32| r + 1 < height && c < width implies #[trigger] south_ok(
        new,
        width,
        r,
        c,
    ) by {
        assert(south_ok(cells, width, r, c));
        lemma_index_in_bounds(width, height, r, c);
        lemma_index_in_bounds(width, height, (r + 1) as u32, c);
    }
}

/// Changing the walls that two neighbours show each other, in agreement, and
/// nothing else about their walls, keeps the walls consistent.
pub proof fn lemma_consistent_update_pair(
    cells: Seq<Cell>,
    width: u32,
    height: u32,
    r1: u32,
    c1: u32,
    r2: u32,
    c2: u32,
    n1: Cell,
    n2: Cell,
    w1: u8,
    w2: u8,
)
    requires
        cells.len() == width as int * height as int,
        walls_consistent(cells, width, height),
        r1 < height,
        c1 < width,
        r2 < height,
        c2 < width,
        facing(r1, c1, r2, c2) == Some((w1, w2)),
        walls_agree_except(n1, cells[cell_index(width, r1, c1)], w1),
        walls_agree_except(n2, cells[cell_index(width, r2, c2)], w2),
        wall(n1, w1) == wall(n2, w2),
    ensures
        walls_consistent(
            cells.update(cell_index(width, r1, c1), n1).update(cell_index(width, r2, c2), n2),
            width,
            height,
        ),
{
    let i1 = cell_index(width, r1, c1);
    let i2 = cell_index(width, r2, c2);
    let new = cells.update(i1, n1).update(i2, n2);
    lemma_index_in_bounds(width, height, r1, c1);
    lemma_index_in_bounds(width, height, r2, c2);
    assert forall|r: u32, c: u32| r < height && c + 1 < width implies #[trigger] east_ok(
        new,
        width,
        r,
        c,
    ) by {
        let c_next = (c + 1) as u32;
        assert(east_ok(cells, width, r, c));
        lemma_index_in_bounds(width, height, r, c);
        lemma_index_in_bounds(width, height, r, c_next);
        let p = cell_index(width, r, c);
        let q = cell_index(width, r, c_next);
        if p == i1 {
            lemma_index_injective(width, r, c, r1, c1);
        }
        if p == i2 {
            lemma_index_injective(width, r, c, r2, c2);
        }
        if q == i1 {
            lemma_index_injective(width, r, c_next, r1, c1);
        }
        if q == i2 {
            lemma_index_injective(width, r, c_next, r2, c2);
        }
    }
    assert forall|r: u32, c: u32| r + 1 < height && c < width implies #[trigger] south_ok(
        new,
        width,
        r,
        c,
    ) by {
        let r_next = (r + 1) as u32;
        assert(south_ok(cells, width, r, c));
        lemma_index_in_bounds(width, height, r, c);
        lemma_index_in_bounds(width, height, r_next, c);
        let p = cell_index(width, r, c);
        let q = cell_index(width, r_next, c);
        if p == i1 {
            lemma_index_injective(width, r, c, r1, c1);
        }
        if p == i2 {
            lemma_index_injective(width, r, c, r2, c2);
        }
        if q == i1 {
            lemma_index_injective(width, r_next, c, r1, c1);
        }
        if q == i2 {
            lemma_index_injective(width, r_next, c, r2, c2);
        }
    }
}

/// A grid in which every cell has the same walls, either all four or none,
/// is consistent.
pub proof fn lemma_uniform_walls_consistent(cells: Seq<Cell>, width: u32, height: u32, present: bool)
    requires
        cells.len() == width as int * height as int,
        forall|i: int|
            0 <= i < cells.len() ==> {
                &&& wall(#[trigger] cells[i], WALL_N) == present
                &&& wall(cells[i], WALL_E) == present
                &&& wall(cells[i], WALL_S) == present
                &&& wall(cells[i], WALL_W) == present
            },
    ensures
        walls_consistent(cells, width, height),
{
    assert forall|r: u32, c: u32| r < height && c + 1 < width implies #[trigger] east_ok(
        cells,
        width,
        r,
        c,
    ) by {
        lemma_index_in_bounds(width, height, r, c);
        lemma_index_in_bounds(width, height, r, (c + 1) as u32);
        assert(wall(cells[cell_index(width, r, c)], WALL_E) == present);
        assert(wall(cells[cell_index(width, r, (c + 1) as u32)], WALL_W) == present);
    }
    assert forall|r: u32, c: u32| r + 1 < height && c < width implies #[trigger] south_ok(
        cells,
        width,
        r,
        c,
    ) by {
        lemma_index_in_bounds(width, height, r, c);
        lemma_index_in_bounds(width, height, (r + 1) as u32, c);
        assert(wall(cells[cell_index(width, r, c)], WALL_S) == present);
        assert(wall(cells[cell_index(width, (r + 1) as u32, c)], WALL_N) == present);
    }
}

/// Changing cells without touching any walls keeps the walls consistent.
pub proof fn lemma_consistent_same_walls_all(
    cells: Seq<Cell>,
    new: Seq<Cell>,
    width: u32,
    height: u32,
)
    requires
        cells.len() == width as int * height as int,
        new.len() == cells.len(),
        walls_consistent(cells, width, height),
        forall|i: int| 0 <= i < cells.len() ==> same_walls(#[trigger] new[i], cells[i]),
    ensures
        walls_consistent(new, width, height),
{
    assert forall|r: u32, c: u32| r < height && c + 1 < width implies #[trigger] east_ok(
        new,
        width,
        r,
        c,
    ) by {
        assert(east_ok(cells, width, r, c));
        lemma_index_in_bounds(width, height, r, c);
        lemma_index_in_bounds(width, height, r, (c + 1) as u32);
        assert(same_walls(new[cell_index(width, r, c)], cells[cell_index(width, r, c)]));
        assert(same_walls(
            new[cell_index(width, r, (c + 1) as u32)],
            cells[cell_index(width, r, (c + 1) as u32)],
        ));
    }
    assert forall|r: u32, c: u32| r + 1 < height && c < width implies #[trigger] south_ok(
        new,
        width,
        r,
        c,
    ) by {
        assert(south_ok(cells, width, r, c));
        lemma_index_in_bounds(width, height, r, c);
        lemma_index_in_bounds(width, height, (r + 1) as u32, c);
        assert(same_walls(new[cell_index(width, r, c)], cells[cell_index(width, r, c)]));
        assert(same_walls(
            new[cell_index(width, (r + 1) as u32, c)],
            cells[cell_index(width, (r + 1) as u32, c)],
        ));
    }
}

/// The outer sides of the cell at (r, c) all have a wall (`closed`) or all
/// have none.
pub open spec fn frame_ok(cells: Seq<Cell>, width: u32, height: u32, r: u32, c: u32, closed: bool) -> bool {
    let cell = cells[cell_index(width, r, c)];
    &&& r == 0 ==> wall(cell, WALL_N) == closed
    &&& r + 1 == height ==> wall(cell, WALL_S) == closed
    &&& c == 0 ==> wall(cell, WALL_W) == closed
    &&& c + 1 == width ==> wall(cell, WALL_E) == closed
}

/// Every outer side of every cell is a wall (`closed`), or none is.
pub open spec fn frame_is(cells: Seq<Cell>, width: u32, height: u32, closed: bool) -> bool {
    forall|r: u32, c: u32|
        r < height && c < width ==> #[trigger] frame_ok(cells, width, height, r, c, closed)
}

/// The grid is closed all around: every outer side of every cell is a wall.
pub open spec fn frame_closed(cells: Seq<Cell>, width: u32, height: u32) -> bool {
    frame_is(cells, width, height, true)
}

/// The grid is open all around: no outer side of any cell is a wall.
pub open spec fn frame_open(cells: Seq<Cell>, width: u32, height: u32) -> bool {
    frame_is(cells, width, height, false)
}

/// A grid whose cells have all four walls is closed all around; one whose
/// cells have none is open all around.
pub proof fn lemma_uniform_walls_frame(cells: Seq<Cell>, width: u32, height: u32, present: bool)
    requires
        cells.len() == width as int * height as int,
        forall|i: int|
            0 <= i < cells.len() ==> {
                &&& wall(#[trigger] cells[i], WALL_N) == present
                &&& wall(cells[i], WALL_E) == present
                &&& wall(cells[i], WALL_S) == present
                &&& wall(cells[i], WALL_W) == present
            },
    ensures
        frame_is(cells, width, height, present),
{
    assert forall|r: u32, c: u32| r < height && c < width implies #[trigger] frame_ok(
        cells,
        width,
        height,
        r,
        c,
        present,
    ) by {
        lemma_index_in_bounds(width, height, r, c);
        let i = cell_index(width, r, c);
        assert(wall(cells[i], WALL_N) == present);
    }
}

/// Changing cells without touching any walls keeps the frame.
pub proof fn lemma_frame_same_walls_all(
    cells: Seq<Cell>,
    new: Seq<Cell>,
    width: u32,
    height: u32,
    closed: bool,
)
    requires
        cells.len() == width as int * height as int,
        new.len() == cells.len(),
        frame_is(cells, width, height, closed),
        forall|i: int| 0 <= i < cells.len() ==> same_walls(#[trigger] new[i], cells[i]),
    ensures
        frame_is(new, width, height, closed),
{
    assert forall|r: u32, c: u32| r < height && c < width implies #[trigger] frame_ok(
        new,
        width,
        height,
        r,
        c,
        closed,
    ) by {
        assert(frame_ok(cells, width, height, r, c, closed));
        lemma_index_in_bounds(width, height, r, c);
        assert(same_walls(new[cell_index(width, r, c)], cells[cell_index(width, r, c)]));
    }
}

/// Changing one cell without touching its walls keeps the frame.
pub proof fn lemma_frame_update_same_walls(
    cells: Seq<Cell>,
    width: u32,
    height: u32,
    r1: u32,
    c1: u32,
    n1: Cell,
    closed: bool,
)
    requires
        cells.len() == width as int * height as int,
        frame_is(cells, width, height, closed),
        r1 < height,
        c1 < width,
        same_walls(n1, cells[cell_index(width, r1, c1)]),
    ensures
        frame_is(cells.update(cell_index(width, r1, c1), n1), width, height, closed),
{
    let new = cells.update(cell_index(width, r1, c1), n1);
    lemma_index_in_bounds(width, height, r1, c1);
    assert forall|r: u32, c: u32| r < height && c < width implies #[trigger] frame_ok(
        new,
        width,
        height,
        r,
        c,
        closed,
    ) by {
        assert(frame_ok(cells, width, height, r, c, closed));
        lemma_index_in_bounds(width, height, r, c);
    }
}

/// Changing only the walls that two neighbours show each other keeps the
/// frame: those walls face inside.
pub proof fn lemma_frame_update_pair(
    cells: Seq<Cell>,
    width: u32,
    height: u32,
    r1: u32,
    c1: u32,
    r2: u32,
    c2: u32,
    n1: Cell,
    n2: Cell,
    w1: u8,
    w2: u8,
    closed: bool,
)
    requires
        cells.len() == width as int * height as int,
        frame_is(cells, width, height, closed),
        r1 < height,
        c1 < width,
        r2 < height,
        c2 < width,
        facing(r1, c1, r2, c2) == Some((w1, w2)),
        walls_agree_except(n1, cells[cell_index(width, r1, c1)], w1),
        walls_agree_except(n2, cells[cell_index(width, r2, c2)], w2),
    ensures
        frame_is(
            cells.update(cell_index(width, r1, c1), n1).update(cell_index(width, r2, c2), n2),
            width,
            height,
            closed,
        ),
{
    let i1 = cell_index(width, r1, c1);
    let i2 = cell_index(width, r2, c2);
    let new = cells.update(i1, n1).update(i2, n2);
    lemma_index_in_bounds(width, height, r1, c1);
    lemma_index_in_bounds(width, height, r2, c2);
    assert forall|r: u32, c: u32| r < height && c < width implies #[trigger] frame_ok(
        new,
        width,
        height,
        r,
        c,
        closed,
    ) by {
        assert(frame_ok(cells, width, height, r, c, closed));
        lemma_index_in_bounds(width, height, r, c);
        let p = cell_index(width, r, c);
        if p == i1 {
            lemma_index_injective(width, r, c, r1, c1);
        }
        if p == i2 {
            lemma_index_injective(width, r, c, r2, c2);
        }
    }
}

} // verus!
