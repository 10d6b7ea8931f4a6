//! Recursive division: start from an open field and split it with walls,
//! each with one gap, until every region is a corridor.
use vstd::prelude::*;

use crate::cell::{cell_of, Cell, TYPE_MASK, WALL_E, WALL_N, WALL_S, WALL_W};
use crate::generators::generator::{
    lemma_frame_wall, lemma_frame_walling, lemma_progress_finish_step, lemma_progress_wall,
    lemma_progress_walling, lemma_wall_effect_types, progress, types_kept, wall_effect, MazeGenerator,
};
use crate::generators::paths::{
    connected, inside, lemma_all_open_count, lemma_close_one_passage, lemma_connected_passage,
    lemma_connected_refl, lemma_connected_reroute, lemma_connected_sym, lemma_connected_trans,
    lemma_open_one_passage, lemma_open_sides_add, lemma_open_sides_finite, lemma_open_sides_remove,
    maze_connected, open_sides, passage, perfect_maze, pos_index, Pos,
};
use crate::generators::trace::{change_index, distinct_positions, flatten, replay_new, steps_view};
use crate::generators::walls::{facing, frame_open, lemma_full_and_empty_walls, lemma_wall_bits, wall};
use crate::maze::{cell_index, lemma_index_in_bounds, Maze, MazeChange};
use crate::utils::{is_neighbor, scale, Draws};

verus! {

/// Builds a maze by recursive division.
pub struct RecursiveDivision;

/// A region still to be split.
#[derive(Clone, Copy)]
struct Division {
    x: u32,
    y: u32,
    width: u32,
    height: u32,
    orientation: Orientation,
}

/// The direction of the wall that splits a region.
#[derive(Clone, Copy, PartialEq, Eq, Structural)]
pub enum Orientation {
    Vertical,
    Horizontal,
}

/// The region lies inside a `width` x `height` grid.
spec fn division_inside(d: Division, width: u32, height: u32) -> bool {
    &&& d.x + d.width <= width
    &&& d.y + d.height <= height
}

/// The orientation chosen for a region of this size: across its longer side,
/// and for a square the coin decides (`true`: vertical).
pub open spec fn orientation_for(width: u32, height: u32, coin: bool) -> Orientation {
    if width < height {
        Orientation::Horizontal
    } else if height < width {
        Orientation::Vertical
    } else if coin {
        Orientation::Vertical
    } else {
        Orientation::Horizontal
    }
}

/// `p` lies in the region of columns `x .. x + w` and rows `y .. y + h`.
spec fn in_region(p: Pos, x: u32, y: u32, w: u32, h: u32) -> bool {
    &&& x <= p.1 && p.1 < x + w
    &&& y <= p.0 && p.0 < y + h
}

/// Every two neighbouring cells of the region are joined by a passage.
spec fn region_open(cells: Seq<Cell>, width: u32, x: u32, y: u32, w: u32, h: u32) -> bool {
    forall|a: Pos, b: Pos|
        in_region(a, x, y, w, h) && in_region(b, x, y, w, h) && is_neighbor(a.0, a.1, b.0, b.1)
            ==> #[trigger] passage(cells, width, a, b)
}

/// The region of a division is open inside.
spec fn division_open(cells: Seq<Cell>, width: u32, d: Division) -> bool {
    region_open(cells, width, d.x, d.y, d.width, d.height)
}

/// Two divisions have no cell in common.
spec fn apart(d: Division, e: Division) -> bool {
    ||| d.x + d.width <= e.x
    ||| e.x + e.width <= d.x
    ||| d.y + d.height <= e.y
    ||| e.y + e.height <= d.y
}

/// `a` and `b` lie on either side of one of the first `i` boundaries of the
/// wall being placed: along row `wy` (above it) from column `wx` on when
/// horizontal, along column `wx` (left of it) from row `wy` on when vertical.
spec fn crosses(a: Pos, b: Pos, horizontal: bool, wx: u32, wy: u32, i: int) -> bool {
    if horizontal {
        &&& a.1 == b.1
        &&& wx <= a.1 < wx + i
        &&& ((a.0 + 1 == wy && b.0 == wy) || (b.0 + 1 == wy && a.0 == wy))
    } else {
        &&& a.0 == b.0
        &&& wy <= a.0 < wy + i
        &&& ((a.1 + 1 == wx && b.1 == wx) || (b.1 + 1 == wx && a.1 == wx))
    }
}

/// `a` and `b` are the two sides of the gap at (`py`, `px`): with the cell
/// above it when horizontal, left of it when vertical.
spec fn gap(a: Pos, b: Pos, horizontal: bool, px: u32, py: u32) -> bool {
    let other: Pos = if horizontal {
        ((py - 1) as u32, px)
    } else {
        (py, (px - 1) as u32)
    };
    (a == other && b == (py, px)) || (a == (py, px) && b == other)
}

/// What adding (or removing) the wall between neighbours does to the
/// passages: exactly the one between them closes (or opens).
proof fn lemma_wall_effect_passages(
    m: Maze,
    s: Seq<MazeChange>,
    m2: Maze,
    s2: Seq<MazeChange>,
    r1: u32,
    c1: u32,
    r2: u32,
    c2: u32,
    adding: bool,
)
    requires
        m.wf(),
        m.in_bounds(r1, c1),
        m.in_bounds(r2, c2),
        facing(r1, c1, r2, c2) is Some,
        wall_effect(m, s, m2, s2, r1, c1, r2, c2, adding),
    ensures
        forall|a: Pos, b: Pos|
            inside(a, m.spec_width(), m.spec_height()) && inside(b, m.spec_width(), m.spec_height())
                ==> (#[trigger] passage(m2.spec_cells(), m.spec_width(), a, b) <==> if adding {
                passage(m.spec_cells(), m.spec_width(), a, b) && !((a == (r1, c1) && b == (r2, c2))
                    || (a == (r2, c2) && b == (r1, c1)))
            } else {
                passage(m.spec_cells(), m.spec_width(), a, b) || (a == (r1, c1) && b == (r2, c2))
                    || (a == (r2, c2) && b == (r1, c1))
            }),
{
    let (w1, w2) = facing(r1, c1, r2, c2).unwrap();
    let o1 = m.cell_at(r1, c1);
    let o2 = m.cell_at(r2, c2);
    lemma_wall_bits(o1@, w1, 0);
    lemma_wall_bits(o2@, w2, 0);
    crate::cell::lemma_cell_of(o1@, o1);
    crate::cell::lemma_cell_of(o2@, o2);
    let i1 = cell_index(m.spec_width(), r1, c1);
    let i2 = cell_index(m.spec_width(), r2, c2);
    assert(pos_index(m.spec_width(), (r1, c1)) == i1);
    assert(pos_index(m.spec_width(), (r2, c2)) == i2);
    if adding {
        lemma_close_one_passage(
            m.spec_cells(),
            m.spec_width(),
            m.spec_height(),
            (r1, c1),
            (r2, c2),
            cell_of(o1@ | w1),
            cell_of(o2@ | w2),
        );
    } else {
        lemma_open_one_passage(
            m.spec_cells(),
            m.spec_width(),
            m.spec_height(),
            (r1, c1),
            (r2, c2),
            cell_of(o1@ & !w1),
            cell_of(o2@ & !w2),
        );
    }
}

/// Two more changes, at two different cells of line `line` (a column when
/// `along_row`, else a row), keep a wall step's changes at distinct cells
/// when all earlier ones lie before that line.
proof fn lemma_wall_step_distinct(
    width: u32,
    s: Seq<MazeChange>,
    s2: Seq<MazeChange>,
    r1: u32,
    c1: u32,
    r2: u32,
    c2: u32,
    along_row: bool,
    line: int,
)
    requires
        distinct_positions(width, s),
        forall|k: int|
            0 <= k < s.len() ==> (#[trigger] s[k]).col < width && (along_row ==> s[k].col < line) && (
            !along_row ==> s[k].row < line),
        c1 < width,
        c2 < width,
        along_row ==> c1 == line && c2 == line && r1 != r2,
        !along_row ==> r1 == line && r2 == line && c1 != c2,
        s2.len() == s.len() + 2,
        forall|k: int| 0 <= k < s.len() ==> s2[k] == s[k],
        s2[s.len() as int].row == r1 && s2[s.len() as int].col == c1,
        s2[s.len() as int + 1].row == r2 && s2[s.len() as int + 1].col == c2,
    ensures
        distinct_positions(width, s2),
{
    assert forall|a: int, b: int| 0 <= a < b < s2.len() implies change_index(
        width,
        #[trigger] s2[a],
    ) != change_index(width, #[trigger] s2[b]) by {
        if change_index(width, s2[a]) == change_index(width, s2[b]) {
            if b < s.len() {
                assert(s2[a] == s[a] && s2[b] == s[b]);
            } else {
                if a < s.len() {
                    assert(s2[a] == s[a]);
                }
                crate::maze::lemma_index_injective(width, s2[a].row, s2[a].col, s2[b].row, s2[b].col);
            }
        }
    }
}

/// In an open region, a cell reaches every cell of its column.
proof fn lemma_region_column(
    cells: Seq<Cell>,
    width: u32,
    height: u32,
    x: u32,
    y: u32,
    w: u32,
    h: u32,
    a: Pos,
    r: u32,
)
    requires
        region_open(cells, width, x, y, w, h),
        x + w <= width,
        y + h <= height,
        in_region(a, x, y, w, h),
        y <= r < y + h,
    ensures
        connected(cells, width, height, a, (r, a.1)),
    decreases if r >= a.0 {
        r - a.0
    } else {
        a.0 - r
    },
{
    if r == a.0 {
        assert((r, a.1) == a);
        lemma_connected_refl(cells, width, height, a);
    } else {
        let q: u32 = if r > a.0 {
            (r - 1) as u32
        } else {
            (r + 1) as u32
        };
        lemma_region_column(cells, width, height, x, y, w, h, a, q);
        assert(passage(cells, width, (q, a.1), (r, a.1)));
        lemma_connected_passage(cells, width, height, (q, a.1), (r, a.1));
        lemma_connected_trans(cells, width, height, a, (q, a.1), (r, a.1));
    }
}

/// In an open region, a cell reaches every cell of its row.
proof fn lemma_region_row(
    cells: Seq<Cell>,
    width: u32,
    height: u32,
    x: u32,
    y: u32,
    w: u32,
    h: u32,
    a: Pos,
    c: u32,
)
    requires
        region_open(cells, width, x, y, w, h),
        x + w <= width,
        y + h <= height,
        in_region(a, x, y, w, h),
        x <= c < x + w,
    ensures
        connected(cells, width, height, a, (a.0, c)),
    decreases if c >= a.1 {
        c - a.1
    } else {
        a.1 - c
    },
{
    if c == a.1 {
        assert((a.0, c) == a);
        lemma_connected_refl(cells, width, height, a);
    } else {
        let q: u32 = if c > a.1 {
            (c - 1) as u32
        } else {
            (c + 1) as u32
        };
        lemma_region_row(cells, width, height, x, y, w, h, a, q);
        assert(passage(cells, width, (a.0, q), (a.0, c)));
        lemma_connected_passage(cells, width, height, (a.0, q), (a.0, c));
        lemma_connected_trans(cells, width, height, a, (a.0, q), (a.0, c));
    }
}

/// In an open region every cell reaches every other.
proof fn lemma_region_connected(
    cells: Seq<Cell>,
    width: u32,
    height: u32,
    x: u32,
    y: u32,
    w: u32,
    h: u32,
    a: Pos,
    b: Pos,
)
    requires
        region_open(cells, width, x, y, w, h),
        x + w <= width,
        y + h <= height,
        in_region(a, x, y, w, h),
        in_region(b, x, y, w, h),
    ensures
        connected(cells, width, height, a, b),
{
    lemma_region_column(cells, width, height, x, y, w, h, a, b.0);
    lemma_region_row(cells, width, height, x, y, w, h, (b.0, a.1), b.1);
    assert((b.0, b.1) == b);
    lemma_connected_trans(cells, width, height, a, (b.0, a.1), b);
}

/// The two parts a division is split into, as (x, y, w, h) each: above and
/// below row `wy` when horizontal, left and right of column `wx` when vertical.
spec fn parts(d: Division, horizontal: bool, wx: u32, wy: u32) -> ((u32, u32, u32, u32), (u32, u32, u32, u32)) {
    if horizontal {
        ((d.x, d.y, d.width, (wy - d.y) as u32), (d.x, wy, d.width, (d.y + d.height - wy) as u32))
    } else {
        ((d.x, d.y, (wx - d.x) as u32, d.height), (wx, d.y, (d.x + d.width - wx) as u32, d.height))
    }
}

/// How many boundaries inside the division must still close for its cells
/// to be joined without a cycle: `(width - 1) * (height - 1)`.
spec fn excess(d: Division) -> int {
    (d.width as int - 1) * (d.height as int - 1)
}

/// The excess of all divisions still to be split.
spec fn excess_sum(s: Seq<Division>) -> int
    decreases s.len(),
{
    if s.len() == 0 {
        0
    } else {
        excess_sum(s.drop_last()) + excess(s.last())
    }
}

proof fn lemma_excess_push(s: Seq<Division>, d: Division)
    ensures
        excess_sum(s.push(d)) == excess_sum(s) + excess(d),
{
    assert(s.push(d).drop_last() =~= s);
}

/// How many more splits the division can lead to, at most: one fewer than
/// its cells when it will be split, none otherwise.
spec fn split_budget(d: Division) -> int {
    if d.width >= 2 && d.height >= 2 {
        d.width as int * d.height as int - 1
    } else {
        0
    }
}

/// The split budgets of all divisions still to be split.
spec fn budget_sum(s: Seq<Division>) -> int
    decreases s.len(),
{
    if s.len() == 0 {
        0
    } else {
        budget_sum(s.drop_last()) + split_budget(s.last())
    }
}

proof fn lemma_budget_push(s: Seq<Division>, d: Division)
    ensures
        budget_sum(s.push(d)) == budget_sum(s) + split_budget(d),
{
    assert(s.push(d).drop_last() =~= s);
}

proof fn lemma_budget_nonneg(s: Seq<Division>)
    ensures
        budget_sum(s) >= 0,
    decreases s.len(),
{
    if s.len() > 0 {
        lemma_budget_nonneg(s.drop_last());
        let d = s.last();
        if d.width >= 2 && d.height >= 2 {
            assert(d.width as int * d.height as int >= 4) by (nonlinear_arith)
                requires
                    d.width >= 2,
                    d.height >= 2,
            ;
        }
    }
}

/// Where the split wall of `d` and its gap may lie.
spec fn split_ok(d: Division, horizontal: bool, wx: u32, wy: u32, px: u32, py: u32) -> bool {
    &&& d.width >= 2
    &&& d.height >= 2
    &&& horizontal ==> wx == d.x && d.y + 1 <= wy < d.y + d.height && py == wy && d.x <= px < d.x
        + d.width
    &&& !horizontal ==> wy == d.y && d.x + 1 <= wx < d.x + d.width && px == wx && d.y <= py < d.y
        + d.height
}

/// The passages of `cn` are those of `cb` but for the ones the split wall
/// of `d` crosses, and for the gap.
spec fn split_passages(
    cb: Seq<Cell>,
    cn: Seq<Cell>,
    mw: u32,
    mh: u32,
    d: Division,
    horizontal: bool,
    wx: u32,
    wy: u32,
    px: u32,
    py: u32,
) -> bool {
    forall|a: Pos, b: Pos|
        inside(a, mw, mh) && inside(b, mw, mh) ==> (#[trigger] passage(cn, mw, a, b) <==> (passage(
            cb,
            mw,
            a,
            b,
        ) && !crosses(
            a,
            b,
            horizontal,
            wx,
            wy,
            if horizontal {
                d.width as int
            } else {
                d.height as int
            },
        )) || gap(a, b, horizontal, px, py))
}

/// Splitting an open division with a wall that has one gap keeps the maze
/// connected, and leaves both parts open.
proof fn lemma_division_split(
    cb: Seq<Cell>,
    cn: Seq<Cell>,
    mw: u32,
    mh: u32,
    d: Division,
    horizontal: bool,
    wx: u32,
    wy: u32,
    px: u32,
    py: u32,
)
    requires
        division_inside(d, mw, mh),
        split_ok(d, horizontal, wx, wy, px, py),
        division_open(cb, mw, d),
        maze_connected(cb, mw, mh),
        split_passages(cb, cn, mw, mh, d, horizontal, wx, wy, px, py),
    ensures
        maze_connected(cn, mw, mh),
        ({
            let (p1, p2) = parts(d, horizontal, wx, wy);
            &&& region_open(cn, mw, p1.0, p1.1, p1.2, p1.3)
            &&& region_open(cn, mw, p2.0, p2.1, p2.2, p2.3)
        }),
{
    let (p1, p2) = parts(d, horizontal, wx, wy);
    let len: int = if horizontal {
        d.width as int
    } else {
        d.height as int
    };
    assert forall|a: Pos, b: Pos|
        in_region(a, p1.0, p1.1, p1.2, p1.3) && in_region(b, p1.0, p1.1, p1.2, p1.3) && is_neighbor(
            a.0,
            a.1,
            b.0,
            b.1,
        ) implies #[trigger] passage(cn, mw, a, b) by {
        assert(passage(cb, mw, a, b));
        assert(!crosses(a, b, horizontal, wx, wy, len));
    }
    assert forall|a: Pos, b: Pos|
        in_region(a, p2.0, p2.1, p2.2, p2.3) && in_region(b, p2.0, p2.1, p2.2, p2.3) && is_neighbor(
            a.0,
            a.1,
            b.0,
            b.1,
        ) implies #[trigger] passage(cn, mw, a, b) by {
        assert(passage(cb, mw, a, b));
        assert(!crosses(a, b, horizontal, wx, wy, len));
    }
    let g1: Pos = if horizontal {
        ((py - 1) as u32, px)
    } else {
        (py, (px - 1) as u32)
    };
    let g2: Pos = (py, px);
    assert(passage(cn, mw, g1, g2));
    assert(passage(cn, mw, g2, g1));
    assert forall|a: Pos, b: Pos|
        inside(a, mw, mh) && inside(b, mw, mh) && #[trigger] passage(cb, mw, a, b) implies connected(
        cn,
        mw,
        mh,
        a,
        b,
    ) by {
        if crosses(a, b, horizontal, wx, wy, len) {
            let (s1, s2) = if in_region(a, p1.0, p1.1, p1.2, p1.3) {
                (a, b)
            } else {
                (b, a)
            };
            assert(in_region(s1, p1.0, p1.1, p1.2, p1.3));
            assert(in_region(s2, p2.0, p2.1, p2.2, p2.3));
            lemma_region_connected(cn, mw, mh, p1.0, p1.1, p1.2, p1.3, s1, g1);
            lemma_connected_passage(cn, mw, mh, g1, g2);
            lemma_region_connected(cn, mw, mh, p2.0, p2.1, p2.2, p2.3, g2, s2);
            lemma_connected_trans(cn, mw, mh, s1, g1, g2);
            lemma_connected_trans(cn, mw, mh, s1, g2, s2);
            if s1 != a {
                lemma_connected_sym(cn, mw, mh, s1, s2);
            }
        } else {
            lemma_connected_passage(cn, mw, mh, a, b);
        }
    }
    assert forall|a: Pos, b: Pos| inside(a, mw, mh) && inside(b, mw, mh) implies #[trigger] connected(
        cn,
        mw,
        mh,
        a,
        b,
    ) by {
        lemma_connected_reroute(cb, cn, mw, mh, a, b);
    }
}

/// A division apart from the one being split stays open.
proof fn lemma_division_kept(
    cb: Seq<Cell>,
    cn: Seq<Cell>,
    mw: u32,
    mh: u32,
    d: Division,
    horizontal: bool,
    wx: u32,
    wy: u32,
    px: u32,
    py: u32,
    e: Division,
)
    requires
        division_inside(d, mw, mh),
        division_inside(e, mw, mh),
        split_ok(d, horizontal, wx, wy, px, py),
        division_open(cb, mw, e),
        apart(d, e),
        split_passages(cb, cn, mw, mh, d, horizontal, wx, wy, px, py),
    ensures
        division_open(cn, mw, e),
{
    let len: int = if horizontal {
        d.width as int
    } else {
        d.height as int
    };
    assert forall|a: Pos, b: Pos|
        in_region(a, e.x, e.y, e.width, e.height) && in_region(b, e.x, e.y, e.width, e.height)
            && is_neighbor(a.0, a.1, b.0, b.1) implies #[trigger] passage(cn, mw, a, b) by {
        assert(passage(cb, mw, a, b));
        assert(!crosses(a, b, horizontal, wx, wy, len));
    }
}

/// Where a split of the region at (`x`, `y`) of `width` x `height` puts its
/// wall and its gap, from the two words `w0` and `w1` drawn for it: a
/// horizontal wall along row `y + 1 + scale(w0, height - 2)` with its gap at
/// column `x + scale(w1, width)`, a vertical wall along column
/// `x + 1 + scale(w0, width - 2)` with its gap at row `y + scale(w1, height)`.
/// The result is (wall column, wall row, gap column, gap row).
pub open spec fn split_at(
    w0: u32,
    w1: u32,
    x: u32,
    y: u32,
    width: u32,
    height: u32,
    horizontal: bool,
) -> (u32, u32, u32, u32) {
    if horizontal {
        let wy = (y + 1 + scale(w0, (height - 2) as u64)) as u32;
        (x, wy, (x + scale(w1, width as u64)) as u32, wy)
    } else {
        let wx = (x + 1 + scale(w0, (width - 2) as u64)) as u32;
        (wx, y, wx, (y + scale(w1, height as u64)) as u32)
    }
}

/// Where a split puts its wall and gap, in terms of the words drawn for it.
/// A horizontal wall lies on an inner row boundary of the region: the
/// smallest first word puts it below the region's first row, the largest
/// above its last row, and a larger first word never puts it higher. Its gap
/// lies in one of the region's columns, from the first (smallest second word)
/// to the last (largest second word), moving right as the word grows. A
/// vertical split is the same with rows and columns exchanged.
pub proof fn lemma_split_law(w0: u32, v0: u32, w1: u32, v1: u32, x: u32, y: u32, width: u32, height: u32)
    requires
        width >= 2,
        height >= 2,
        x + width <= u32::MAX,
        y + height <= u32::MAX,
        w0 <= v0,
        w1 <= v1,
    ensures
        ({
            let (wx, wy, px, py) = split_at(w0, w1, x, y, width, height, true);
            &&& wx == x && py == wy
            &&& y + 1 <= wy < y + height
            &&& x <= px < x + width
            &&& wy <= split_at(v0, w1, x, y, width, height, true).1
            &&& px <= split_at(w0, v1, x, y, width, height, true).2
            &&& split_at(0, w1, x, y, width, height, true).1 == y + 1
            &&& split_at(0xffff_ffff, w1, x, y, width, height, true).1 == y + height - 1 - if height
                >= 3 {
                1int
            } else {
                0
            }
            &&& split_at(w0, 0, x, y, width, height, true).2 == x
            &&& split_at(w0, 0xffff_ffff, x, y, width, height, true).2 == x + width - 1
        }),
        ({
            let (wx, wy, px, py) = split_at(w0, w1, x, y, width, height, false);
            &&& wy == y && px == wx
            &&& x + 1 <= wx < x + width
            &&& y <= py < y + height
            &&& wx <= split_at(v0, w1, x, y, width, height, false).0
            &&& py <= split_at(w0, v1, x, y, width, height, false).3
            &&& split_at(0, w1, x, y, width, height, false).0 == x + 1
            &&& split_at(0xffff_ffff, w1, x, y, width, height, false).0 == x + width - 1 - if width
                >= 3 {
                1int
            } else {
                0
            }
            &&& split_at(w0, 0, x, y, width, height, false).3 == y
            &&& split_at(w0, 0xffff_ffff, x, y, width, height, false).3 == y + height - 1
        }),
{
    crate::utils::lemma_scale_range(w1, v1, width as u64);
    crate::utils::lemma_scale_range(w1, v1, height as u64);
    crate::utils::lemma_scale_range(w1, v1, width as u64);
    if height >= 3 {
        crate::utils::lemma_scale_range(w0, v0, (height - 2) as u64);
    } else {
        assert(scale(w0, 0) == 0 && scale(v0, 0) == 0 && scale(0xffff_ffff, 0) == 0 && scale(0, 0) == 0);
    }
    if width >= 3 {
        crate::utils::lemma_scale_range(w0, v0, (width - 2) as u64);
    } else {
        assert(scale(w0, 0) == 0 && scale(v0, 0) == 0 && scale(0xffff_ffff, 0) == 0 && scale(0, 0) == 0);
    }
    crate::utils::lemma_scale_range(0, 0xffff_ffff, width as u64);
    crate::utils::lemma_scale_range(0, 0xffff_ffff, height as u64);
    crate::utils::lemma_scale_range(v1, v1, width as u64);
    crate::utils::lemma_scale_range(v1, v1, height as u64);
    if height >= 3 {
        crate::utils::lemma_scale_range(v0, v0, (height - 2) as u64);
    }
    if width >= 3 {
        crate::utils::lemma_scale_range(v0, v0, (width - 2) as u64);
    }
    assert(scale(w1, width as u64) <= scale(v1, width as u64));
    assert(scale(w1, height as u64) <= scale(v1, height as u64));
    assert(scale(w0, (height - 2) as u64) <= scale(v0, (height - 2) as u64));
    assert(scale(w0, (width - 2) as u64) <= scale(v0, (width - 2) as u64));
}

/// Whether a region of this size is split horizontally, drawing a coin from
/// `words[next]` when it is square.
pub open spec fn split_horizontal(width: u32, height: u32, words: Seq<u32>, next: int) -> bool {
    if width == height {
        orientation_for(width, height, words[next] < 0x8000_0000) == Orientation::Horizontal
    } else {
        orientation_for(width, height, false) == Orientation::Horizontal
    }
}

/// One split: (wall column, wall row, gap column, gap row, wall length,
/// horizontal). A horizontal wall runs along the top of row `wall row` from
/// column `wall column`; a vertical one along the left of column `wall column`
/// from row `wall row`.
pub type Split = (u32, u32, u32, u32, u32, bool);

/// The splits recursive division makes, in order, when it continues from the regions `stack`
/// (x, y, width, height, split horizontally; the last is split first),
/// drawing from `words` at `next`. A region narrower or lower than 2 is
/// dropped. Otherwise two words place its wall and gap (`split_at`), and each
/// of its two parts (the first, then the second) that is at least 2 by 2 is
/// put on the stack with its orientation, a square one drawing a coin.
/// `None` when the words run out.
#[verifier::opaque]
pub open spec fn division_run(words: Seq<u32>, next: int, stack: Seq<(u32, u32, u32, u32, bool)>) -> Option<
    Seq<Split>,
>
    decreases words.len() - next, stack.len(),
{
    if stack.len() == 0 {
        Some(Seq::empty())
    } else {
        let (x, y, w, h, hz) = stack.last();
        let rest = stack.drop_last();
        if w < 2 || h < 2 {
            division_run(words, next, rest)
        } else if next < 0 || next + 2 > words.len() {
            None
        } else {
            let (wx, wy, px, py) = split_at(words[next], words[next + 1], x, y, w, h, hz);
            let (x1, y1, w1, h1, x2, y2, w2, h2) = if hz {
                (x, y, w, (wy - y) as u32, x, wy, w, (y + h - wy) as u32)
            } else {
                (x, y, (wx - x) as u32, h, wx, y, (x + w - wx) as u32, h)
            };
            let c1 = w1 >= 2 && h1 >= 2;
            let coin1 = c1 && w1 == h1;
            let n1 = next + 2 + if coin1 {
                1int
            } else {
                0
            };
            let s1 = if c1 {
                rest.push((x1, y1, w1, h1, split_horizontal(w1, h1, words, next + 2)))
            } else {
                rest
            };
            let c2 = w2 >= 2 && h2 >= 2;
            let coin2 = c2 && w2 == h2;
            let n2 = n1 + if coin2 {
                1int
            } else {
                0
            };
            let s2 = if c2 {
                s1.push((x2, y2, w2, h2, split_horizontal(w2, h2, words, n1)))
            } else {
                s1
            };
            if n2 > words.len() {
                None
            } else {
                match division_run(words, n2, s2) {
                    Some(ss) => Some(seq![(wx, wy, px, py, if hz {
                        w
                    } else {
                        h
                    }, hz)] + ss),
                    None => None,
                }
            }
        }
    }
}

/// The next word and the stack after splitting the region (x, y, w, h) with
/// its wall at column `wx` or row `wy` (as `division_run` does), from
/// `next` (after the two words that placed the wall).
pub open spec fn after_split(
    words: Seq<u32>,
    next: int,
    rest: Seq<(u32, u32, u32, u32, bool)>,
    x: u32,
    y: u32,
    w: u32,
    h: u32,
    hz: bool,
    wx: u32,
    wy: u32,
) -> (int, Seq<(u32, u32, u32, u32, bool)>) {
    let (x1, y1, w1, h1, x2, y2, w2, h2) = if hz {
        (x, y, w, (wy - y) as u32, x, wy, w, (y + h - wy) as u32)
    } else {
        (x, y, (wx - x) as u32, h, wx, y, (x + w - wx) as u32, h)
    };
    let c1 = w1 >= 2 && h1 >= 2;
    let coin1 = c1 && w1 == h1;
    let n1 = next + if coin1 {
        1int
    } else {
        0
    };
    let s1 = if c1 {
        rest.push((x1, y1, w1, h1, split_horizontal(w1, h1, words, next)))
    } else {
        rest
    };
    let c2 = w2 >= 2 && h2 >= 2;
    let coin2 = c2 && w2 == h2;
    let n2 = n1 + if coin2 {
        1int
    } else {
        0
    };
    let s2 = if c2 {
        s1.push((x2, y2, w2, h2, split_horizontal(w2, h2, words, n1)))
    } else {
        s1
    };
    (n2, s2)
}

/// A region too small to split is dropped.
proof fn lemma_run_drop(words: Seq<u32>, next: int, rest: Seq<(u32, u32, u32, u32, bool)>, r: (u32, u32, u32, u32, bool))
    requires
        r.2 < 2 || r.3 < 2,
    ensures
        division_run(words, next, rest.push(r)) == division_run(words, next, rest),
{
    reveal(division_run);
    assert(rest.push(r).drop_last() =~= rest);
}

/// A region at least 2 by 2 is split by the next two words, and the run goes
/// on from the stack with its parts.
proof fn lemma_run_split(
    words: Seq<u32>,
    next: int,
    rest: Seq<(u32, u32, u32, u32, bool)>,
    x: u32,
    y: u32,
    w: u32,
    h: u32,
    hz: bool,
)
    requires
        w >= 2,
        h >= 2,
        0 <= next,
        next + 2 <= words.len(),
        after_split(
            words,
            next + 2,
            rest,
            x,
            y,
            w,
            h,
            hz,
            split_at(words[next], words[next + 1], x, y, w, h, hz).0,
            split_at(words[next], words[next + 1], x, y, w, h, hz).1,
        ).0 <= words.len(),
    ensures
        ({
            let (wx, wy, px, py) = split_at(words[next], words[next + 1], x, y, w, h, hz);
            let (n2, s2) = after_split(words, next + 2, rest, x, y, w, h, hz, wx, wy);
            division_run(words, next, rest.push((x, y, w, h, hz))) == splits_then(
                seq![(wx, wy, px, py, if hz {
                    w
                } else {
                    h
                }, hz)],
                division_run(words, n2, s2),
            )
        }),
{
    reveal(division_run);
    assert(rest.push((x, y, w, h, hz)).drop_last() =~= rest);
    let (wx, wy, px, py) = split_at(words[next], words[next + 1], x, y, w, h, hz);
    let (n2, s2) = after_split(words, next + 2, rest, x, y, w, h, hz, wx, wy);
    match division_run(words, n2, s2) {
        Some(ss) => {},
        None => {},
    }
}

/// `done` followed by what `run` splits.
pub open spec fn splits_then(done: Seq<Split>, run: Option<Seq<Split>>) -> Option<
    Seq<Split>,
> {
    match run {
        Some(ss) => Some(done + ss),
        None => None,
    }
}

/// The `i`-th pair of changes of a wall step: the cell on the wall line
/// gains the wall on its near side (north for a horizontal wall, west for a
/// vertical one), then its neighbour across the line gains the facing wall.
pub open spec fn wall_pair_ok(step: Seq<MazeChange>, i: int, sp: Split) -> bool {
    let (wx, wy, px, py, len, hz) = sp;
    let (r1, c1, w1, r2, c2, w2) = if hz {
        (wy as int, wx + i, WALL_N, wy - 1, wx + i, WALL_S)
    } else {
        (wy + i, wx as int, WALL_W, wy + i, wx - 1, WALL_E)
    };
    &&& step[2 * i].row == r1 && step[2 * i].col == c1
    &&& step[2 * i].new@ == step[2 * i].old@ | w1
    &&& step[2 * i + 1].row == r2 && step[2 * i + 1].col == c2
    &&& step[2 * i + 1].new@ == step[2 * i + 1].old@ | w2
}

/// The wall step of a split: the wall added along the whole line, two
/// changes per cell of it.
pub open spec fn wall_step_ok(step: Seq<MazeChange>, sp: Split) -> bool {
    &&& step.len() == 2 * sp.4
    &&& forall|i: int| 0 <= i < sp.4 ==> #[trigger] wall_pair_ok(step, i, sp)
}

/// The gap step of a split: the wall removed at the gap, on both sides.
pub open spec fn gap_step_ok(step: Seq<MazeChange>, sp: Split) -> bool {
    let (wx, wy, px, py, len, hz) = sp;
    let (r2, c2, w1, w2) = if hz {
        (py - 1, px as int, WALL_N, WALL_S)
    } else {
        (py as int, px - 1, WALL_W, WALL_E)
    };
    &&& step.len() == 2
    &&& step[0].row == py && step[0].col == px
    &&& step[0].new@ == step[0].old@ & !w1
    &&& step[1].row == r2 && step[1].col == c2
    &&& step[1].new@ == step[1].old@ & !w2
}

/// The steps end with two steps per split, in order: its wall step, then its
/// gap step.
pub open spec fn split_in_order(steps: Seq<Seq<MazeChange>>, splits: Seq<Split>) -> bool {
    &&& steps.len() >= 2 * splits.len()
    &&& forall|t: int|
        0 <= t < splits.len() ==> wall_step_ok(
            #[trigger] steps[steps.len() - 2 * splits.len() + 2 * t],
            splits[t],
        ) && gap_step_ok(steps[steps.len() - 2 * splits.len() + 2 * t + 1], splits[t])
}

/// The step removes all four walls of every cell of `cells`, one change per
/// cell in row-major order.
pub open spec fn clears_every_cell(step: Seq<MazeChange>, cells: Seq<Cell>, width: u32) -> bool {
    &&& step.len() == cells.len()
    &&& forall|k: int|
        0 <= k < step.len() ==> {
            &&& change_index(width, #[trigger] step[k]) == k
            &&& step[k].old == cells[k]
            &&& step[k].new == cell_of(cells[k]@ & !0x0fu8)
        }
}

/// Every change of every step keeps the cell's type bits.
pub open spec fn changes_keep_types(steps: Seq<Seq<MazeChange>>) -> bool {
    forall|k: int, i: int|
        0 <= k < steps.len() && 0 <= i < steps[k].len() ==> (#[trigger] steps[k][i]).new@ & TYPE_MASK
            == steps[k][i].old@ & TYPE_MASK
}

/// The run splits, and the steps end with its splits in order.
pub open spec fn split_as_run(steps: Seq<Seq<MazeChange>>, first: int, run: Option<Seq<Split>>) -> bool {
    match run {
        Some(ss) => steps.len() == first + 2 * ss.len() && split_in_order(steps, ss),
        None => false,
    }
}

/// The changes of a split's wall step and gap step keep the cells' type bits.
proof fn lemma_split_steps_keep_types(wall: Seq<MazeChange>, gap: Seq<MazeChange>, sp: Split)
    requires
        wall_step_ok(wall, sp),
        gap_step_ok(gap, sp),
    ensures
        forall|i: int| 0 <= i < wall.len() ==> (#[trigger] wall[i]).new@ & TYPE_MASK == wall[i].old@ & TYPE_MASK,
        forall|i: int| 0 <= i < gap.len() ==> (#[trigger] gap[i]).new@ & TYPE_MASK == gap[i].old@ & TYPE_MASK,
{
    assert(WALL_N & TYPE_MASK == 0 && WALL_S & TYPE_MASK == 0 && WALL_E & TYPE_MASK == 0 && WALL_W
        & TYPE_MASK == 0) by (bit_vector);
    assert forall|i: int| 0 <= i < wall.len() implies (#[trigger] wall[i]).new@ & TYPE_MASK == wall[i].old@
        & TYPE_MASK by {
        let j = i / 2;
        assert(0 <= j < sp.4 && (i == 2 * j || i == 2 * j + 1));
        assert(wall_pair_ok(wall, j, sp));
        crate::cell::lemma_wall_change_keeps_type(wall[i].old@, WALL_N);
        crate::cell::lemma_wall_change_keeps_type(wall[i].old@, WALL_S);
        crate::cell::lemma_wall_change_keeps_type(wall[i].old@, WALL_E);
        crate::cell::lemma_wall_change_keeps_type(wall[i].old@, WALL_W);
    }
    assert forall|i: int| 0 <= i < gap.len() implies (#[trigger] gap[i]).new@ & TYPE_MASK == gap[i].old@
        & TYPE_MASK by {
        crate::cell::lemma_wall_change_keeps_type(gap[i].old@, WALL_N);
        crate::cell::lemma_wall_change_keeps_type(gap[i].old@, WALL_S);
        crate::cell::lemma_wall_change_keeps_type(gap[i].old@, WALL_E);
        crate::cell::lemma_wall_change_keeps_type(gap[i].old@, WALL_W);
    }
}

/// The regions of the stack, as (x, y, width, height, split horizontally).
spec fn regions(stack: Seq<Division>) -> Seq<(u32, u32, u32, u32, bool)> {
    stack.map_values(|d: Division| (d.x, d.y, d.width, d.height, d.orientation == Orientation::Horizontal))
}

/// Draw where a split of the region puts its wall and its gap: two words,
/// or `None` when fewer than two are left.
fn choose_split(x: u32, y: u32, width: u32, height: u32, horizontal: bool, draws: &mut Draws) -> (r:
    Option<(u32, u32, u32, u32)>)
    requires
        old(draws).wf(),
        width >= 2,
        height >= 2,
        x + width <= u32::MAX,
        y + height <= u32::MAX,
    ensures
        old(draws).advanced_to(final(draws)),
        ({
            let n = old(draws).spec_next() as int;
            let w = old(draws).spec_words();
            if n + 2 <= w.len() {
                &&& final(draws).spec_next() == n + 2
                &&& r == Some(split_at(w[n], w[n + 1], x, y, width, height, horizontal))
            } else {
                &&& r is None
                &&& final(draws).exhausted()
            }
        }),
        r matches Some((wx, wy, px, py)) ==> {
            &&& horizontal ==> wx == x && y + 1 <= wy < y + height && py == wy && x <= px < x
                + width
            &&& !horizontal ==> wy == y && x + 1 <= wx < x + width && px == wx && y <= py < y
                + height
        },
{
        // Choose wall position within correct bounds
        let wx = if horizontal {
            x
        } else {
            match draws.below((width - 2) as u64) {
                Some(v) => {
                    proof {
                        crate::utils::lemma_scale_below(
                            draws.spec_words()[draws.spec_next() - 1],
                            (width - 2) as u64,
                        );
                    }
                    x + 1 + v as u32
                },
                None => {
                    return None;
                },
            }
        };
        let wy = if horizontal {
            match draws.below((height - 2) as u64) {
                Some(v) => {
                    proof {
                        crate::utils::lemma_scale_below(
                            draws.spec_words()[draws.spec_next() - 1],
                            (height - 2) as u64,
                        );
                    }
                    y + 1 + v as u32
                },
                None => {
                    return None;
                },
            }
        } else {
            y
        };

        // Choose passage position on the wall line
        let px = if horizontal {
            match draws.below(width as u64) {
                Some(v) => {
                    proof {
                        crate::utils::lemma_scale_below(
                            draws.spec_words()[draws.spec_next() - 1],
                            width as u64,
                        );
                    }
                    x + v as u32
                },
                None => {
                    return None;
                },
            }
        } else {
            wx
        };
        let py = if horizontal {
            wy
        } else {
            match draws.below(height as u64) {
                Some(v) => {
                    proof {
                        crate::utils::lemma_scale_below(
                            draws.spec_words()[draws.spec_next() - 1],
                            height as u64,
                        );
                    }
                    y + v as u32
                },
                None => {
                    return None;
                },
            }
        };

        proof {
            let n = old(draws).spec_next() as int;
            let w = old(draws).spec_words();
            crate::utils::lemma_scale_below(w[n], (width - 2) as u64);
            crate::utils::lemma_scale_below(w[n], (height - 2) as u64);
            crate::utils::lemma_scale_below(w[n + 1], width as u64);
            crate::utils::lemma_scale_below(w[n + 1], height as u64);
        }
        Some((wx, wy, px, py))
}

impl RecursiveDivision {
    pub fn new() -> RecursiveDivision {
        RecursiveDivision
    }

    /// Split a region across its longer side; a square one is split by a coin
    /// flip, which uses one draw (`None` when none is left).
    pub fn choose_orientation(&self, width: u32, height: u32, draws: &mut Draws) -> (r: Option<
        Orientation,
    >)
        requires
            old(draws).wf(),
        ensures
            old(draws).advanced_to(final(draws)),
            width != height ==> r == Some(orientation_for(width, height, false))
                && final(draws).spec_next() == old(draws).spec_next(),
            width == height ==> {
                let n = old(draws).spec_next();
                let words = old(draws).spec_words();
                if n < words.len() {
                    &&& r == Some(orientation_for(width, height, words[n as int] < 0x8000_0000))
                    &&& final(draws).spec_next() == n + 1
                } else {
                    &&& r is None
                    &&& final(draws).exhausted()
                }
            },
    {
        if width < height {
            Some(Orientation::Horizontal)
        } else if height < width {
            Some(Orientation::Vertical)
        } else {
            match draws.coin() {
                Some(true) => Some(Orientation::Vertical),
                Some(false) => Some(Orientation::Horizontal),
                None => None,
            }
        }
    }
}

impl MazeGenerator for RecursiveDivision {
    open spec fn accepts(&self, width: u32, height: u32) -> bool {
        true
    }

    /// Remove every wall, then split regions: each split draws a wall across
    /// the region (horizontal: along a random row strictly inside it;
    /// vertical: along a random column) with one random gap, and the two
    /// parts are split in turn while both their sides are at least 2.
    #[verifier::rlimit(100)]
    fn generate_maze_steps(&mut self, original_maze: &Maze, draws: &mut Draws) -> (r: Option<
        Vec<Vec<MazeChange>>,
    >)
        ensures
            old(draws).spec_words().len() - old(draws).spec_next() >= 1 + 4 * (
            original_maze.spec_width() as int * original_maze.spec_height() as int) ==> r is Some,
            r matches Some(steps) ==> {
                let n = old(draws).spec_next() as int;
                let words = old(draws).spec_words();
                let wd = original_maze.spec_width();
                let ht = original_maze.spec_height();
                &&& wd as int * ht as int > 0 ==> clears_every_cell(
                    steps@[0]@,
                    original_maze.spec_cells(),
                    wd,
                )
                &&& changes_keep_types(steps_view(steps@))
                &&& split_as_run(
                    steps_view(steps@),
                    if wd as int * ht as int > 0 {
                        1int
                    } else {
                        0
                    },
                    division_run(
                        words,
                        n + if wd == ht {
                            1int
                        } else {
                            0
                        },
                        seq![(0u32, 0u32, wd, ht, split_horizontal(wd, ht, words, n))],
                    ),
                )
            },
            r matches Some(steps) ==> {
                let built = replay_new(
                    original_maze.spec_cells(),
                    original_maze.spec_width(),
                    flatten(steps_view(steps@)),
                );
                &&& frame_open(built, original_maze.spec_width(), original_maze.spec_height())
                &&& perfect_maze(built, original_maze.spec_width(), original_maze.spec_height())
                &&& types_kept(original_maze.spec_cells(), built)
                &&& forall|k: int| 0 <= k < steps@.len() ==> (#[trigger] steps@[k]@).len() > 0
                &&& (steps@.len() == 0 <==> original_maze.spec_width() as int
                    * original_maze.spec_height() as int == 0)
                &&& forall|k: int|
                    0 <= k < steps@.len() ==> distinct_positions(
                        original_maze.spec_width(),
                        #[trigger] steps@[k]@,
                    )
            },
    {
        let mut steps: Vec<Vec<MazeChange>> = Vec::new();
        let mut maze = original_maze.clone();
        let ghost start = maze.spec_cells();
        let ghost mw = maze.spec_width();
        let ghost mh = maze.spec_height();

        // Start with all walls removed
        let clear_step = self.remove_all_walls(&mut maze);
        proof {
            lemma_progress_walling(start, mw, mh, clear_step@, maze, false);
            lemma_frame_walling(start, mw, mh, clear_step@, maze.spec_cells(), false);
            let c = maze.spec_cells();
            assert forall|a: Pos, b: Pos|
                in_region(a, 0, 0, mw, mh) && in_region(b, 0, 0, mw, mh) && is_neighbor(
                    a.0,
                    a.1,
                    b.0,
                    b.1,
                ) implies #[trigger] passage(c, mw, a, b) by {
                lemma_index_in_bounds(mw, mh, a.0, a.1);
                lemma_index_in_bounds(mw, mh, b.0, b.1);
                let ia = pos_index(mw, a);
                let ib = pos_index(mw, b);
                assert(c[ia] == cell_of(start[ia]@ & !0x0fu8));
                assert(c[ib] == cell_of(start[ib]@ & !0x0fu8));
                lemma_full_and_empty_walls(start[ia]@);
                lemma_full_and_empty_walls(start[ib]@);
            }
            assert forall|a: Pos, b: Pos| inside(a, mw, mh) && inside(b, mw, mh) implies #[trigger] connected(
                c,
                mw,
                mh,
                a,
                b,
            ) by {
                lemma_region_connected(c, mw, mh, 0, 0, mw, mh, a, b);
            }
            assert(0x0fu8 & 0xf0u8 == 0) by (bit_vector);
            assert forall|i: int| 0 <= i < c.len() implies (#[trigger] c[i]@) & TYPE_MASK == start[i]@
                & TYPE_MASK by {
                assert(c[i] == cell_of(start[i]@ & !0x0fu8));
                crate::cell::lemma_cell_of(start[i]@ & !0x0fu8, start[i]);
                crate::cell::lemma_wall_change_keeps_type(start[i]@, 0x0f);
            }
            if mw as int * mh as int > 0 {
                assert forall|i: int| 0 <= i < c.len() implies !wall(#[trigger] c[i], WALL_N) && !wall(
                    c[i],
                    WALL_E,
                ) && !wall(c[i], WALL_S) && !wall(c[i], WALL_W) by {
                    assert(c[i] == cell_of(start[i]@ & !0x0fu8));
                    lemma_full_and_empty_walls(start[i]@);
                }
                assert(mw >= 1 && mh >= 1) by (nonlinear_arith)
                    requires
                        mw as int * mh as int > 0,
                ;
                lemma_all_open_count(c, mw, mh);
            }
        }
        let ghost cleared = clear_step@;
        proof {
            assert forall|a: int, b: int| 0 <= a < b < clear_step@.len() implies change_index(
                mw,
                #[trigger] clear_step@[a],
            ) != change_index(mw, #[trigger] clear_step@[b]) by {}
            crate::generators::trace::lemma_full_pass_order(
                start,
                mw,
                mh,
                clear_step@,
                maze.spec_cells(),
                crate::generators::generator::every_position(),
                crate::generators::generator::without_walls(),
            );
            assert(clears_every_cell(cleared, start, mw));
            assert forall|i: int| 0 <= i < cleared.len() implies (#[trigger] cleared[i]).new@ & TYPE_MASK
                == cleared[i].old@ & TYPE_MASK by {
                crate::cell::lemma_cell_of(start[i]@ & !0x0fu8, start[i]);
                assert(0x0fu8 & 0xf0u8 == 0) by (bit_vector);
                crate::cell::lemma_wall_change_keeps_type(start[i]@, 0x0f);
            }
        }
        proof {
            if mw as int * mh as int > 0 {
                assert(crate::generators::generator::every_position()(0));
                let k0 = choose|k0: int|
                    0 <= k0 < clear_step@.len() && change_index(mw, #[trigger] clear_step@[k0]) == 0;
            } else if clear_step@.len() > 0 {
                let ch = clear_step@[0];
                assert(ch.row as int * mw as int >= 0) by (nonlinear_arith);
                assert(change_index(mw, ch) < mw as int * mh as int);
            }
        }
        if clear_step.len() > 0 {
            proof {
                lemma_progress_finish_step(start, mw, mh, steps@, clear_step, maze);
            }
            steps.push(clear_step);
        } else {
            proof {
                assert(clear_step@ =~= Seq::<MazeChange>::empty());
            }
        }

        // With 1 + 4 * (cells) words the division never runs out: at most one
        // coin first, then at most four words per split, and every split
        // uses up at least one of a division's cells but one.
        let ghost ample = draws.spec_words().len() - draws.spec_next() >= 1 + 4 * (mw as int
            * mh as int);
        let first_orientation = match self.choose_orientation(maze.width(), maze.height(), draws) {
            Some(o) => o,
            None => {
                return None;
            },
        };
        let mut stack: Vec<Division> = Vec::new();
        stack.push(
            Division {
                x: 0,
                y: 0,
                width: maze.width(),
                height: maze.height(),
                orientation: first_orientation,
            },
        );
        proof {
            lemma_budget_push(Seq::empty(), stack@[0]);
            lemma_excess_push(Seq::empty(), stack@[0]);
            assert(stack@ =~= Seq::<Division>::empty().push(stack@[0]));
            let w = mw as int;
            let h = mh as int;
            assert((w - 1) * h + w * (h - 1) + 1 == w * h + (w - 1) * (h - 1)) by (nonlinear_arith);
        }

        let ghost n_init = draws.spec_next() as int;
        let ghost stack_init = regions(stack@);
        let ghost mut done: Seq<Split> = Seq::empty();
        while stack.len() > 0
            invariant
                division_run(old(draws).spec_words(), n_init, stack_init) == splits_then(
                    done,
                    division_run(draws.spec_words(), draws.spec_next() as int, regions(stack@)),
                ),
                split_in_order(steps_view(steps@), done),
                steps@.len() == (if mw as int * mh as int > 0 {
                    1int
                } else {
                    0
                }) + 2 * done.len(),
                steps@.len() > 0 ==> steps@[0]@ == cleared,
                clears_every_cell(cleared, start, mw),
                changes_keep_types(steps_view(steps@)),
                progress(start, mw, mh, steps@, Seq::empty(), maze),
                frame_open(maze.spec_cells(), mw, mh),
                start == original_maze.spec_cells(),
                mw == original_maze.spec_width(),
                mh == original_maze.spec_height(),
                forall|k: int| 0 <= k < stack@.len() ==> division_inside(#[trigger] stack@[k], mw, mh),
                forall|k: int| 0 <= k < stack@.len() ==> division_open(maze.spec_cells(), mw, #[trigger] stack@[k]),
                forall|k1: int, k2: int|
                    0 <= k1 < k2 < stack@.len() ==> apart(#[trigger] stack@[k1], #[trigger] stack@[k2]),
                maze_connected(maze.spec_cells(), mw, mh),
                types_kept(start, maze.spec_cells()),
                forall|k: int| 0 <= k < steps@.len() ==> distinct_positions(mw, #[trigger] steps@[k]@),
                forall|k: int| 0 <= k < steps@.len() ==> (#[trigger] steps@[k]@).len() > 0,
                (steps@.len() == 0) == (mw as int * mh as int == 0),
                mw as int * mh as int > 0 ==> {
                    &&& open_sides(maze.spec_cells(), mw, mh).finite()
                    &&& open_sides(maze.spec_cells(), mw, mh).len() + 1 == mw as int * mh as int
                        + excess_sum(stack@)
                    &&& forall|k: int|
                        0 <= k < stack@.len() ==> (#[trigger] stack@[k]).width >= 1 && stack@[k].height >= 1
                },
                draws.wf(),
                old(draws).advanced_to(draws),
                ample == (old(draws).spec_words().len() - old(draws).spec_next() >= 1 + 4 * (mw as int
                    * mh as int)),
                ample ==> draws.spec_words().len() - draws.spec_next() >= 4 * budget_sum(stack@),
            ensures
                stack@.len() == 0,
            decreases draws.spec_words().len() - draws.spec_next(), stack@.len(),
        {
            let ghost before_pop = stack@;
            let Division { x, y, width, height, orientation } = match stack.pop() {
                Some(d) => d,
                None => {
                    break;
                },
            };
            let ghost d = before_pop[before_pop.len() - 1];
            let ghost cb = maze.spec_cells();
            proof {
                assert(regions(before_pop) =~= regions(stack@).push(
                    (x, y, width, height, orientation == Orientation::Horizontal),
                ));
                assert(division_inside(d, mw, mh));
                assert(division_open(cb, mw, d));
                assert(before_pop =~= stack@.push(d));
                lemma_excess_push(stack@, d);
                lemma_budget_push(stack@, d);
                lemma_budget_nonneg(stack@);
                assert forall|k: int| 0 <= k < stack@.len() implies division_inside(
                    #[trigger] stack@[k],
                    mw,
                    mh,
                ) && division_open(cb, mw, stack@[k]) && apart(stack@[k], d) by {
                    assert(stack@[k] == before_pop[k]);
                    assert(apart(before_pop[k], before_pop[before_pop.len() - 1]));
                }
                assert forall|k1: int, k2: int| 0 <= k1 < k2 < stack@.len() implies apart(
                    #[trigger] stack@[k1],
                    #[trigger] stack@[k2],
                ) by {
                    assert(stack@[k1] == before_pop[k1]);
                    assert(stack@[k2] == before_pop[k2]);
                }
            }
            if width < 2 || height < 2 {
                proof {
                    if mw as int * mh as int > 0 {
                        assert(excess(d) == 0) by (nonlinear_arith)
                            requires
                                d.width == 1 || d.height == 1,
                        ;
                    }
                    lemma_run_drop(
                        draws.spec_words(),
                        draws.spec_next() as int,
                        regions(stack@),
                        (x, y, width, height, orientation == Orientation::Horizontal),
                    );
                }
                continue;
            }
            let ghost n0 = draws.spec_next();
            let ghost rest = stack@;
            proof {
                assert(mw as int * mh as int > 0) by (nonlinear_arith)
                    requires
                        mw >= 2,
                        mh >= 2,
                ;
                assert(width as int * height as int >= 4) by (nonlinear_arith)
                    requires
                        width >= 2,
                        height >= 2,
                ;
                assert(split_budget(d) == width as int * height as int - 1);
                assert(ample ==> draws.spec_words().len() - n0 >= 4 * budget_sum(rest) + 12);
            }

            let horizontal = orientation == Orientation::Horizontal;

            let (wx, wy, px, py) = match choose_split(x, y, width, height, horizontal, draws) {
                Some(t) => t,
                None => {
                    return None;
                },
            };

            let length = if horizontal {
                width
            } else {
                height
            };

            let mut wall_step: Vec<MazeChange> = Vec::new();
            let ghost sp: Split = (wx, wy, px, py, length, horizontal);
            proof {
                lemma_open_sides_finite(cb, mw, mh);
            }

            // Place wall
            let mut i: u32 = 0;
            while i < length
                invariant
                    progress(start, mw, mh, steps@, wall_step@, maze),
                    frame_open(maze.spec_cells(), mw, mh),
                    i <= length,
                    length == if horizontal {
                        width
                    } else {
                        height
                    },
                    x + width <= mw,
                    y + height <= mh,
                    horizontal ==> wx == x && y + 1 <= wy < y + height,
                    !horizontal ==> wy == y && x + 1 <= wx < x + width,
                    forall|a: Pos, b: Pos|
                        inside(a, mw, mh) && inside(b, mw, mh) ==> (#[trigger] passage(
                            maze.spec_cells(),
                            mw,
                            a,
                            b,
                        ) <==> passage(cb, mw, a, b) && !crosses(a, b, horizontal, wx, wy, i as int)),
                    division_open(cb, mw, d),
                    d.x == x && d.y == y && d.width == width && d.height == height,
                    open_sides(cb, mw, mh).finite(),
                    open_sides(maze.spec_cells(), mw, mh).finite(),
                    open_sides(maze.spec_cells(), mw, mh).len() + i == open_sides(cb, mw, mh).len(),
                    distinct_positions(mw, wall_step@),
                    types_kept(start, maze.spec_cells()),
                    forall|k: int|
                        0 <= k < wall_step@.len() ==> (#[trigger] wall_step@[k]).row < mh
                            && wall_step@[k].col < mw && (horizontal ==> wall_step@[k].col < wx + i)
                            && (!horizontal ==> wall_step@[k].row < wy + i),
                    wall_step@.len() == 2 * i,
                    sp == (wx, wy, px, py, length, horizontal),
                    forall|j: int| 0 <= j < i ==> #[trigger] wall_pair_ok(wall_step@, j, sp),
                decreases length - i,
            {
                let cx = if horizontal {
                    wx + i
                } else {
                    wx
                };
                let cy = if horizontal {
                    wy
                } else {
                    wy + i
                };

                if cx >= maze.width() || cy >= maze.height() {
                    i = i + 1;
                    continue;
                }

                let ghost m1 = maze;
                let ghost s1 = wall_step@;
                if horizontal {
                    self.add_wall_dir(&mut maze, cy, cx, -1, 0, &mut wall_step);
                    proof {
                        lemma_progress_wall(
                            start,
                            mw,
                            mh,
                            steps@,
                            s1,
                            m1,
                            wall_step@,
                            maze,
                            cy,
                            cx,
                            (cy - 1) as u32,
                            cx,
                            true,
                        );
                        lemma_frame_wall(m1, s1, maze, wall_step@, cy, cx, (cy - 1) as u32, cx, true, false);
                        lemma_wall_effect_passages(m1, s1, maze, wall_step@, cy, cx, (cy - 1) as u32, cx, true);
                        lemma_wall_effect_types(m1, s1, maze, wall_step@, cy, cx, (cy - 1) as u32, cx, true);
                        assert(in_region((cy, cx), x, y, width, height));
                        assert(in_region(((cy - 1) as u32, cx), x, y, width, height));
                        assert(passage(cb, mw, (cy, cx), ((cy - 1) as u32, cx)));
                        assert(passage(m1.spec_cells(), mw, (cy, cx), ((cy - 1) as u32, cx)));
                        lemma_open_sides_remove(
                            m1.spec_cells(),
                            maze.spec_cells(),
                            mw,
                            mh,
                            (cy, cx),
                            ((cy - 1) as u32, cx),
                        );
                        lemma_wall_step_distinct(mw, s1, wall_step@, cy, cx, (cy - 1) as u32, cx, true, wx + i);
                        let o1 = m1.cell_at(cy, cx);
                        let o2 = m1.cell_at((cy - 1) as u32, cx);
                        crate::cell::lemma_cell_of(o1@ | WALL_N, o1);
                        crate::cell::lemma_cell_of(o2@ | WALL_S, o2);
                        assert(wall_pair_ok(wall_step@, i as int, sp));
                        assert forall|j: int| 0 <= j < i + 1 implies #[trigger] wall_pair_ok(wall_step@, j, sp) by {
                            if j < i {
                                assert(wall_pair_ok(s1, j, sp));
                                assert(wall_step@[2 * j] == s1[2 * j]);
                                assert(wall_step@[2 * j + 1] == s1[2 * j + 1]);
                            }
                        }
                        assert forall|a: Pos, b: Pos|
                            inside(a, mw, mh) && inside(b, mw, mh) implies (#[trigger] passage(
                            maze.spec_cells(),
                            mw,
                            a,
                            b,
                        ) <==> passage(cb, mw, a, b) && !crosses(a, b, horizontal, wx, wy, i + 1)) by {
                            assert(passage(m1.spec_cells(), mw, a, b) <==> passage(cb, mw, a, b)
                                && !crosses(a, b, horizontal, wx, wy, i as int));
                        }
                    }
                } else {
                    self.add_wall_dir(&mut maze, cy, cx, 0, -1, &mut wall_step);
                    proof {
                        lemma_progress_wall(
                            start,
                            mw,
                            mh,
                            steps@,
                            s1,
                            m1,
                            wall_step@,
                            maze,
                            cy,
                            cx,
                            cy,
                            (cx - 1) as u32,
                            true,
                        );
                        lemma_frame_wall(m1, s1, maze, wall_step@, cy, cx, cy, (cx - 1) as u32, true, false);
                        lemma_wall_effect_passages(m1, s1, maze, wall_step@, cy, cx, cy, (cx - 1) as u32, true);
                        lemma_wall_effect_types(m1, s1, maze, wall_step@, cy, cx, cy, (cx - 1) as u32, true);
                        assert(in_region((cy, cx), x, y, width, height));
                        assert(in_region((cy, (cx - 1) as u32), x, y, width, height));
                        assert(passage(cb, mw, (cy, cx), (cy, (cx - 1) as u32)));
                        assert(passage(m1.spec_cells(), mw, (cy, cx), (cy, (cx - 1) as u32)));
                        lemma_open_sides_remove(
                            m1.spec_cells(),
                            maze.spec_cells(),
                            mw,
                            mh,
                            (cy, cx),
                            (cy, (cx - 1) as u32),
                        );
                        lemma_wall_step_distinct(mw, s1, wall_step@, cy, cx, cy, (cx - 1) as u32, false, wy + i);
                        let o1 = m1.cell_at(cy, cx);
                        let o2 = m1.cell_at(cy, (cx - 1) as u32);
                        crate::cell::lemma_cell_of(o1@ | WALL_W, o1);
                        crate::cell::lemma_cell_of(o2@ | WALL_E, o2);
                        assert(wall_pair_ok(wall_step@, i as int, sp));
                        assert forall|j: int| 0 <= j < i + 1 implies #[trigger] wall_pair_ok(wall_step@, j, sp) by {
                            if j < i {
                                assert(wall_pair_ok(s1, j, sp));
                                assert(wall_step@[2 * j] == s1[2 * j]);
                                assert(wall_step@[2 * j + 1] == s1[2 * j + 1]);
                            }
                        }
                        assert forall|a: Pos, b: Pos|
                            inside(a, mw, mh) && inside(b, mw, mh) implies (#[trigger] passage(
                            maze.spec_cells(),
                            mw,
                            a,
                            b,
                        ) <==> passage(cb, mw, a, b) && !crosses(a, b, horizontal, wx, wy, i + 1)) by {
                            assert(passage(m1.spec_cells(), mw, a, b) <==> passage(cb, mw, a, b)
                                && !crosses(a, b, horizontal, wx, wy, i as int));
                        }
                    }
                }
                i = i + 1;
            }

            let ghost steps_w = steps_view(steps@);
            let ghost ws = wall_step@;
            proof {
                assert(wall_step_ok(wall_step@, sp));
            }
            if wall_step.len() > 0 {
                proof {
                    lemma_progress_finish_step(start, mw, mh, steps@, wall_step, maze);
                }
                steps.push(wall_step);
            } else {
                proof {
                    assert(wall_step@ =~= Seq::<MazeChange>::empty());
                }
            }

            // Explicitly visualize removing walls for the passage
            let mut carve: Vec<MazeChange> = Vec::new();
            let ghost m2 = maze;
            if horizontal {
                self.remove_wall_dir(&mut maze, py, px, -1, 0, &mut carve);
                proof {
                    lemma_progress_wall(
                        start,
                        mw,
                        mh,
                        steps@,
                        Seq::empty(),
                        m2,
                        carve@,
                        maze,
                        py,
                        px,
                        (py - 1) as u32,
                        px,
                        false,
                    );
                    lemma_frame_wall(m2, Seq::empty(), maze, carve@, py, px, (py - 1) as u32, px, false, false);
                    lemma_wall_effect_passages(m2, Seq::empty(), maze, carve@, py, px, (py - 1) as u32, px, false);
                    lemma_wall_effect_types(m2, Seq::empty(), maze, carve@, py, px, (py - 1) as u32, px, false);
                    assert(!passage(m2.spec_cells(), mw, (py, px), ((py - 1) as u32, px)));
                    lemma_open_sides_add(m2.spec_cells(), maze.spec_cells(), mw, mh, (py, px), ((py - 1) as u32, px));
                    let o1 = m2.cell_at(py, px);
                    let o2 = m2.cell_at((py - 1) as u32, px);
                    crate::cell::lemma_cell_of(o1@ & !WALL_N, o1);
                    crate::cell::lemma_cell_of(o2@ & !WALL_S, o2);
                }
            } else {
                self.remove_wall_dir(&mut maze, py, px, 0, -1, &mut carve);
                proof {
                    lemma_progress_wall(
                        start,
                        mw,
                        mh,
                        steps@,
                        Seq::empty(),
                        m2,
                        carve@,
                        maze,
                        py,
                        px,
                        py,
                        (px - 1) as u32,
                        false,
                    );
                    lemma_frame_wall(m2, Seq::empty(), maze, carve@, py, px, py, (px - 1) as u32, false, false);
                    lemma_wall_effect_passages(m2, Seq::empty(), maze, carve@, py, px, py, (px - 1) as u32, false);
                    lemma_wall_effect_types(m2, Seq::empty(), maze, carve@, py, px, py, (px - 1) as u32, false);
                    assert(!passage(m2.spec_cells(), mw, (py, px), (py, (px - 1) as u32)));
                    lemma_open_sides_add(m2.spec_cells(), maze.spec_cells(), mw, mh, (py, px), (py, (px - 1) as u32));
                    let o1 = m2.cell_at(py, px);
                    let o2 = m2.cell_at(py, (px - 1) as u32);
                    crate::cell::lemma_cell_of(o1@ & !WALL_W, o1);
                    crate::cell::lemma_cell_of(o2@ & !WALL_E, o2);
                }
            }
            proof {
                assert forall|a: int, b: int| 0 <= a < b < carve@.len() implies change_index(
                    mw,
                    #[trigger] carve@[a],
                ) != change_index(mw, #[trigger] carve@[b]) by {
                    assert(carve@.len() == 2);
                    if change_index(mw, carve@[0]) == change_index(mw, carve@[1]) {
                        crate::maze::lemma_index_injective(mw, carve@[0].row, carve@[0].col, carve@[1].row, carve@[1].col);
                    }
                }
            }
            let ghost cs = carve@;
            proof {
                assert(gap_step_ok(carve@, sp));
            }
            if carve.len() > 0 {
                proof {
                    lemma_progress_finish_step(start, mw, mh, steps@, carve, maze);
                }
                steps.push(carve);
            } else {
                proof {
                    assert(carve@ =~= Seq::<MazeChange>::empty());
                }
            }

            proof {
                assert forall|a: Pos, b: Pos| inside(a, mw, mh) && inside(b, mw, mh) implies (
                #[trigger] passage(maze.spec_cells(), mw, a, b) <==> (passage(cb, mw, a, b)
                    && !crosses(a, b, horizontal, wx, wy, length as int)) || gap(a, b, horizontal, px, py)) by {
                    assert(passage(m2.spec_cells(), mw, a, b) <==> passage(cb, mw, a, b) && !crosses(
                        a,
                        b,
                        horizontal,
                        wx,
                        wy,
                        length as int,
                    ));
                }
                assert(split_passages(cb, maze.spec_cells(), mw, mh, d, horizontal, wx, wy, px, py));
                lemma_division_split(cb, maze.spec_cells(), mw, mh, d, horizontal, wx, wy, px, py);
                assert forall|k: int| 0 <= k < stack@.len() implies division_open(
                    maze.spec_cells(),
                    mw,
                    #[trigger] stack@[k],
                ) by {
                    lemma_division_kept(cb, maze.spec_cells(), mw, mh, d, horizontal, wx, wy, px, py, stack@[k]);
                }
            }

            // Subdivide the remaining areas
            let (nx1, ny1, w1, h1, nx2, ny2, w2, h2) = if horizontal {
                // top region, then bottom region
                (x, y, width, wy - y, x, wy, width, y + height - wy)
            } else {
                // left region, then right region
                (x, y, wx - x, height, wx, y, x + width - wx, height)
            };

            proof {
                assert(w1 as int * h1 as int + w2 as int * h2 as int == width as int * height as int)
                    by (nonlinear_arith)
                    requires
                        horizontal ==> w1 == width && w2 == width && h1 + h2 == height,
                        !horizontal ==> h1 == height && h2 == height && w1 + w2 == width,
                ;
                assert(w1 as int * h1 as int >= 1 && w2 as int * h2 as int >= 1) by (nonlinear_arith)
                    requires
                        w1 >= 1,
                        h1 >= 1,
                        w2 >= 1,
                        h2 >= 1,
                ;
            }
            let ghost e1 = (w1 as int - 1) * (h1 as int - 1);
            let ghost e2 = (w2 as int - 1) * (h2 as int - 1);
            proof {
                assert(excess(d) - (length as int - 1) == e1 + e2) by (nonlinear_arith)
                    requires
                        excess(d) == (width as int - 1) * (height as int - 1),
                        e1 == (w1 as int - 1) * (h1 as int - 1),
                        e2 == (w2 as int - 1) * (h2 as int - 1),
                        horizontal ==> w1 == width && w2 == width && h1 + h2 == height && length
                            == width,
                        !horizontal ==> h1 == height && h2 == height && w1 + w2 == width && length
                            == height,
                ;
                assert(w1 >= 1 && h1 >= 1 && w2 >= 1 && h2 >= 1);
                if !(w1 >= 2 && h1 >= 2) {
                    assert(e1 == 0) by (nonlinear_arith)
                        requires
                            w1 == 1 || h1 == 1,
                            e1 == (w1 as int - 1) * (h1 as int - 1),
                    ;
                }
                if !(w2 >= 2 && h2 >= 2) {
                    assert(e2 == 0) by (nonlinear_arith)
                        requires
                            w2 == 1 || h2 == 1,
                            e2 == (w2 as int - 1) * (h2 as int - 1),
                    ;
                }
            }
            if w1 >= 2 && h1 >= 2 {
                let o = match self.choose_orientation(w1, h1, draws) {
                    Some(o) => o,
                    None => {
                        return None;
                    },
                };
                let ghost s1 = stack@;
                let part = Division { x: nx1, y: ny1, width: w1, height: h1, orientation: o };
                stack.push(part);
                proof {
                    lemma_excess_push(s1, part);
                    lemma_budget_push(s1, part);
                    assert(regions(stack@) =~= regions(s1).push((nx1, ny1, w1, h1, o == Orientation::Horizontal)));
                }
            }
            let ghost n1g = draws.spec_next() as int;
            let ghost s1g = stack@;
            if w2 >= 2 && h2 >= 2 {
                let o = match self.choose_orientation(w2, h2, draws) {
                    Some(o) => o,
                    None => {
                        return None;
                    },
                };
                let ghost s2 = stack@;
                let part = Division { x: nx2, y: ny2, width: w2, height: h2, orientation: o };
                stack.push(part);
                proof {
                    lemma_excess_push(s2, part);
                    lemma_budget_push(s2, part);
                    assert(regions(stack@) =~= regions(s2).push((nx2, ny2, w2, h2, o == Orientation::Horizontal)));
                }
            }
            proof {
                let words = draws.spec_words();
                let hz = orientation == Orientation::Horizontal;
                let (n2, s2) = after_split(words, n0 as int + 2, regions(rest), x, y, width, height, hz, wx, wy);
                assert(n2 == draws.spec_next() as int);
                assert(s2 == regions(stack@));
                lemma_run_split(words, n0 as int, regions(rest), x, y, width, height, hz);
                let old_done = done;
                done = done.push(sp);
                match division_run(words, n2, s2) {
                    Some(ss) => {
                        assert(old_done + (seq![sp] + ss) =~= done + ss);
                    },
                    None => {},
                }
                let sv = steps_view(steps@);
                assert(sv =~= steps_w.push(ws).push(cs));
                lemma_split_steps_keep_types(ws, cs, sp);
                assert forall|k: int, i: int| 0 <= k < sv.len() && 0 <= i < sv[k].len() implies (
                #[trigger] sv[k][i]).new@ & TYPE_MASK == sv[k][i].old@ & TYPE_MASK by {
                    if k < steps_w.len() {
                        assert(sv[k] == steps_w[k]);
                    }
                }
                assert forall|t: int| 0 <= t < done.len() implies wall_step_ok(
                    #[trigger] sv[sv.len() - 2 * done.len() + 2 * t],
                    done[t],
                ) && gap_step_ok(sv[sv.len() - 2 * done.len() + 2 * t + 1], done[t]) by {
                    if t < old_done.len() {
                        assert(sv[sv.len() - 2 * done.len() + 2 * t] == steps_w[steps_w.len() - 2
                            * old_done.len() + 2 * t]);
                        assert(sv[sv.len() - 2 * done.len() + 2 * t + 1] == steps_w[steps_w.len() - 2
                            * old_done.len() + 2 * t + 1]);
                    }
                }
            }
        }
        proof {
            assert(excess_sum(stack@) == 0);
            reveal(division_run);
            assert(regions(stack@) =~= Seq::<(u32, u32, u32, u32, bool)>::empty());
            assert(done + Seq::<Split>::empty() =~= done);
            assert(stack_init =~= seq![(0u32, 0u32, mw, mh, split_horizontal(mw, mh, old(draws).spec_words(), old(draws).spec_next() as int))]);
        }

        Some(steps)
    }
}

} // verus!
