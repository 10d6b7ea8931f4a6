//! Passages and paths: which neighbouring cells are open to each other, and
//! which cells can be reached from which.
use vstd::prelude::*;

use crate::cell::{Cell, WALL_E, WALL_N, WALL_S, WALL_W};
use crate::generators::walls::{facing, wall, walled, walls_agree_except};
use crate::maze::{cell_index, lemma_index_in_bounds, lemma_index_injective};
use vstd::set_lib::{lemma_int_range, lemma_len_subset, set_int_range};

verus! {

/// A grid position (row, column).
pub type Pos = (u32, u32);

/// The position lies inside a `width` x `height` grid.
pub open spec fn inside(p: Pos, width: u32, height: u32) -> bool {
    p.0 < height && p.1 < width
}

/// Position of `p` in the row-major cell list.
pub open spec fn pos_index(width: u32, p: Pos) -> int {
    cell_index(width, p.0, p.1)
}

/// `a` and `b` are neighbours and neither has a wall on the side facing the other.
pub open spec fn passage(cells: Seq<Cell>, width: u32, a: Pos, b: Pos) -> bool {
    match facing(a.0, a.1, b.0, b.1) {
        Some((wa, wb)) => !wall(cells[pos_index(width, a)], wa) && !wall(
            cells[pos_index(width, b)],
            wb,
        ),
        None => false,
    }
}

/// Step `k` of `p` goes through a passage.
pub open spec fn path_step_ok(cells: Seq<Cell>, width: u32, p: Seq<Pos>, k: int) -> bool {
    passage(cells, width, p[k], p[k + 1])
}

/// A non-empty walk through the grid that only goes through passages.
pub open spec fn is_path(cells: Seq<Cell>, width: u32, height: u32, p: Seq<Pos>) -> bool {
    &&& p.len() > 0
    &&& forall|k: int| 0 <= k < p.len() ==> inside(#[trigger] p[k], width, height)
    &&& forall|k: int| 0 <= k < p.len() - 1 ==> #[trigger] path_step_ok(cells, width, p, k)
}

/// `b` can be reached from `a` through passages.
pub open spec fn connected(cells: Seq<Cell>, width: u32, height: u32, a: Pos, b: Pos) -> bool {
    exists|p: Seq<Pos>| #[trigger] is_path(cells, width, height, p) && p[0] == a && p.last() == b
}

/// Every cell can be reached from every cell.
pub open spec fn maze_connected(cells: Seq<Cell>, width: u32, height: u32) -> bool {
    forall|a: Pos, b: Pos|
        inside(a, width, height) && inside(b, width, height) ==> #[trigger] connected(
            cells,
            width,
            height,
            a,
            b,
        )
}

/// A perfect maze: every cell reaches every other, and the open inner
/// boundaries are one fewer than the cells, so no path runs in a cycle.
pub open spec fn perfect_maze(cells: Seq<Cell>, width: u32, height: u32) -> bool {
    &&& maze_connected(cells, width, height)
    &&& width as int * height as int > 0 ==> open_sides(cells, width, height).len() + 1
        == width as int * height as int
}

/// Passages go both ways.
pub proof fn lemma_passage_symmetric(cells: Seq<Cell>, width: u32, a: Pos, b: Pos)
    requires
        passage(cells, width, a, b),
    ensures
        passage(cells, width, b, a),
{
}

/// Every inside cell reaches itself.
pub proof fn lemma_connected_refl(cells: Seq<Cell>, width: u32, height: u32, a: Pos)
    requires
        inside(a, width, height),
    ensures
        connected(cells, width, height, a, a),
{
    let p = seq![a];
    assert(is_path(cells, width, height, p));
}

/// Two inside cells joined by a passage reach each other.
pub proof fn lemma_connected_passage(cells: Seq<Cell>, width: u32, height: u32, a: Pos, b: Pos)
    requires
        inside(a, width, height),
        inside(b, width, height),
        passage(cells, width, a, b),
    ensures
        connected(cells, width, height, a, b),
{
    let p = seq![a, b];
    assert(path_step_ok(cells, width, p, 0));
    assert(is_path(cells, width, height, p));
}

/// Reaching is transitive.
pub proof fn lemma_connected_trans(cells: Seq<Cell>, width: u32, height: u32, a: Pos, b: Pos, c: Pos)
    requires
        connected(cells, width, height, a, b),
        connected(cells, width, height, b, c),
    ensures
        connected(cells, width, height, a, c),
{
    let p = choose|p: Seq<Pos>| #[trigger] is_path(cells, width, height, p) && p[0] == a && p.last() == b;
    let q = choose|q: Seq<Pos>| #[trigger] is_path(cells, width, height, q) && q[0] == b && q.last() == c;
    let r = p + q.drop_first();
    assert forall|k: int| 0 <= k < r.len() implies inside(#[trigger] r[k], width, height) by {
        if k < p.len() {
            assert(r[k] == p[k]);
        } else {
            assert(r[k] == q[k - p.len() + 1]);
        }
    }
    assert forall|k: int| 0 <= k < r.len() - 1 implies #[trigger] path_step_ok(
        cells,
        width,
        r,
        k,
    ) by {
        if k < p.len() - 1 {
            assert(path_step_ok(cells, width, p, k));
            assert(r[k] == p[k]);
            assert(r[k + 1] == p[k + 1]);
        } else if k == p.len() - 1 {
            assert(r[k] == p[k]);
            assert(r[k + 1] == q[1]);
            assert(path_step_ok(cells, width, q, 0));
        } else {
            let j = k - p.len() + 1;
            assert(path_step_ok(cells, width, q, j));
            assert(r[k] == q[j]);
            assert(r[k + 1] == q[j + 1]);
        }
    }
    assert(is_path(cells, width, height, r));
    if q.len() == 1 {
        assert(r.last() == p.last());
    } else {
        assert(r.last() == q.last());
    }
}

/// A path stays a path when no passage closes.
pub proof fn lemma_connected_monotone(
    cells: Seq<Cell>,
    new: Seq<Cell>,
    width: u32,
    height: u32,
    a: Pos,
    b: Pos,
)
    requires
        connected(cells, width, height, a, b),
        forall|x: Pos, y: Pos|
            inside(x, width, height) && inside(y, width, height) && #[trigger] passage(
                cells,
                width,
                x,
                y,
            ) ==> #[trigger] passage(new, width, x, y),
    ensures
        connected(new, width, height, a, b),
{
    let p = choose|p: Seq<Pos>| #[trigger] is_path(cells, width, height, p) && p[0] == a && p.last() == b;
    assert forall|k: int| 0 <= k < p.len() - 1 implies #[trigger] path_step_ok(new, width, p, k) by {
        assert(path_step_ok(cells, width, p, k));
        assert(inside(p[k], width, height));
        assert(inside(p[k + 1], width, height));
    }
    assert(is_path(new, width, height, p));
}

/// Opening the wall between neighbours `x` and `y` (clearing the facing wall
/// on both sides and changing no other wall) opens exactly that passage and
/// closes none.
pub proof fn lemma_open_one_passage(
    cells: Seq<Cell>,
    width: u32,
    height: u32,
    x: Pos,
    y: Pos,
    nx: Cell,
    ny: Cell,
)
    requires
        cells.len() == width as int * height as int,
        inside(x, width, height),
        inside(y, width, height),
        facing(x.0, x.1, y.0, y.1) is Some,
        walls_agree_except(nx, cells[pos_index(width, x)], facing(x.0, x.1, y.0, y.1).unwrap().0),
        walls_agree_except(ny, cells[pos_index(width, y)], facing(x.0, x.1, y.0, y.1).unwrap().1),
        !wall(nx, facing(x.0, x.1, y.0, y.1).unwrap().0),
        !wall(ny, facing(x.0, x.1, y.0, y.1).unwrap().1),
    ensures
        ({
            let new = cells.update(pos_index(width, x), nx).update(pos_index(width, y), ny);
            &&& passage(new, width, x, y)
            &&& forall|a: Pos, b: Pos|
                inside(a, width, height) && inside(b, width, height) ==> (#[trigger] passage(
                    new,
                    width,
                    a,
                    b,
                ) <==> passage(cells, width, a, b) || (a == x && b == y) || (a == y && b == x))
        }),
{
    let ix = pos_index(width, x);
    let iy = pos_index(width, y);
    let new = cells.update(ix, nx).update(iy, ny);
    lemma_index_in_bounds(width, height, x.0, x.1);
    lemma_index_in_bounds(width, height, y.0, y.1);
    if ix == iy {
        lemma_index_injective(width, x.0, x.1, y.0, y.1);
    }
    assert forall|a: Pos, b: Pos| inside(a, width, height) && inside(b, width, height) implies (
    #[trigger] passage(new, width, a, b) <==> passage(cells, width, a, b) || (a == x && b == y) || (
    a == y && b == x)) by {
        lemma_index_in_bounds(width, height, a.0, a.1);
        lemma_index_in_bounds(width, height, b.0, b.1);
        let ia = pos_index(width, a);
        let ib = pos_index(width, b);
        if ia == ix {
            lemma_index_injective(width, a.0, a.1, x.0, x.1);
        }
        if ia == iy {
            lemma_index_injective(width, a.0, a.1, y.0, y.1);
        }
        if ib == ix {
            lemma_index_injective(width, b.0, b.1, x.0, x.1);
        }
        if ib == iy {
            lemma_index_injective(width, b.0, b.1, y.0, y.1);
        }
    }
}

/// Reaching goes both ways.
pub proof fn lemma_connected_sym(cells: Seq<Cell>, width: u32, height: u32, a: Pos, b: Pos)
    requires
        connected(cells, width, height, a, b),
    ensures
        connected(cells, width, height, b, a),
{
    let p = choose|p: Seq<Pos>| #[trigger] is_path(cells, width, height, p) && p[0] == a && p.last() == b;
    let q = p.reverse();
    assert forall|k: int| 0 <= k < q.len() implies inside(#[trigger] q[k], width, height) by {
        assert(q[k] == p[p.len() - 1 - k]);
    }
    assert forall|k: int| 0 <= k < q.len() - 1 implies #[trigger] path_step_ok(
        cells,
        width,
        q,
        k,
    ) by {
        let j = p.len() - 2 - k;
        assert(path_step_ok(cells, width, p, j));
        assert(q[k] == p[j + 1]);
        assert(q[k + 1] == p[j]);
        lemma_passage_symmetric(cells, width, p[j], p[j + 1]);
    }
    assert(is_path(cells, width, height, q));
    assert(q[0] == p.last());
    assert(q.last() == p[0]);
}

/// Changing cells without touching their walls changes no passage.
pub proof fn lemma_passages_same_walls(
    cells: Seq<Cell>,
    new: Seq<Cell>,
    width: u32,
    height: u32,
)
    requires
        cells.len() == width as int * height as int,
        new.len() == cells.len(),
        forall|i: int|
            0 <= i < cells.len() ==> crate::generators::walls::same_walls(#[trigger] new[i], cells[i]),
    ensures
        forall|a: Pos, b: Pos|
            inside(a, width, height) && inside(b, width, height) ==> (#[trigger] passage(
                new,
                width,
                a,
                b,
            ) <==> passage(cells, width, a, b)),
{
    assert forall|a: Pos, b: Pos| inside(a, width, height) && inside(b, width, height) implies (
    #[trigger] passage(new, width, a, b) <==> passage(cells, width, a, b)) by {
        lemma_index_in_bounds(width, height, a.0, a.1);
        lemma_index_in_bounds(width, height, b.0, b.1);
        assert(crate::generators::walls::same_walls(
            new[pos_index(width, a)],
            cells[pos_index(width, a)],
        ));
        assert(crate::generators::walls::same_walls(
            new[pos_index(width, b)],
            cells[pos_index(width, b)],
        ));
    }
}


/// Closing the wall between neighbours `x` and `y` (setting the facing wall
/// on both sides and changing no other wall) closes exactly that passage and
/// opens none.
pub proof fn lemma_close_one_passage(
    cells: Seq<Cell>,
    width: u32,
    height: u32,
    x: Pos,
    y: Pos,
    nx: Cell,
    ny: Cell,
)
    requires
        cells.len() == width as int * height as int,
        inside(x, width, height),
        inside(y, width, height),
        facing(x.0, x.1, y.0, y.1) is Some,
        walls_agree_except(nx, cells[pos_index(width, x)], facing(x.0, x.1, y.0, y.1).unwrap().0),
        walls_agree_except(ny, cells[pos_index(width, y)], facing(x.0, x.1, y.0, y.1).unwrap().1),
        wall(nx, facing(x.0, x.1, y.0, y.1).unwrap().0),
        wall(ny, facing(x.0, x.1, y.0, y.1).unwrap().1),
    ensures
        ({
            let new = cells.update(pos_index(width, x), nx).update(pos_index(width, y), ny);
            forall|a: Pos, b: Pos|
                inside(a, width, height) && inside(b, width, height) ==> (#[trigger] passage(
                    new,
                    width,
                    a,
                    b,
                ) <==> passage(cells, width, a, b) && !((a == x && b == y) || (a == y && b == x)))
        }),
{
    let ix = pos_index(width, x);
    let iy = pos_index(width, y);
    let new = cells.update(ix, nx).update(iy, ny);
    lemma_index_in_bounds(width, height, x.0, x.1);
    lemma_index_in_bounds(width, height, y.0, y.1);
    if ix == iy {
        lemma_index_injective(width, x.0, x.1, y.0, y.1);
    }
    assert forall|a: Pos, b: Pos| inside(a, width, height) && inside(b, width, height) implies (
    #[trigger] passage(new, width, a, b) <==> passage(cells, width, a, b) && !((a == x && b == y)
        || (a == y && b == x))) by {
        lemma_index_in_bounds(width, height, a.0, a.1);
        lemma_index_in_bounds(width, height, b.0, b.1);
        let ia = pos_index(width, a);
        let ib = pos_index(width, b);
        if ia == ix {
            lemma_index_injective(width, a.0, a.1, x.0, x.1);
        }
        if ia == iy {
            lemma_index_injective(width, a.0, a.1, y.0, y.1);
        }
        if ib == ix {
            lemma_index_injective(width, b.0, b.1, x.0, x.1);
        }
        if ib == iy {
            lemma_index_injective(width, b.0, b.1, y.0, y.1);
        }
    }
}

/// Reaching survives a change of walls as long as the two sides of every
/// old passage still reach each other.
pub proof fn lemma_connected_reroute(
    cells: Seq<Cell>,
    new: Seq<Cell>,
    width: u32,
    height: u32,
    a: Pos,
    b: Pos,
)
    requires
        connected(cells, width, height, a, b),
        forall|x: Pos, y: Pos|
            inside(x, width, height) && inside(y, width, height) && #[trigger] passage(
                cells,
                width,
                x,
                y,
            ) ==> connected(new, width, height, x, y),
    ensures
        connected(new, width, height, a, b),
{
    let p = choose|p: Seq<Pos>| #[trigger] is_path(cells, width, height, p) && p[0] == a && p.last() == b;
    lemma_reroute_prefix(cells, new, width, height, p, p.len() - 1);
}

/// Along a path of `cells`, the start reaches every point of it in `new`.
proof fn lemma_reroute_prefix(
    cells: Seq<Cell>,
    new: Seq<Cell>,
    width: u32,
    height: u32,
    p: Seq<Pos>,
    k: int,
)
    requires
        is_path(cells, width, height, p),
        0 <= k < p.len(),
        forall|x: Pos, y: Pos|
            inside(x, width, height) && inside(y, width, height) && #[trigger] passage(
                cells,
                width,
                x,
                y,
            ) ==> connected(new, width, height, x, y),
    ensures
        connected(new, width, height, p[0], p[k]),
    decreases k,
{
    if k == 0 {
        assert(inside(p[0], width, height));
        lemma_connected_refl(new, width, height, p[0]);
    } else {
        lemma_reroute_prefix(cells, new, width, height, p, k - 1);
        assert(path_step_ok(cells, width, p, k - 1));
        assert(inside(p[k - 1], width, height));
        assert(inside(p[k], width, height));
        lemma_connected_trans(new, width, height, p[0], p[k - 1], p[k]);
    }
}


/// A number for the boundary between neighbours `a` and `b`, the same from
/// either side: twice the index of the cell west of (or above) the boundary,
/// plus one for a boundary between rows.
pub open spec fn side_code(width: u32, a: Pos, b: Pos) -> int {
    if b.0 == a.0 && b.1 == a.1 + 1 {
        2 * pos_index(width, a)
    } else if a.0 == b.0 && a.1 == b.1 + 1 {
        2 * pos_index(width, b)
    } else if b.0 == a.0 + 1 {
        2 * pos_index(width, a) + 1
    } else {
        2 * pos_index(width, b) + 1
    }
}

/// The open inner boundaries of the grid, each counted once.
pub open spec fn open_sides(cells: Seq<Cell>, width: u32, height: u32) -> Set<int> {
    Set::new(
        |k: int|
            exists|a: Pos, b: Pos|
                #![trigger passage(cells, width, a, b), side_code(width, a, b)]
                inside(a, width, height) && inside(b, width, height) && passage(cells, width, a, b)
                    && side_code(width, a, b) == k,
    )
}

/// Two boundaries with the same number are the same boundary.
pub proof fn lemma_side_code_injective(width: u32, height: u32, a: Pos, b: Pos, c: Pos, d: Pos)
    requires
        inside(a, width, height),
        inside(b, width, height),
        inside(c, width, height),
        inside(d, width, height),
        facing(a.0, a.1, b.0, b.1) is Some,
        facing(c.0, c.1, d.0, d.1) is Some,
        side_code(width, a, b) == side_code(width, c, d),
    ensures
        (a == c && b == d) || (a == d && b == c),
{
    let ab: Pos = if (b.0 == a.0 && b.1 == a.1 + 1) || b.0 == a.0 + 1 {
        a
    } else {
        b
    };
    let cd: Pos = if (d.0 == c.0 && d.1 == c.1 + 1) || d.0 == c.0 + 1 {
        c
    } else {
        d
    };
    lemma_index_in_bounds(width, height, ab.0, ab.1);
    lemma_index_in_bounds(width, height, cd.0, cd.1);
    assert(pos_index(width, ab) == pos_index(width, cd));
    lemma_index_injective(width, ab.0, ab.1, cd.0, cd.1);
}

/// The open boundaries are finitely many.
pub proof fn lemma_open_sides_finite(cells: Seq<Cell>, width: u32, height: u32)
    ensures
        open_sides(cells, width, height).finite(),
{
    let n = width as int * height as int;
    assert forall|k: int| open_sides(cells, width, height).contains(k) implies set_int_range(
        0,
        2 * n,
    ).contains(k) by {
        let (a, b) = choose|a: Pos, b: Pos|
            #![trigger passage(cells, width, a, b), side_code(width, a, b)]
            inside(a, width, height) && inside(b, width, height) && passage(cells, width, a, b)
                && side_code(width, a, b) == k;
        lemma_index_in_bounds(width, height, a.0, a.1);
        lemma_index_in_bounds(width, height, b.0, b.1);
    }
    lemma_int_range(0, 2 * n);
    lemma_len_subset(open_sides(cells, width, height), set_int_range(0, 2 * n));
}

/// Cells with the same passages have the same open boundaries.
pub proof fn lemma_open_sides_same(cells: Seq<Cell>, new: Seq<Cell>, width: u32, height: u32)
    requires
        forall|a: Pos, b: Pos|
            inside(a, width, height) && inside(b, width, height) ==> (#[trigger] passage(
                new,
                width,
                a,
                b,
            ) <==> passage(cells, width, a, b)),
    ensures
        open_sides(new, width, height) == open_sides(cells, width, height),
{
    assert forall|k: int| open_sides(new, width, height).contains(k) implies open_sides(
        cells,
        width,
        height,
    ).contains(k) by {
        let (a, b) = choose|a: Pos, b: Pos|
            #![trigger passage(new, width, a, b), side_code(width, a, b)]
            inside(a, width, height) && inside(b, width, height) && passage(new, width, a, b)
                && side_code(width, a, b) == k;
        assert(passage(cells, width, a, b));
    }
    assert forall|k: int| open_sides(cells, width, height).contains(k) implies open_sides(
        new,
        width,
        height,
    ).contains(k) by {
        let (a, b) = choose|a: Pos, b: Pos|
            #![trigger passage(cells, width, a, b), side_code(width, a, b)]
            inside(a, width, height) && inside(b, width, height) && passage(cells, width, a, b)
                && side_code(width, a, b) == k;
        assert(passage(new, width, a, b));
    }
    assert(open_sides(new, width, height) =~= open_sides(cells, width, height));
}

/// Opening one boundary that was closed adds exactly one open boundary.
pub proof fn lemma_open_sides_add(
    cells: Seq<Cell>,
    new: Seq<Cell>,
    width: u32,
    height: u32,
    x: Pos,
    y: Pos,
)
    requires
        inside(x, width, height),
        inside(y, width, height),
        facing(x.0, x.1, y.0, y.1) is Some,
        !passage(cells, width, x, y),
        forall|a: Pos, b: Pos|
            inside(a, width, height) && inside(b, width, height) ==> (#[trigger] passage(
                new,
                width,
                a,
                b,
            ) <==> passage(cells, width, a, b) || (a == x && b == y) || (a == y && b == x)),
    ensures
        open_sides(new, width, height).finite(),
        open_sides(new, width, height).len() == open_sides(cells, width, height).len() + 1,
{
    let k0 = side_code(width, x, y);
    let old_sides = open_sides(cells, width, height);
    assert(passage(new, width, x, y));
    assert forall|k: int| open_sides(new, width, height).contains(k) implies old_sides.insert(k0).contains(
        k,
    ) by {
        let (a, b) = choose|a: Pos, b: Pos|
            #![trigger passage(new, width, a, b), side_code(width, a, b)]
            inside(a, width, height) && inside(b, width, height) && passage(new, width, a, b)
                && side_code(width, a, b) == k;
        if passage(cells, width, a, b) {
        } else if a == y && b == x {
            assert(side_code(width, y, x) == k0);
        }
    }
    assert forall|k: int| old_sides.insert(k0).contains(k) implies open_sides(
        new,
        width,
        height,
    ).contains(k) by {
        if k == k0 {
        } else {
            let (a, b) = choose|a: Pos, b: Pos|
                #![trigger passage(cells, width, a, b), side_code(width, a, b)]
                inside(a, width, height) && inside(b, width, height) && passage(cells, width, a, b)
                    && side_code(width, a, b) == k;
            assert(passage(new, width, a, b));
        }
    }
    assert(open_sides(new, width, height) =~= old_sides.insert(k0));
    if old_sides.contains(k0) {
        let (a, b) = choose|a: Pos, b: Pos|
            #![trigger passage(cells, width, a, b), side_code(width, a, b)]
            inside(a, width, height) && inside(b, width, height) && passage(cells, width, a, b)
                && side_code(width, a, b) == k0;
        lemma_side_code_injective(width, height, a, b, x, y);
        if a == y {
            lemma_passage_symmetric(cells, width, a, b);
        }
    }
    lemma_open_sides_finite(cells, width, height);
}


/// Every index of the cell list belongs to a position inside the grid.
pub proof fn lemma_index_onto(width: u32, height: u32, i: int) -> (p: Pos)
    requires
        0 <= i < width as int * height as int,
    ensures
        inside(p, width, height),
        pos_index(width, p) == i,
{
    let w = width as int;
    let h = height as int;
    assert(w > 0) by (nonlinear_arith)
        requires
            0 <= i < w * h,
            h >= 0,
            w >= 0,
    ;
    vstd::arithmetic::div_mod::lemma_fundamental_div_mod(i, w);
    vstd::arithmetic::div_mod::lemma_mod_pos_bound(i, w);
    vstd::arithmetic::div_mod::lemma_div_pos_is_pos(i, w);
    let r = i / w;
    let c = i % w;
    assert(r < h) by (nonlinear_arith)
        requires
            i == w * r + c,
            0 <= c < w,
            i < w * h,
            w > 0,
    ;
    let p: Pos = (r as u32, c as u32);
    assert(r * w == w * r) by (nonlinear_arith);
    assert(pos_index(width, p) == r * w + c);
    p
}


/// When every cell has all four walls, no boundary is open.
pub proof fn lemma_no_open_sides(cells: Seq<Cell>, width: u32, height: u32)
    requires
        cells.len() == width as int * height as int,
        forall|i: int| 0 <= i < cells.len() ==> walled(#[trigger] cells[i]),
    ensures
        open_sides(cells, width, height) == Set::<int>::empty(),
{
    assert forall|k: int| !open_sides(cells, width, height).contains(k) by {
        if open_sides(cells, width, height).contains(k) {
            let (a, b) = choose|a: Pos, b: Pos|
                #![trigger passage(cells, width, a, b), side_code(width, a, b)]
                inside(a, width, height) && inside(b, width, height) && passage(cells, width, a, b)
                    && side_code(width, a, b) == k;
            lemma_index_in_bounds(width, height, a.0, a.1);
            assert(walled(cells[pos_index(width, a)]));
        }
    }
    assert(open_sides(cells, width, height) =~= Set::<int>::empty());
}


/// Closing one open boundary removes exactly one open boundary.
pub proof fn lemma_open_sides_remove(
    cells: Seq<Cell>,
    new: Seq<Cell>,
    width: u32,
    height: u32,
    x: Pos,
    y: Pos,
)
    requires
        inside(x, width, height),
        inside(y, width, height),
        passage(cells, width, x, y),
        forall|a: Pos, b: Pos|
            inside(a, width, height) && inside(b, width, height) ==> (#[trigger] passage(
                new,
                width,
                a,
                b,
            ) <==> passage(cells, width, a, b) && !((a == x && b == y) || (a == y && b == x))),
    ensures
        open_sides(new, width, height).finite(),
        open_sides(new, width, height).len() + 1 == open_sides(cells, width, height).len(),
{
    let k0 = side_code(width, x, y);
    let old_sides = open_sides(cells, width, height);
    assert forall|k: int| open_sides(new, width, height).contains(k) implies old_sides.remove(k0).contains(
        k,
    ) by {
        let (a, b) = choose|a: Pos, b: Pos|
            #![trigger passage(new, width, a, b), side_code(width, a, b)]
            inside(a, width, height) && inside(b, width, height) && passage(new, width, a, b)
                && side_code(width, a, b) == k;
        assert(passage(cells, width, a, b));
        if k == k0 {
            lemma_side_code_injective(width, height, a, b, x, y);
        }
    }
    assert forall|k: int| old_sides.remove(k0).contains(k) implies open_sides(
        new,
        width,
        height,
    ).contains(k) by {
        let (a, b) = choose|a: Pos, b: Pos|
            #![trigger passage(cells, width, a, b), side_code(width, a, b)]
            inside(a, width, height) && inside(b, width, height) && passage(cells, width, a, b)
                && side_code(width, a, b) == k;
        if (a == x && b == y) || (a == y && b == x) {
            assert(side_code(width, y, x) == k0);
        }
        assert(passage(new, width, a, b));
    }
    assert(open_sides(new, width, height) =~= old_sides.remove(k0));
    assert(old_sides.contains(k0));
    lemma_open_sides_finite(cells, width, height);
}

/// The number `2 * (r * width + c) + par`.
pub open spec fn code_at(width: int, r: int, c: int, par: int) -> int {
    2 * (r * width + c) + par
}

/// The numbers `code_at(width, r, c, par)` for `0 <= c < len`.
pub open spec fn row_codes(width: int, r: int, len: int, par: int) -> Set<int> {
    Set::new(|k: int| exists|c: int| 0 <= c < len && k == #[trigger] code_at(width, r, c, par))
}

/// The numbers `code_at(width, q, c, par)` for `0 <= q < rows`, `0 <= c < len`.
pub open spec fn rows_codes(width: int, rows: int, len: int, par: int) -> Set<int> {
    Set::new(
        |k: int|
            exists|q: int, c: int|
                0 <= q < rows && 0 <= c < len && k == #[trigger] code_at(width, q, c, par),
    )
}

proof fn lemma_row_codes_len(width: int, r: int, len: int, par: int)
    requires
        len >= 0,
    ensures
        row_codes(width, r, len, par).finite(),
        row_codes(width, r, len, par).len() == len,
    decreases len,
{
    if len == 0 {
        assert(row_codes(width, r, len, par) =~= Set::<int>::empty());
    } else {
        lemma_row_codes_len(width, r, len - 1, par);
        let e = code_at(width, r, len - 1, par);
        assert(row_codes(width, r, len, par) =~= row_codes(width, r, len - 1, par).insert(e)) by {
            assert forall|k: int| row_codes(width, r, len, par).contains(k) implies row_codes(
                width,
                r,
                len - 1,
                par,
            ).insert(e).contains(k) by {
                let c = choose|c: int| 0 <= c < len && k == code_at(width, r, c, par);
                if c < len - 1 {
                    assert(row_codes(width, r, len - 1, par).contains(k));
                }
            }
            assert forall|k: int| row_codes(width, r, len - 1, par).insert(e).contains(k) implies row_codes(
                width,
                r,
                len,
                par,
            ).contains(k) by {
                if k != e {
                    let c = choose|c: int| 0 <= c < len - 1 && k == code_at(width, r, c, par);
                }
            }
        }
        assert(!row_codes(width, r, len - 1, par).contains(e));
    }
}

proof fn lemma_rows_codes_len(width: int, rows: int, len: int, par: int)
    requires
        rows >= 0,
        0 <= len <= width,
        0 <= par <= 1,
    ensures
        rows_codes(width, rows, len, par).finite(),
        rows_codes(width, rows, len, par).len() == rows * len,
    decreases rows,
{
    if rows == 0 {
        assert(rows_codes(width, rows, len, par) =~= Set::<int>::empty());
    } else {
        let q0 = rows - 1;
        lemma_rows_codes_len(width, q0, len, par);
        lemma_row_codes_len(width, q0, len, par);
        let a = rows_codes(width, q0, len, par);
        let b = row_codes(width, q0, len, par);
        assert(rows_codes(width, rows, len, par) =~= a + b) by {
            assert forall|k: int| rows_codes(width, rows, len, par).contains(k) implies (a + b).contains(
                k,
            ) by {
                let (q, c) = choose|q: int, c: int|
                    0 <= q < rows && 0 <= c < len && k == code_at(width, q, c, par);
                if q < q0 {
                    assert(a.contains(k));
                } else {
                    assert(b.contains(k));
                }
            }
            assert forall|k: int| (a + b).contains(k) implies rows_codes(
                width,
                rows,
                len,
                par,
            ).contains(k) by {
                if a.contains(k) {
                    let (q, c) = choose|q: int, c: int|
                        0 <= q < q0 && 0 <= c < len && k == code_at(width, q, c, par);
                } else {
                    let c = choose|c: int| 0 <= c < len && k == code_at(width, q0, c, par);
                }
            }
        }
        assert(a.disjoint(b)) by {
            assert forall|k: int| a.contains(k) implies !b.contains(k) by {
                let (q, c) = choose|q: int, c: int|
                    0 <= q < q0 && 0 <= c < len && k == code_at(width, q, c, par);
                if b.contains(k) {
                    let c2 = choose|c2: int| 0 <= c2 < len && k == code_at(width, q0, c2, par);
                    assert(q * width + width <= q0 * width) by (nonlinear_arith)
                        requires
                            q < q0,
                            width >= 0,
                    ;
                }
            }
        }
        vstd::set_lib::lemma_set_disjoint_lens(a, b);
        assert(q0 * len + len == rows * len) by (nonlinear_arith)
            requires
                q0 == rows - 1,
        ;
    }
}

/// With no wall anywhere, every inner boundary of the grid is open: there
/// are `(width - 1) * height + width * (height - 1)` of them.
pub proof fn lemma_all_open_count(cells: Seq<Cell>, width: u32, height: u32)
    requires
        width >= 1,
        height >= 1,
        cells.len() == width as int * height as int,
        forall|i: int|
            0 <= i < cells.len() ==> !wall(#[trigger] cells[i], WALL_N) && !wall(cells[i], WALL_E)
                && !wall(cells[i], WALL_S) && !wall(cells[i], WALL_W),
    ensures
        open_sides(cells, width, height).finite(),
        open_sides(cells, width, height).len() == (width - 1) * height + width * (height - 1),
{
    let w = width as int;
    let h = height as int;
    let e = rows_codes(w, h, w - 1, 0);
    let s = rows_codes(w, h - 1, w, 1);
    let o = open_sides(cells, width, height);
    assert forall|k: int| o.contains(k) implies (e + s).contains(k) by {
        let (a, b) = choose|a: Pos, b: Pos|
            #![trigger passage(cells, width, a, b), side_code(width, a, b)]
            inside(a, width, height) && inside(b, width, height) && passage(cells, width, a, b)
                && side_code(width, a, b) == k;
        if b.0 == a.0 && b.1 == a.1 + 1 {
            assert(e.contains(k)) by {
                assert(0 <= a.0 < h && 0 <= a.1 < w - 1 && k == code_at(w, a.0 as int, a.1 as int, 0));
            }
        } else if a.0 == b.0 && a.1 == b.1 + 1 {
            assert(e.contains(k)) by {
                assert(0 <= b.0 < h && 0 <= b.1 < w - 1 && k == code_at(w, b.0 as int, b.1 as int, 0));
            }
        } else if b.0 == a.0 + 1 {
            assert(s.contains(k)) by {
                assert(0 <= a.0 < h - 1 && 0 <= a.1 < w && k == code_at(w, a.0 as int, a.1 as int, 1));
            }
        } else {
            assert(s.contains(k)) by {
                assert(0 <= b.0 < h - 1 && 0 <= b.1 < w && k == code_at(w, b.0 as int, b.1 as int, 1));
            }
        }
    }
    assert forall|k: int| (e + s).contains(k) implies o.contains(k) by {
        if e.contains(k) {
            let (q, c) = choose|q: int, c: int|
                0 <= q < h && 0 <= c < w - 1 && k == code_at(w, q, c, 0);
            let a: Pos = (q as u32, c as u32);
            let b: Pos = (q as u32, (c + 1) as u32);
            lemma_index_in_bounds(width, height, a.0, a.1);
            lemma_index_in_bounds(width, height, b.0, b.1);
            assert(passage(cells, width, a, b));
            assert(side_code(width, a, b) == k);
        } else {
            let (q, c) = choose|q: int, c: int|
                0 <= q < h - 1 && 0 <= c < w && k == code_at(w, q, c, 1);
            let a: Pos = (q as u32, c as u32);
            let b: Pos = ((q + 1) as u32, c as u32);
            lemma_index_in_bounds(width, height, a.0, a.1);
            lemma_index_in_bounds(width, height, b.0, b.1);
            assert(passage(cells, width, a, b));
            assert(side_code(width, a, b) == k);
        }
    }
    assert(o =~= e + s);
    lemma_rows_codes_len(w, h, w - 1, 0);
    lemma_rows_codes_len(w, h - 1, w, 1);
    assert(e.disjoint(s)) by {
        assert forall|k: int| e.contains(k) implies !s.contains(k) by {
            let (q, c) = choose|q: int, c: int|
                0 <= q < h && 0 <= c < w - 1 && k == code_at(w, q, c, 0);
            if s.contains(k) {
                let (q2, c2) = choose|q2: int, c2: int|
                    0 <= q2 < h - 1 && 0 <= c2 < w && k == code_at(w, q2, c2, 1);
            }
        }
    }
    vstd::set_lib::lemma_set_disjoint_lens(e, s);
}

} // verus!
