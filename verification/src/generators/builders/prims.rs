//! Prim's algorithm: grow the maze from a random cell, repeatedly opening a
//! random wall between the grown part and a cell outside it.
use vstd::prelude::*;

use vstd::set_lib::{lemma_int_range, lemma_len_subset, set_int_range};

use crate::cell::{cell_of, type_of, with_type, Cell, CellType, TYPE_MASK};
use crate::generators::generator::{
    lemma_frame_mark, lemma_frame_wall, lemma_frame_walling, lemma_mark_cells,
    lemma_progress_finish_step, lemma_progress_mark, lemma_progress_wall, lemma_progress_walling,
    lemma_wall_effect_types, progress, types_kept, walls_every_cell, MazeGenerator,
};
use crate::generators::paths::{
    connected, inside, lemma_connected_monotone, lemma_connected_passage, lemma_connected_refl,
    lemma_connected_sym, lemma_connected_trans, lemma_index_onto, lemma_no_open_sides,
    lemma_open_one_passage, lemma_open_sides_add, lemma_passage_symmetric,
    lemma_passages_same_walls, open_sides, passage, perfect_maze, pos_index, Pos,
};
use crate::generators::trace::{flatten, replay_new, steps_view};
use crate::generators::walls::{facing, frame_closed, lemma_full_and_empty_walls, same_walls, walled};
use crate::maze::{cell_index, lemma_index_in_bounds, Maze, MazeChange};
use crate::utils::{choose_random_cell, is_neighbor, random_cell, scale, Draws};

verus! {

/// Builds a maze with (randomised) Prim's algorithm.
pub struct Prims;

impl Prims {
    pub fn new() -> Prims {
        Prims
    }
}

/// A wall-list entry: a cell inside the grid and one of the four directions.
pub open spec fn frontier_ok(e: (u32, u32, i32, i32), width: u32, height: u32) -> bool {
    &&& e.0 < height
    &&& e.1 < width
    &&& ((e.2 == 0 && (e.3 == 1 || e.3 == -1)) || (e.3 == 0 && (e.2 == 1 || e.2 == -1)))
}

/// Every cell but the one at index `i0` has type `Default`.
pub open spec fn default_except(cells: Seq<Cell>, i0: int) -> bool {
    forall|i: int| 0 <= i < cells.len() && i != i0 ==> type_of(#[trigger] cells[i]@) == CellType::Default
}

/// The cells whose type is not `Default`: those of the grown maze.
pub open spec fn reached(cells: Seq<Cell>) -> Set<int> {
    Set::new(|i: int| 0 <= i < cells.len() && type_of(cells[i]@) != CellType::Default)
}

/// One carving step, whatever the maze started as: of the cell `ix` and its
/// neighbour `iu`, the one that was `Default` (`iv`) becomes `Visited`, the
/// other stays out of `Default`, and no other type changes. The grown maze
/// gains exactly that one cell.
proof fn lemma_carve_count(
    c0: Seq<Cell>,
    c1: Seq<Cell>,
    c2: Seq<Cell>,
    c3: Seq<Cell>,
    c4: Seq<Cell>,
    ix: int,
    iu: int,
    iv: int,
)
    requires
        0 <= ix < c0.len(),
        0 <= iu < c0.len(),
        ix != iu,
        (type_of(c0[ix]@) == CellType::Default) != (type_of(c0[iu]@) == CellType::Default),
        iv == if type_of(c0[ix]@) == CellType::Default {
            ix
        } else {
            iu
        },
        c1 == c0.update(ix, c1[ix]),
        type_of(c1[ix]@) == CellType::Current,
        types_kept(c1, c2),
        c3 == c2.update(iv, c3[iv]),
        type_of(c3[iv]@) == CellType::Visited,
        c4 == c3.update(ix, c4[ix]),
        type_of(c4[ix]@) == CellType::Visited,
    ensures
        reached(c0).finite(),
        reached(c4).finite(),
        reached(c4).len() == reached(c0).len() + 1,
        reached(c4).len() <= c0.len(),
        reached(c4) == reached(c0).insert(iv),
{
    assert forall|i: int| 0 <= i < c0.len() implies type_of(#[trigger] c2[i]@) == type_of(c1[i]@) by {
        assert(c2[i]@ & TYPE_MASK == c1[i]@ & TYPE_MASK);
    }
    assert(reached(c4) =~= reached(c0).insert(iv)) by {
        assert forall|i: int| #[trigger] reached(c4).contains(i) <==> reached(c0).insert(iv).contains(i) by {
            if 0 <= i < c0.len() && i != ix && i != iv {
                assert(type_of(c4[i]@) == type_of(c2[i]@));
                assert(type_of(c2[i]@) == type_of(c1[i]@));
            }
            if 0 <= i < c0.len() && i == iu && iu != iv {
                assert(type_of(c4[i]@) == type_of(c2[i]@));
                assert(type_of(c2[i]@) == type_of(c1[i]@));
            }
        }
    }
    lemma_int_range(0, c0.len() as int);
    lemma_len_subset(reached(c0), set_int_range(0, c0.len() as int));
    lemma_len_subset(reached(c4), set_int_range(0, c0.len() as int));
}

/// The direction of the `a`-th wall listed for a cell that joins the maze:
/// north, south, west, east.
pub open spec fn join_dir(a: int) -> (i32, i32) {
    if a == 0 {
        (-1i32, 0i32)
    } else if a == 1 {
        (1i32, 0i32)
    } else if a == 2 {
        (0i32, -1i32)
    } else {
        (0i32, 1i32)
    }
}

/// The first `a` of the walls listed for cell `v` when it joins the maze:
/// those whose neighbour lies inside the grid.
pub open spec fn join_entries(v: Pos, width: u32, height: u32, a: int) -> Seq<(u32, u32, i32, i32)>
    decreases a,
{
    if a <= 0 {
        Seq::empty()
    } else {
        let (dr, dc) = join_dir(a - 1);
        join_entries(v, width, height, a - 1) + if 0 <= v.0 + dr < height && 0 <= v.1 + dc < width {
            seq![(v.0, v.1, dr, dc)]
        } else {
            Seq::empty()
        }
    }
}

/// The direction of the `d`-th wall listed for the first cell: east, south,
/// west, north.
pub open spec fn start_dir(d: int) -> (i32, i32) {
    if d == 0 {
        (0i32, 1i32)
    } else if d == 1 {
        (1i32, 0i32)
    } else if d == 2 {
        (0i32, -1i32)
    } else {
        (-1i32, 0i32)
    }
}

/// The first `d` of the walls listed for the first cell `v`: every direction
/// but one leading past the last row or column.
pub open spec fn start_entries(v: Pos, width: u32, height: u32, d: int) -> Seq<(u32, u32, i32, i32)>
    decreases d,
{
    if d <= 0 {
        Seq::empty()
    } else {
        let (dr, dc) = start_dir(d - 1);
        start_entries(v, width, height, d - 1) + if v.0 + dr < height && v.1 + dc < width {
            seq![(v.0, v.1, dr, dc)]
        } else {
            Seq::empty()
        }
    }
}

/// The walls Prim's algorithm opens, as (cell in the maze, cell joining it),
/// when it continues from the grown cells `tree` (by index) and the wall list
/// `list`, drawing from `words` at `next`: each round draws the index
/// `scale(words[next], list.len())`, takes that entry off the list (the last
/// entry moves into its place), and opens it when exactly one of its two
/// cells is grown, growing the other and listing its walls. `None` when the
/// words run out while the list is not empty.
pub open spec fn prims_run(
    width: u32,
    height: u32,
    words: Seq<u32>,
    next: int,
    tree: Set<int>,
    list: Seq<(u32, u32, i32, i32)>,
) -> Option<Seq<(Pos, Pos)>>
    decreases words.len() - next,
{
    if list.len() == 0 {
        Some(Seq::empty())
    } else if next < 0 || next >= words.len() {
        None
    } else {
        let j = scale(words[next], list.len() as u64) as int;
        let e = list[j];
        let rest = list.update(j, list.last()).drop_last();
        let nr = e.0 + e.2;
        let nc = e.1 + e.3;
        if nr < 0 || nc < 0 || nr >= height || nc >= width {
            prims_run(width, height, words, next + 1, tree, rest)
        } else {
            let x: Pos = (e.0, e.1);
            let u: Pos = (nr as u32, nc as u32);
            let in1 = tree.contains(pos_index(width, x));
            let in2 = tree.contains(pos_index(width, u));
            if in1 != in2 {
                let v = if !in1 {
                    x
                } else {
                    u
                };
                match prims_run(
                    width,
                    height,
                    words,
                    next + 1,
                    tree.insert(pos_index(width, v)),
                    rest + join_entries(v, width, height, 4),
                ) {
                    Some(cs) => Some(seq![(x, u)] + cs),
                    None => None,
                }
            } else {
                prims_run(width, height, words, next + 1, tree, rest)
            }
        }
    }
}

/// What a round of Prim's algorithm does with its draw: it examines the
/// wall-list entry at `floor(words[next] * len / 2^32)`. When that entry
/// leads from a grown cell to a cell inside the grid that is not grown (or
/// back), the first wall the run opens is exactly that entry's.
pub proof fn lemma_prims_round_law(
    width: u32,
    height: u32,
    words: Seq<u32>,
    next: int,
    tree: Set<int>,
    list: Seq<(u32, u32, i32, i32)>,
)
    requires
        1 <= list.len() <= u64::MAX,
        0 <= next < words.len(),
        ({
            let e = list[(words[next] as int * list.len()) / 0x1_0000_0000];
            let nr = e.0 + e.2;
            let nc = e.1 + e.3;
            &&& 0 <= nr < height
            &&& 0 <= nc < width
            &&& tree.contains(pos_index(width, (e.0, e.1))) != tree.contains(
                pos_index(width, (nr as u32, nc as u32)),
            )
        }),
    ensures
        ({
            let e = list[(words[next] as int * list.len()) / 0x1_0000_0000];
            prims_run(width, height, words, next, tree, list) matches Some(cs) ==> cs.len() >= 1
                && cs[0] == ((e.0, e.1), ((e.0 + e.2) as u32, (e.1 + e.3) as u32))
        }),
{
    crate::utils::lemma_scale_below(words[next], list.len() as u64);
    assert(scale(words[next], list.len() as u64) as int == (words[next] as int * list.len())
        / 0x1_0000_0000);
}

/// A round whose drawn entry opens nothing (it leads out of the grid, or both
/// or neither of its cells are grown) takes that entry off the list by
/// moving the last entry into its place, and the run goes on with the next
/// word.
pub proof fn lemma_prims_skip_law(
    width: u32,
    height: u32,
    words: Seq<u32>,
    next: int,
    tree: Set<int>,
    list: Seq<(u32, u32, i32, i32)>,
)
    requires
        1 <= list.len() <= u64::MAX,
        0 <= next < words.len(),
        ({
            let e = list[(words[next] as int * list.len()) / 0x1_0000_0000];
            let nr = e.0 + e.2;
            let nc = e.1 + e.3;
            !(0 <= nr < height && 0 <= nc < width) || tree.contains(pos_index(width, (e.0, e.1)))
                == tree.contains(pos_index(width, (nr as u32, nc as u32)))
        }),
    ensures
        ({
            let j = (words[next] as int * list.len()) / 0x1_0000_0000;
            prims_run(width, height, words, next, tree, list) == prims_run(
                width,
                height,
                words,
                next + 1,
                tree,
                list.update(j, list[list.len() - 1]).drop_last(),
            )
        }),
{
    crate::utils::lemma_scale_below(words[next], list.len() as u64);
    assert(scale(words[next], list.len() as u64) as int == (words[next] as int * list.len())
        / 0x1_0000_0000);
}

/// `done` followed by what `run` opens.
pub open spec fn carves_then(done: Seq<(Pos, Pos)>, run: Option<Seq<(Pos, Pos)>>) -> Option<Seq<(Pos, Pos)>> {
    match run {
        Some(cs) => Some(done + cs),
        None => None,
    }
}

/// The step opens the wall between `x` and `u`: its first two changes are at
/// `x` and then `u`.
pub open spec fn opens(step: Seq<MazeChange>, xu: (Pos, Pos)) -> bool {
    &&& step.len() >= 2
    &&& (step[0].row, step[0].col) == xu.0
    &&& (step[1].row, step[1].col) == xu.1
}

/// The steps end with one pair of steps per opened wall (marking, then
/// opening), in order.
pub open spec fn opened_in_order(steps: Seq<Seq<MazeChange>>, carves: Seq<(Pos, Pos)>) -> bool {
    &&& steps.len() >= 2 * carves.len()
    &&& forall|t: int|
        0 <= t < carves.len() ==> opens(
            #[trigger] steps[steps.len() - 2 * carves.len() + 2 * t + 1],
            carves[t],
        ) && marks(steps[steps.len() - 2 * carves.len() + 2 * t], carves[t].0, CellType::Current)
}

/// The step gives the cell at `p` type `t`, keeping its walls, or records
/// nothing when it had that type already.
pub open spec fn marks(step: Seq<MazeChange>, p: Pos, t: CellType) -> bool {
    &&& step.len() <= 1
    &&& step.len() == 1 ==> (step[0].row, step[0].col) == p && step[0].new@ == with_type(step[0].old@, t)
}

/// The run opens walls, and the steps are the walling step, the step that
/// marks the first cell, then two steps per opened wall, in order.
pub open spec fn opened_as_run(steps: Seq<Seq<MazeChange>>, run: Option<Seq<(Pos, Pos)>>) -> bool {
    match run {
        Some(cs) => steps.len() == 2 + 2 * cs.len() && opened_in_order(steps, cs),
        None => false,
    }
}

/// The cell is part of the grown maze: its type is not `Default`.
pub open spec fn in_tree(cells: Seq<Cell>, width: u32, p: Pos) -> bool {
    type_of(cells[pos_index(width, p)]@) != CellType::Default
}

/// The wall-list entry leads from `v` to `u`.
pub open spec fn entry_leads(e: (u32, u32, i32, i32), v: Pos, u: Pos) -> bool {
    &&& e.0 == v.0
    &&& e.1 == v.1
    &&& v.0 + e.2 == u.0
    &&& v.1 + e.3 == u.1
}

/// Some entry of the list leads from `v` to `u`.
pub open spec fn covers(list: Seq<(u32, u32, i32, i32)>, v: Pos, u: Pos) -> bool {
    exists|k: int| 0 <= k < list.len() && entry_leads(list[k], v, u)
}

/// `v` is in the grown maze and its neighbour `u` is not.
pub open spec fn frontier(cells: Seq<Cell>, width: u32, height: u32, v: Pos, u: Pos) -> bool {
    &&& inside(v, width, height)
    &&& inside(u, width, height)
    &&& is_neighbor(v.0, v.1, u.0, u.1)
    &&& in_tree(cells, width, v)
    &&& !in_tree(cells, width, u)
}

/// Every way out of the grown maze is on the wall list.
pub open spec fn frontier_covered(
    cells: Seq<Cell>,
    width: u32,
    height: u32,
    list: Seq<(u32, u32, i32, i32)>,
) -> bool {
    forall|v: Pos, u: Pos| #[trigger] frontier(cells, width, height, v, u) ==> covers(list, v, u)
}

/// Every wall-list entry starts from a cell of the grown maze.
pub open spec fn sources_in_tree(cells: Seq<Cell>, width: u32, list: Seq<(u32, u32, i32, i32)>) -> bool {
    forall|k: int| 0 <= k < list.len() ==> in_tree(cells, width, ((#[trigger] list[k]).0, list[k].1))
}

/// Every cell of the grown maze reaches `root`.
pub open spec fn tree_connected(cells: Seq<Cell>, width: u32, height: u32, root: Pos) -> bool {
    forall|p: Pos|
        inside(p, width, height) && in_tree(cells, width, p) ==> #[trigger] connected(
            cells,
            width,
            height,
            p,
            root,
        )
}

/// Every cell is `Visited`.
pub open spec fn all_visited(cells: Seq<Cell>) -> bool {
    forall|i: int| 0 <= i < cells.len() ==> type_of(#[trigger] cells[i]@) == CellType::Visited
}

/// Every cell is `Default` or `Visited`.
pub open spec fn default_or_visited(cells: Seq<Cell>) -> bool {
    forall|i: int|
        0 <= i < cells.len() ==> type_of(#[trigger] cells[i]@) == CellType::Default || type_of(
            cells[i]@,
        ) == CellType::Visited
}

/// Every cell outside the grown maze still has all four walls.
pub open spec fn outside_walled(cells: Seq<Cell>, width: u32, height: u32) -> bool {
    forall|p: Pos|
        inside(p, width, height) && !#[trigger] in_tree(cells, width, p) ==> walled(
            cells[pos_index(width, p)],
        )
}

/// Taking an entry off the list (moving the last one into its place) keeps
/// the other entries.
proof fn lemma_covers_swap_remove(list: Seq<(u32, u32, i32, i32)>, i: int, v: Pos, u: Pos)
    requires
        0 <= i < list.len(),
        covers(list, v, u),
        !entry_leads(list[i], v, u),
    ensures
        covers(list.update(i, list.last()).drop_last(), v, u),
{
    let l2 = list.update(i, list.last()).drop_last();
    let k = choose|k: int| 0 <= k < list.len() && entry_leads(list[k], v, u);
    if k == list.len() - 1 {
        assert(l2[i] == list[k]);
    } else {
        assert(l2[k] == list[k]);
    }
}

/// Appending entries keeps the old ones.
proof fn lemma_covers_extend(
    list: Seq<(u32, u32, i32, i32)>,
    longer: Seq<(u32, u32, i32, i32)>,
    v: Pos,
    u: Pos,
)
    requires
        covers(list, v, u),
        list.len() <= longer.len(),
        forall|k: int| 0 <= k < list.len() ==> longer[k] == list[k],
    ensures
        covers(longer, v, u),
{
    let k = choose|k: int| 0 <= k < list.len() && entry_leads(list[k], v, u);
    assert(longer[k] == list[k]);
}

/// When no cell of the grown maze has a neighbour outside it, the grown
/// maze is the whole grid.
proof fn lemma_tree_everywhere(cells: Seq<Cell>, width: u32, height: u32, root: Pos)
    requires
        inside(root, width, height),
        in_tree(cells, width, root),
        forall|v: Pos, u: Pos| !#[trigger] frontier(cells, width, height, v, u),
    ensures
        forall|p: Pos| inside(p, width, height) ==> #[trigger] in_tree(cells, width, p),
{
    assert forall|p: Pos| inside(p, width, height) implies #[trigger] in_tree(cells, width, p) by {
        lemma_tree_column(cells, width, height, root, p.0);
        lemma_tree_row(cells, width, height, root, p.0, p.1);
    }
}

proof fn lemma_tree_column(cells: Seq<Cell>, width: u32, height: u32, root: Pos, r: u32)
    requires
        inside(root, width, height),
        in_tree(cells, width, root),
        forall|v: Pos, u: Pos| !#[trigger] frontier(cells, width, height, v, u),
        r < height,
    ensures
        in_tree(cells, width, (r, root.1)),
    decreases if r >= root.0 {
        r - root.0
    } else {
        root.0 - r
    },
{
    if r > root.0 {
        lemma_tree_column(cells, width, height, root, (r - 1) as u32);
        assert(!frontier(cells, width, height, ((r - 1) as u32, root.1), (r, root.1)));
    } else if r < root.0 {
        lemma_tree_column(cells, width, height, root, (r + 1) as u32);
        assert(!frontier(cells, width, height, ((r + 1) as u32, root.1), (r, root.1)));
    }
}

proof fn lemma_tree_row(cells: Seq<Cell>, width: u32, height: u32, root: Pos, r: u32, c: u32)
    requires
        inside(root, width, height),
        in_tree(cells, width, (r, root.1)),
        forall|v: Pos, u: Pos| !#[trigger] frontier(cells, width, height, v, u),
        r < height,
        c < width,
    ensures
        in_tree(cells, width, (r, c)),
    decreases if c >= root.1 {
        c - root.1
    } else {
        root.1 - c
    },
{
    if c > root.1 {
        lemma_tree_row(cells, width, height, root, r, (c - 1) as u32);
        assert(!frontier(cells, width, height, (r, (c - 1) as u32), (r, c)));
    } else if c < root.1 {
        lemma_tree_row(cells, width, height, root, r, (c + 1) as u32);
        assert(!frontier(cells, width, height, (r, (c + 1) as u32), (r, c)));
    }
}

/// One carving step: from `x` in the grown maze to its neighbour `u`
/// outside it. `x` is marked (`c1`), the wall between them opened (`c2`),
/// `u` marked `Visited` (`c3`), `x` marked `Visited` again (`c4`), and the
/// walls of `u` appended to the list. The grown maze stays connected and its
/// ways out stay on the list.
proof fn lemma_prim_carve(
    c0: Seq<Cell>,
    width: u32,
    height: u32,
    root: Pos,
    x: Pos,
    u: Pos,
    c1: Seq<Cell>,
    c2: Seq<Cell>,
    c3: Seq<Cell>,
    c4: Seq<Cell>,
    l1: Seq<(u32, u32, i32, i32)>,
    l2: Seq<(u32, u32, i32, i32)>,
)
    requires
        c0.len() == width as int * height as int,
        inside(root, width, height),
        inside(x, width, height),
        inside(u, width, height),
        is_neighbor(x.0, x.1, u.0, u.1),
        in_tree(c0, width, x),
        !in_tree(c0, width, u),
        in_tree(c0, width, root),
        tree_connected(c0, width, height, root),
        forall|v: Pos, w2: Pos|
            #[trigger] frontier(c0, width, height, v, w2) && !(v == x && w2 == u) ==> covers(
                l1,
                v,
                w2,
            ),
        sources_in_tree(c0, width, l1),
        forall|k: int| 0 <= k < l1.len() ==> #[trigger] frontier_ok(l1[k], width, height),
        outside_walled(c0, width, height),
        reached(c0).finite(),
        ({
            let a = c1[pos_index(width, x)];
            &&& c1 == c0.update(pos_index(width, x), a)
            &&& type_of(a@) != CellType::Default
            &&& same_walls(a, c0[pos_index(width, x)])
        }),
        ({
            let (w1, w2) = facing(x.0, x.1, u.0, u.1).unwrap();
            let n1 = cell_of(c1[pos_index(width, x)]@ & !w1);
            let n2 = cell_of(c1[pos_index(width, u)]@ & !w2);
            c2 == c1.update(pos_index(width, x), n1).update(pos_index(width, u), n2)
        }),
        ({
            let a = c3[pos_index(width, u)];
            &&& c3 == c2.update(pos_index(width, u), a)
            &&& type_of(a@) == CellType::Visited
            &&& same_walls(a, c2[pos_index(width, u)])
        }),
        ({
            let a = c4[pos_index(width, x)];
            &&& c4 == c3.update(pos_index(width, x), a)
            &&& type_of(a@) == CellType::Visited
            &&& same_walls(a, c3[pos_index(width, x)])
        }),
        default_or_visited(c0),
        l1.len() <= l2.len(),
        forall|k: int| 0 <= k < l1.len() ==> l2[k] == l1[k],
        forall|k: int| l1.len() <= k < l2.len() ==> (#[trigger] l2[k]).0 == u.0 && l2[k].1 == u.1,
        forall|w2: Pos|
            inside(w2, width, height) && #[trigger] is_neighbor(u.0, u.1, w2.0, w2.1) ==> covers(
                l2,
                u,
                w2,
            ),
    ensures
        c4.len() == c0.len(),
        in_tree(c4, width, root),
        tree_connected(c4, width, height, root),
        frontier_covered(c4, width, height, l2),
        sources_in_tree(c4, width, l2),
        outside_walled(c4, width, height),
        reached(c4).finite(),
        reached(c4).len() == reached(c0).len() + 1,
        open_sides(c4, width, height).len() == open_sides(c0, width, height).len() + 1,
        default_or_visited(c4),
{
    let ix = pos_index(width, x);
    let iu = pos_index(width, u);
    lemma_index_in_bounds(width, height, x.0, x.1);
    lemma_index_in_bounds(width, height, u.0, u.1);
    if ix == iu {
        crate::maze::lemma_index_injective(width, x.0, x.1, u.0, u.1);
    }
    let (w1, w2) = facing(x.0, x.1, u.0, u.1).unwrap();
    // walls: c0 -> c1 same, c1 -> c2 opens x-u, c2 -> c4 same
    assert forall|i: int| 0 <= i < c0.len() implies same_walls(#[trigger] c1[i], c0[i]) by {}
    lemma_passages_same_walls(c0, c1, width, height);
    let o1 = c1[ix];
    let o2 = c1[iu];
    crate::generators::walls::lemma_wall_bits(o1@, w1, 0);
    crate::generators::walls::lemma_wall_bits(o2@, w2, 0);
    crate::cell::lemma_cell_of(o1@, o1);
    crate::cell::lemma_cell_of(o2@, o2);
    crate::cell::lemma_cell_of(o1@ & !w1, o1);
    crate::cell::lemma_cell_of(o2@ & !w2, o2);
    assert(w1 & 0xf0u8 == 0 && w2 & 0xf0u8 == 0) by (bit_vector)
        requires
            w1 == 1u8 || w1 == 2u8 || w1 == 4u8 || w1 == 8u8,
            w2 == 1u8 || w2 == 2u8 || w2 == 4u8 || w2 == 8u8,
    ;
    crate::cell::lemma_wall_change_keeps_type(o1@, w1);
    crate::cell::lemma_wall_change_keeps_type(o2@, w2);
    lemma_open_one_passage(c1, width, height, x, u, cell_of(o1@ & !w1), cell_of(o2@ & !w2));
    assert forall|i: int| 0 <= i < c0.len() implies same_walls(#[trigger] c4[i], c2[i]) by {
        if i == ix {
            assert(same_walls(c4[ix], c3[ix]));
        }
        if i == iu {
            assert(same_walls(c3[iu], c2[iu]));
        }
    }
    lemma_passages_same_walls(c2, c4, width, height);
    // membership: only u joins
    assert forall|i: int| 0 <= i < c0.len() && i != ix && i != iu implies c4[i] == c0[i] by {}
    assert(type_of(c4[ix]@) != CellType::Default);
    assert(type_of(c4[iu]@) != CellType::Default);
    assert forall|p: Pos| inside(p, width, height) implies (in_tree(c4, width, p) <==> in_tree(
        c0,
        width,
        p,
    ) || p == u) by {
        lemma_index_in_bounds(width, height, p.0, p.1);
        let ip = pos_index(width, p);
        if ip == iu {
            crate::maze::lemma_index_injective(width, p.0, p.1, u.0, u.1);
        }
        if ip == ix {
            crate::maze::lemma_index_injective(width, p.0, p.1, x.0, x.1);
        }
    }
    // one more open boundary
    assert(walled(c0[iu]));
    assert(!passage(c0, width, x, u));
    assert forall|a: Pos, b: Pos| inside(a, width, height) && inside(b, width, height) implies (
    #[trigger] passage(c4, width, a, b) <==> passage(c0, width, a, b) || (a == x && b == u) || (a
        == u && b == x)) by {
        assert(passage(c4, width, a, b) == passage(c2, width, a, b));
        assert(passage(c1, width, a, b) == passage(c0, width, a, b));
    }
    lemma_open_sides_add(c0, c4, width, height, x, u);
    // one more reached cell
    assert(reached(c4) =~= reached(c0).insert(iu)) by {
        assert forall|i: int| #[trigger] reached(c4).contains(i) <==> reached(c0).insert(iu).contains(i) by {
            if 0 <= i < c0.len() && i != ix && i != iu {
                assert(c4[i] == c0[i]);
            }
        }
    }
    assert(!reached(c0).contains(iu));
    assert forall|p: Pos| inside(p, width, height) && !#[trigger] in_tree(c4, width, p) implies walled(
        c4[pos_index(width, p)],
    ) by {
        lemma_index_in_bounds(width, height, p.0, p.1);
        let ip = pos_index(width, p);
        assert(!in_tree(c0, width, p));
        if ip == ix {
            crate::maze::lemma_index_injective(width, p.0, p.1, x.0, x.1);
        }
        if ip == iu {
            crate::maze::lemma_index_injective(width, p.0, p.1, u.0, u.1);
        }
        assert(c4[ip] == c0[ip]);
    }
    // connectivity
    assert(passage(c4, width, x, u));
    assert forall|p: Pos| inside(p, width, height) && in_tree(c4, width, p) implies #[trigger] connected(
        c4,
        width,
        height,
        p,
        root,
    ) by {
        assert(connected(c0, width, height, x, root));
        lemma_connected_monotone(c0, c4, width, height, x, root);
        if p == u {
            lemma_passage_symmetric(c4, width, x, u);
            lemma_connected_passage(c4, width, height, u, x);
            lemma_connected_trans(c4, width, height, u, x, root);
        } else {
            assert(connected(c0, width, height, p, root));
            lemma_connected_monotone(c0, c4, width, height, p, root);
        }
    }
    // ways out
    assert forall|v: Pos, w3: Pos| #[trigger] frontier(c4, width, height, v, w3) implies covers(
        l2,
        v,
        w3,
    ) by {
        if v == u {
        } else {
            assert(frontier(c0, width, height, v, w3));
            lemma_covers_extend(l1, l2, v, w3);
        }
    }
    assert forall|k: int| 0 <= k < l2.len() implies in_tree(
        c4,
        width,
        ((#[trigger] l2[k]).0, l2[k].1),
    ) by {
        let q: Pos = (l2[k].0, l2[k].1);
        if k < l1.len() {
            assert(l2[k] == l1[k]);
            assert(in_tree(c0, width, (l1[k].0, l1[k].1)));
            assert(frontier_ok(l1[k], width, height));
        } else {
            assert(q == u);
        }
    }
}

/// Pushing an entry keeps what the list covered and adds what the entry leads to.
proof fn lemma_covers_push(list: Seq<(u32, u32, i32, i32)>, e: (u32, u32, i32, i32))
    ensures
        forall|v: Pos, u: Pos|
            covers(list, v, u) || entry_leads(e, v, u) ==> #[trigger] covers(list.push(e), v, u),
{
    assert forall|v: Pos, u: Pos| covers(list, v, u) || entry_leads(e, v, u) implies #[trigger] covers(
        list.push(e),
        v,
        u,
    ) by {
        if entry_leads(e, v, u) {
            assert(list.push(e)[list.len() as int] == e);
        } else {
            lemma_covers_extend(list, list.push(e), v, u);
        }
    }
}

/// The four neighbours of `v` inside the grid, each covered when asked.
pub open spec fn neighbours_covered(
    list: Seq<(u32, u32, i32, i32)>,
    v: Pos,
    width: u32,
    height: u32,
    north: bool,
    south: bool,
    west: bool,
    east: bool,
) -> bool {
    &&& north && v.0 >= 1 ==> covers(list, v, ((v.0 - 1) as u32, v.1))
    &&& south && v.0 + 1 < height ==> covers(list, v, ((v.0 + 1) as u32, v.1))
    &&& west && v.1 >= 1 ==> covers(list, v, (v.0, (v.1 - 1) as u32))
    &&& east && v.1 + 1 < width ==> covers(list, v, (v.0, (v.1 + 1) as u32))
}

/// With all four directions covered, every neighbour inside the grid is.
proof fn lemma_neighbours_covered(
    list: Seq<(u32, u32, i32, i32)>,
    v: Pos,
    width: u32,
    height: u32,
)
    requires
        neighbours_covered(list, v, width, height, true, true, true, true),
    ensures
        forall|w2: Pos|
            inside(w2, width, height) && #[trigger] is_neighbor(v.0, v.1, w2.0, w2.1) ==> covers(
                list,
                v,
                w2,
            ),
{
    assert forall|w2: Pos|
        inside(w2, width, height) && #[trigger] is_neighbor(v.0, v.1, w2.0, w2.1) implies covers(
        list,
        v,
        w2,
    ) by {
        if w2.0 + 1 == v.0 && w2.1 == v.1 {
            assert(w2 == ((v.0 - 1) as u32, v.1));
        } else if w2.0 == v.0 + 1 && w2.1 == v.1 {
            assert(w2 == ((v.0 + 1) as u32, v.1));
        } else if w2.0 == v.0 && w2.1 + 1 == v.1 {
            assert(w2 == (v.0, (v.1 - 1) as u32));
        } else {
            assert(w2 == (v.0, (v.1 + 1) as u32));
        }
    }
}

impl MazeGenerator for Prims {
    open spec fn accepts(&self, width: u32, height: u32) -> bool {
        width > 0 && height > 0
    }

    /// Wall every cell, mark a random start cell `Visited`, and keep a list
    /// of walls next to the grown part. Repeatedly take a random wall off the
    /// list; when exactly one of its two cells is in the maze (type other
    /// than `Default`), open it, mark the new cell `Visited` and put its
    /// walls on the list.
    #[verifier::rlimit(30)]
    fn generate_maze_steps(&mut self, original_maze: &Maze, draws: &mut Draws) -> (r: Option<
        Vec<Vec<MazeChange>>,
    >)
        ensures
            old(draws).spec_words().len() - old(draws).spec_next() >= 2 + 4 * (
            original_maze.spec_width() as int * original_maze.spec_height() as int) ==> r is Some,
            r matches Some(steps) ==> steps@.len() > 0 && walls_every_cell(
                steps@[0]@,
                original_maze.spec_cells(),
                original_maze.spec_width(),
            ),
            r matches Some(steps) ==> {
                let n = old(draws).spec_next() as int;
                let words = old(draws).spec_words();
                let first = random_cell(words, n, original_maze.spec_height(), original_maze.spec_width());
                opened_as_run(
                    steps_view(steps@),
                    prims_run(
                        original_maze.spec_width(),
                        original_maze.spec_height(),
                        words,
                        n + 2,
                        reached(original_maze.spec_cells()).insert(
                            pos_index(original_maze.spec_width(), first),
                        ),
                        start_entries(first, original_maze.spec_width(), original_maze.spec_height(), 4),
                    ),
                )
            },
            r matches Some(steps) ==> {
                let built = replay_new(
                    original_maze.spec_cells(),
                    original_maze.spec_width(),
                    flatten(steps_view(steps@)),
                );
                &&& frame_closed(built, original_maze.spec_width(), original_maze.spec_height())
                &&& default_except(
                    original_maze.spec_cells(),
                    pos_index(
                        original_maze.spec_width(),
                        random_cell(
                            old(draws).spec_words(),
                            old(draws).spec_next() as int,
                            original_maze.spec_height(),
                            original_maze.spec_width(),
                        ),
                    ),
                ) ==> {
                    &&& perfect_maze(built, original_maze.spec_width(), original_maze.spec_height())
                    &&& all_visited(built)
                }
            },
    {
        let mut steps: Vec<Vec<MazeChange>> = Vec::new();
        let mut maze = original_maze.clone();
        let ghost start = maze.spec_cells();
        let ghost width = maze.spec_width();
        let ghost height = maze.spec_height();
        let h = maze.height() as usize;
        let w = maze.width() as usize;

        // Start with all walls present
        let walling_step: Vec<MazeChange> = self.add_all_walls(&mut maze);
        proof {
            lemma_progress_walling(start, width, height, walling_step@, maze, true);
            crate::generators::trace::lemma_full_pass_order(
                start,
                width,
                height,
                walling_step@,
                maze.spec_cells(),
                crate::generators::generator::every_position(),
                crate::generators::generator::with_all_walls(),
            );
            assert(walls_every_cell(walling_step@, start, width));
            assert(start.len() > 0) by {
                assert(width as int * height as int > 0) by (nonlinear_arith)
                    requires
                        width > 0,
                        height > 0,
                ;
            }
            lemma_frame_walling(start, width, height, walling_step@, maze.spec_cells(), true);
            assert(0x0fu8 & 0xf0u8 == 0) by (bit_vector);
            assert forall|i: int| 0 <= i < start.len() implies type_of(#[trigger] maze.spec_cells()[i]@)
                == type_of(start[i]@) by {
                assert(maze.spec_cells()[i] == cell_of(start[i]@ | 0x0f));
                crate::cell::lemma_cell_of(start[i]@ | 0x0f, start[i]);
                crate::cell::lemma_wall_change_keeps_type(start[i]@, 0x0f);
            }
        }
        if walling_step.len() > 0 {
            proof {
                lemma_progress_finish_step(start, width, height, steps@, walling_step, maze);
            }
            steps.push(walling_step);
        } else {
            proof {
                assert(walling_step@ =~= Seq::<MazeChange>::empty());
            }
        }

        // With 2 + 4 * (cells) words Prim's algorithm never runs out: two
        // words pick the first cell, then one word per wall-list entry, and
        // at most four entries are listed for the first cell and for each
        // cell that joins.
        let ghost ample = draws.spec_words().len() - draws.spec_next() >= 2 + 4 * (width as int
            * height as int);

        // Pick a random starting cell
        let (start_row, start_col) = match choose_random_cell(h as u32, w as u32, draws) {
            Some(p) => p,
            None => {
                return None;
            },
        };
        let ghost root: Pos = (start_row, start_col);
        let mut first_step: Vec<MazeChange> = Vec::new();
        let mut first_cell = maze.get_cell(start_row, start_col);
        first_cell.set_type(CellType::Visited);
        let ghost m0 = maze;
        self.mark_cell(&mut maze, start_row, start_col, first_cell, &mut first_step);
        proof {
            lemma_progress_mark(
                start,
                width,
                height,
                steps@,
                Seq::empty(),
                m0,
                first_step@,
                maze,
                start_row,
                start_col,
                first_cell,
            );
            lemma_frame_mark(m0, Seq::empty(), maze, first_step@, start_row, start_col, first_cell, true);
            lemma_progress_finish_step(start, width, height, steps@, first_step, maze);
            lemma_mark_cells(m0, Seq::empty(), maze, first_step@, start_row, start_col, first_cell);
            crate::cell::lemma_set_type_then_get_type(m0.cell_at(start_row, start_col)@, CellType::Visited);
            lemma_index_in_bounds(width, height, start_row, start_col);
            {
                let cs = maze.spec_cells();
                let is = pos_index(width, root);
                lemma_int_range(0, cs.len() as int);
                lemma_len_subset(reached(cs), set_int_range(0, cs.len() as int));
                assert(reached(cs).contains(is));
                lemma_len_subset(set![is], reached(cs));
            }
            if default_except(start, pos_index(width, root)) {
                let cs = maze.spec_cells();
                let is = pos_index(width, root);
                assert forall|i: int| 0 <= i < cs.len() implies walled(#[trigger] cs[i]) by {
                    lemma_full_and_empty_walls(start[i]@);
                    if i != is {
                        assert(cs[i] == m0.spec_cells()[i]);
                    }
                }
                lemma_no_open_sides(cs, width, height);
                assert forall|i: int| 0 <= i < cs.len() implies type_of(#[trigger] cs[i]@)
                    == CellType::Default || type_of(cs[i]@) == CellType::Visited by {
                    if i != is {
                        assert(cs[i] == m0.spec_cells()[i]);
                    }
                }
                assert(reached(cs) =~= set![is]) by {
                    assert forall|i: int| #[trigger] reached(cs).contains(i) <==> i == is by {
                        if 0 <= i < cs.len() && i != is {
                            assert(cs[i] == m0.spec_cells()[i]);
                        }
                    }
                }
                assert forall|p: Pos| inside(p, width, height) && !#[trigger] in_tree(cs, width, p) implies walled(
                    cs[pos_index(width, p)],
                ) by {
                    lemma_index_in_bounds(width, height, p.0, p.1);
                }
                assert forall|p: Pos| inside(p, width, height) implies (in_tree(cs, width, p) <==> p
                    == root) by {
                    lemma_index_in_bounds(width, height, p.0, p.1);
                    if pos_index(width, p) == pos_index(width, root) {
                        crate::maze::lemma_index_injective(width, p.0, p.1, start_row, start_col);
                    }
                }
                assert forall|p: Pos| inside(p, width, height) && in_tree(cs, width, p) implies #[trigger] connected(
                    cs,
                    width,
                    height,
                    p,
                    root,
                ) by {
                    lemma_connected_refl(cs, width, height, root);
                }
            }
        }
        steps.push(first_step);

        // Initialize a wall list from the starting cell
        let mut wall_list: Vec<(u32, u32, i32, i32)> = Vec::new();
        let dirs: [(i32, i32); 4] = [(0, 1), (1, 0), (0, -1), (-1, 0)];
        let mut d: usize = 0;
        while d < 4
            invariant
                d <= 4,
                dirs@ == seq![(0i32, 1i32), (1i32, 0i32), (0i32, -1i32), (-1i32, 0i32)],
                root == (start_row, start_col),
                start_row < height,
                start_col < width,
                h == height as usize,
                w == width as usize,
                forall|k: int|
                    0 <= k < wall_list@.len() ==> frontier_ok(#[trigger] wall_list@[k], width, height),
                wall_list@.len() <= d,
                forall|k: int|
                    0 <= k < wall_list@.len() ==> (#[trigger] wall_list@[k]).0 == start_row
                        && wall_list@[k].1 == start_col,
                neighbours_covered(wall_list@, root, width, height, d > 3, d > 1, d > 2, d > 0),
                wall_list@ == start_entries(root, width, height, d as int),
            decreases 4 - d,
        {
            let (dr, dc) = dirs[d];
            let nr = start_row as i64 + dr as i64;
            let nc = start_col as i64 + dc as i64;
            let ghost before = wall_list@;
            if nr < h as i64 && nc < w as i64 {
                wall_list.push((start_row, start_col, dr, dc));
                proof {
                    lemma_covers_push(before, (start_row, start_col, dr, dc));
                }
            }
            proof {
                assert(wall_list@ =~= start_entries(root, width, height, d as int + 1));
            }
            d = d + 1;
        }

        let ghost n_init = draws.spec_next() as int;
        let ghost tree_init = reached(maze.spec_cells());
        let ghost list_init = wall_list@;
        let ghost mut done: Seq<(Pos, Pos)> = Seq::empty();
        proof {
            let cs = maze.spec_cells();
            let is = pos_index(width, root);
            assert(reached(cs) =~= reached(start).insert(is)) by {
                assert forall|i: int| #[trigger] reached(cs).contains(i) <==> reached(start).insert(is).contains(
                    i,
                ) by {
                    if 0 <= i < cs.len() && i != is {
                        assert(cs[i] == m0.spec_cells()[i]);
                    }
                }
            }
        }
        while !wall_list.is_empty()
            invariant
                prims_run(width, height, old(draws).spec_words(), n_init, tree_init, list_init)
                    == carves_then(
                    done,
                    prims_run(
                        width,
                        height,
                        draws.spec_words(),
                        draws.spec_next() as int,
                        reached(maze.spec_cells()),
                        wall_list@,
                    ),
                ),
                opened_in_order(steps_view(steps@), done),
                steps@.len() > 0 && steps@[0]@ == walling_step@,
                steps@.len() == 2 + 2 * done.len(),
                progress(start, width, height, steps@, Seq::empty(), maze),
                frame_closed(maze.spec_cells(), width, height),
                start == original_maze.spec_cells(),
                width == original_maze.spec_width(),
                height == original_maze.spec_height(),
                h == height as usize,
                w == width as usize,
                inside(root, width, height),
                forall|k: int|
                    0 <= k < wall_list@.len() ==> frontier_ok(#[trigger] wall_list@[k], width, height),
                draws.wf(),
                old(draws).advanced_to(draws),
                ample == (old(draws).spec_words().len() - old(draws).spec_next() >= 2 + 4 * (
                width as int * height as int)),
                reached(maze.spec_cells()).finite(),
                reached(maze.spec_cells()).len() <= width as int * height as int,
                ample ==> draws.spec_words().len() - draws.spec_next() >= wall_list@.len() + 4 * (
                width as int * height as int - reached(maze.spec_cells()).len()),
                default_except(start, pos_index(width, root)) ==> {
                    &&& in_tree(maze.spec_cells(), width, root)
                    &&& tree_connected(maze.spec_cells(), width, height, root)
                    &&& frontier_covered(maze.spec_cells(), width, height, wall_list@)
                    &&& sources_in_tree(maze.spec_cells(), width, wall_list@)
                    &&& outside_walled(maze.spec_cells(), width, height)
                    &&& default_or_visited(maze.spec_cells())
                    &&& reached(maze.spec_cells()).finite()
                    &&& open_sides(maze.spec_cells(), width, height).len() + 1 == reached(
                        maze.spec_cells(),
                    ).len()
                },
            decreases draws.spec_words().len() - draws.spec_next(),
        {
            let ghost n_b = draws.spec_next() as int;
            // Pick a random wall from the list
            let i = match draws.below(wall_list.len() as u64) {
                Some(i) => i,
                None => {
                    return None;
                },
            };
            proof {
                crate::utils::lemma_scale_below(
                    draws.spec_words()[draws.spec_next() - 1],
                    wall_list@.len() as u64,
                );
            }
            let i = i as usize;
            let ghost before_remove = wall_list@;
            let ghost c0 = maze.spec_cells();
            let (r, c, dr, dc) = wall_list.swap_remove(i);
            proof {
                assert(frontier_ok(before_remove[i as int], width, height));
                assert forall|k: int| 0 <= k < wall_list@.len() implies frontier_ok(
                    #[trigger] wall_list@[k],
                    width,
                    height,
                ) by {
                    assert(frontier_ok(before_remove[k], width, height));
                    assert(frontier_ok(before_remove[before_remove.len() - 1], width, height));
                }
                assert(wall_list@ == before_remove.update(i as int, before_remove.last()).drop_last());
                if default_except(start, pos_index(width, root)) {
                    assert forall|v: Pos, u: Pos|
                        #[trigger] frontier(c0, width, height, v, u) && !entry_leads(
                            before_remove[i as int],
                            v,
                            u,
                        ) implies covers(wall_list@, v, u) by {
                        lemma_covers_swap_remove(before_remove, i as int, v, u);
                    }
                    assert forall|k: int| 0 <= k < wall_list@.len() implies in_tree(
                        c0,
                        width,
                        ((#[trigger] wall_list@[k]).0, wall_list@[k].1),
                    ) by {
                        if k == i {
                            assert(wall_list@[k] == before_remove[before_remove.len() - 1]);
                        } else {
                            assert(wall_list@[k] == before_remove[k]);
                        }
                    }
                    assert(in_tree(c0, width, (r, c)));
                }
            }
            let nr64 = r as i64 + dr as i64;
            let nc64 = c as i64 + dc as i64;

            // Check if the neighboring cell is within bounds
            if nr64 < 0 || nc64 < 0 || nr64 >= h as i64 || nc64 >= w as i64 {
                proof {
                    if default_except(start, pos_index(width, root)) {
                        assert forall|v: Pos, u: Pos| #[trigger] frontier(c0, width, height, v, u)
                            implies covers(wall_list@, v, u) by {
                            assert(!entry_leads(before_remove[i as int], v, u));
                        }
                    }
                    assert(prims_run(width, height, draws.spec_words(), n_b, reached(c0), before_remove)
                        == prims_run(width, height, draws.spec_words(), n_b + 1, reached(c0), wall_list@));
                }
                continue;
            }
            let nr = nr64 as u32;
            let nc = nc64 as u32;
            proof {
                assert(is_neighbor(r, c, nr, nc));
            }

            // count how many of the two cells are already in the maze
            let cell1 = maze.get_cell(r, c).get_type() != CellType::Default;
            let cell2 = maze.get_cell(nr, nc).get_type() != CellType::Default;

            // If exactly one of the cells is in the maze, carve the wall
            if cell1 != cell2 {
                let ghost l1 = wall_list@;
                let ghost s_head = steps_view(steps@);
                // Mark as current cell
                let mut current_cell = maze.get_cell(r, c);
                current_cell.set_type(CellType::Current);
                let mut current_step: Vec<MazeChange> = Vec::new();
                let ghost m1 = maze;
                self.mark_cell(&mut maze, r, c, current_cell, &mut current_step);
                proof {
                    lemma_progress_mark(
                        start,
                        width,
                        height,
                        steps@,
                        Seq::empty(),
                        m1,
                        current_step@,
                        maze,
                        r,
                        c,
                        current_cell,
                    );
                    lemma_frame_mark(m1, Seq::empty(), maze, current_step@, r, c, current_cell, true);
                    lemma_progress_finish_step(start, width, height, steps@, current_step, maze);
                    lemma_mark_cells(m1, Seq::empty(), maze, current_step@, r, c, current_cell);
                    crate::cell::lemma_set_type_then_get_type(m1.cell_at(r, c)@, CellType::Current);
                }
                proof {
                    let o = m1.cell_at(r, c);
                    let v = o@;
                    assert(((v & 0x0f) | 0x80u8) & 0xf0u8 | (v & 0x0f) == (v & 0x0f) | 0x80u8) by (bit_vector);
                    crate::cell::lemma_cell_of(((current_cell@ & 0xf0u8) | (v & 0x0f)), o);
                    assert(marks(current_step@, (r, c), CellType::Current));
                }
                let ghost cs_mark = current_step@;
                steps.push(current_step);
                let ghost c1 = maze.spec_cells();

                // carve passage
                let mut step: Vec<MazeChange> = Vec::new();
                let ghost m2 = maze;
                self.remove_wall_between(&mut maze, r, c, nr, nc, &mut step);
                proof {
                    lemma_progress_wall(
                        start,
                        width,
                        height,
                        steps@,
                        Seq::empty(),
                        m2,
                        step@,
                        maze,
                        r,
                        c,
                        nr,
                        nc,
                        false,
                    );
                    lemma_frame_wall(m2, Seq::empty(), maze, step@, r, c, nr, nc, false, true);
                    lemma_wall_effect_types(m2, Seq::empty(), maze, step@, r, c, nr, nc, false);
                }
                let ghost c2 = maze.spec_cells();
                let ghost s_wall = step@;
                proof {
                    assert(s_wall.len() == 2 && (s_wall[0].row, s_wall[0].col) == (r, c) && (s_wall[1].row,
                        s_wall[1].col) == (nr, nc));
                }
                // mark the newly reached cell
                let (vr, vc) = if !cell1 {
                    (r, c)
                } else {
                    (nr, nc)
                };
                let visited = Cell::new(CellType::Visited);
                let ghost m3 = maze;
                let ghost s3 = step@;
                self.mark_cell(&mut maze, vr, vc, visited, &mut step);
                proof {
                    lemma_progress_mark(
                        start,
                        width,
                        height,
                        steps@,
                        s3,
                        m3,
                        step@,
                        maze,
                        vr,
                        vc,
                        visited,
                    );
                    lemma_frame_mark(m3, s3, maze, step@, vr, vc, visited, true);
                    lemma_mark_cells(m3, s3, maze, step@, vr, vc, visited);
                    assert(0x50u8 & 0xf0u8 == 0x50u8) by (bit_vector);
                    assert(step@.len() >= 2 && step@[0] == s_wall[0] && step@[1] == s_wall[1]);
                }
                let ghost c3 = maze.spec_cells();

                // add that cell's neighboring walls
                let adirs: [(i32, i32); 4] = [(-1, 0), (1, 0), (0, -1), (0, 1)];
                let mut a: usize = 0;
                while a < 4
                    invariant
                        a <= 4,
                        adirs@ == seq![(-1i32, 0i32), (1i32, 0i32), (0i32, -1i32), (0i32, 1i32)],
                        vr < height,
                        vc < width,
                        h == height as usize,
                        w == width as usize,
                        forall|k: int|
                            0 <= k < wall_list@.len() ==> frontier_ok(
                                #[trigger] wall_list@[k],
                                width,
                                height,
                            ),
                        l1.len() <= wall_list@.len(),
                        wall_list@.len() <= l1.len() + a,
                        forall|k: int| 0 <= k < l1.len() ==> wall_list@[k] == l1[k],
                        forall|k: int|
                            l1.len() <= k < wall_list@.len() ==> (#[trigger] wall_list@[k]).0 == vr
                                && wall_list@[k].1 == vc,
                        neighbours_covered(wall_list@, (vr, vc), width, height, a > 0, a > 1, a > 2, a > 3),
                        wall_list@ == l1 + join_entries((vr, vc), width, height, a as int),
                    decreases 4 - a,
                {
                    let (adr, adc) = adirs[a];
                    let ar = vr as i64 + adr as i64;
                    let ac = vc as i64 + adc as i64;
                    let ghost before = wall_list@;
                    if 0 <= ar && ar < h as i64 && 0 <= ac && ac < w as i64 {
                        wall_list.push((vr, vc, adr, adc));
                        proof {
                            lemma_covers_push(before, (vr, vc, adr, adc));
                        }
                    }
                    proof {
                        assert(wall_list@ =~= l1 + join_entries((vr, vc), width, height, a as int + 1));
                    }
                    a = a + 1;
                }

                // Remove the current cell marking
                let mut prev = maze.get_cell(r, c);
                prev.set_type(CellType::Visited);
                let ghost m4 = maze;
                let ghost s4 = step@;
                self.mark_cell(&mut maze, r, c, prev, &mut step);
                proof {
                    lemma_progress_mark(
                        start,
                        width,
                        height,
                        steps@,
                        s4,
                        m4,
                        step@,
                        maze,
                        r,
                        c,
                        prev,
                    );
                    lemma_frame_mark(m4, s4, maze, step@, r, c, prev, true);
                    lemma_progress_finish_step(start, width, height, steps@, step, maze);
                    lemma_mark_cells(m4, s4, maze, step@, r, c, prev);
                    crate::cell::lemma_set_type_then_get_type(m4.cell_at(r, c)@, CellType::Visited);
                    assert(step@.len() >= 2 && step@[0] == s_wall[0] && step@[1] == s_wall[1]);
                    lemma_index_in_bounds(width, height, r, c);
                    lemma_index_in_bounds(width, height, nr, nc);
                    if cell_index(width, r, c) == cell_index(width, nr, nc) {
                        crate::maze::lemma_index_injective(width, r, c, nr, nc);
                    }
                    assert(type_of(visited@) == CellType::Visited);
                    lemma_carve_count(
                        c0,
                        c1,
                        c2,
                        c3,
                        maze.spec_cells(),
                        cell_index(width, r, c),
                        cell_index(width, nr, nc),
                        cell_index(width, vr, vc),
                    );
                    if default_except(start, pos_index(width, root)) {
                        let x: Pos = (r, c);
                        let u: Pos = (nr, nc);
                        assert(vr == nr && vc == nc);
                        lemma_index_in_bounds(width, height, r, c);
                        assert(c1 == c0.update(pos_index(width, x), c1[pos_index(width, x)]));
                        lemma_index_in_bounds(width, height, nr, nc);
                        assert(type_of(visited@) == CellType::Visited);
                        assert(c3 == c2.update(pos_index(width, u), c3[pos_index(width, u)]));
                        lemma_neighbours_covered(wall_list@, u, width, height);
                        assert forall|v: Pos, w2: Pos|
                            #[trigger] frontier(c0, width, height, v, w2) && !(v == x && w2 == u)
                                implies covers(l1, v, w2) by {
                            assert(!entry_leads(before_remove[i as int], v, w2));
                        }
                        lemma_prim_carve(
                            c0,
                            width,
                            height,
                            root,
                            x,
                            u,
                            c1,
                            c2,
                            c3,
                            maze.spec_cells(),
                            l1,
                            wall_list@,
                        );
                    }
                }

                let ghost steps_mid = steps_view(steps@);
                steps.push(step);
                proof {
                    let x: Pos = (r, c);
                    let u: Pos = (nr, nc);
                    let v: Pos = (vr, vc);
                    let words = draws.spec_words();
                    let later = prims_run(
                        width,
                        height,
                        words,
                        n_b + 1,
                        reached(c0).insert(pos_index(width, v)),
                        l1 + join_entries(v, width, height, 4),
                    );
                    assert(prims_run(width, height, words, n_b, reached(c0), before_remove)
                        == carves_then(seq![(x, u)], later));
                    let old_done = done;
                    done = done.push((x, u));
                    match later {
                        Some(cs) => {
                            assert(old_done + (seq![(x, u)] + cs) =~= done + cs);
                        },
                        None => {},
                    }
                    let sv = steps_view(steps@);
                    assert(sv =~= steps_mid.push(step@));
                    assert(steps_mid.last() == cs_mark);
                    assert forall|t: int| 0 <= t < done.len() implies opens(
                        #[trigger] sv[sv.len() - 2 * done.len() + 2 * t + 1],
                        done[t],
                    ) && marks(sv[sv.len() - 2 * done.len() + 2 * t], done[t].0, CellType::Current) by {
                        if t < old_done.len() {
                            assert(steps_mid =~= s_head.push(steps_mid.last()));
                            assert(sv[sv.len() - 2 * done.len() + 2 * t + 1] == s_head[s_head.len() - 2
                                * old_done.len() + 2 * t + 1]);
                            assert(sv[sv.len() - 2 * done.len() + 2 * t] == s_head[s_head.len() - 2
                                * old_done.len() + 2 * t]);
                        }
                    }
                }
            } else {
                // If both cells are already in the maze, do nothing
                proof {
                    lemma_index_in_bounds(width, height, r, c);
                    lemma_index_in_bounds(width, height, nr, nc);
                    assert(reached(c0).contains(cell_index(width, r, c)) == cell1);
                    assert(reached(c0).contains(cell_index(width, nr, nc)) == cell2);
                    assert(prims_run(width, height, draws.spec_words(), n_b, reached(c0), before_remove)
                        == prims_run(width, height, draws.spec_words(), n_b + 1, reached(c0), wall_list@));
                    if default_except(start, pos_index(width, root)) {
                        assert forall|v: Pos, u: Pos| #[trigger] frontier(c0, width, height, v, u)
                            implies covers(wall_list@, v, u) by {
                            if entry_leads(before_remove[i as int], v, u) {
                                assert(u == (nr, nc));
                            }
                        }
                    }
                }
            }
        }
        proof {
            if default_except(start, pos_index(width, root)) {
                let cs = maze.spec_cells();
                assert forall|v: Pos, u: Pos| !#[trigger] frontier(cs, width, height, v, u) by {
                    if frontier(cs, width, height, v, u) {
                        assert(covers(wall_list@, v, u));
                    }
                }
                lemma_tree_everywhere(cs, width, height, root);
                let n = width as int * height as int;
                assert(reached(cs) =~= set_int_range(0, n)) by {
                    assert forall|i: int| #[trigger] reached(cs).contains(i) <==> set_int_range(0, n).contains(i) by {
                        if 0 <= i < n {
                            let p = lemma_index_onto(width, height, i);
                            assert(in_tree(cs, width, p));
                        }
                    }
                }
                lemma_int_range(0, n);
                assert forall|i: int| 0 <= i < cs.len() implies type_of(#[trigger] cs[i]@)
                    == CellType::Visited by {
                    let p = lemma_index_onto(width, height, i);
                    assert(in_tree(cs, width, p));
                }
                assert forall|a: Pos, b: Pos|
                    inside(a, width, height) && inside(b, width, height) implies #[trigger] connected(
                    cs,
                    width,
                    height,
                    a,
                    b,
                ) by {
                    assert(in_tree(cs, width, a));
                    assert(in_tree(cs, width, b));
                    assert(connected(cs, width, height, a, root));
                    assert(connected(cs, width, height, b, root));
                    lemma_connected_sym(cs, width, height, b, root);
                    lemma_connected_trans(cs, width, height, a, root, b);
                }
            }
        }

        proof {
            assert(done + Seq::<(Pos, Pos)>::empty() =~= done);
            assert(opened_as_run(
                steps_view(steps@),
                prims_run(width, height, old(draws).spec_words(), n_init, tree_init, list_init),
            ));
        }
        Some(steps)
    }
}

} // verus!
