//! The Aldous-Broder algorithm: a random walk that knocks down the wall into
//! every cell it enters for the first time.
use vstd::prelude::*;

use vstd::set_lib::{lemma_int_range, set_int_range};

use crate::cell::{cell_of, type_of, with_type, Cell, CellType};
use crate::generators::generator::{
    lemma_frame_mark, lemma_frame_retype, lemma_frame_wall, lemma_frame_walling, lemma_mark_cells,
    lemma_progress_finish_step, lemma_progress_mark, lemma_progress_retype, lemma_progress_walling,
    progress, type_is, walls_every_cell, MazeGenerator,
};
use crate::generators::paths::{
    connected, inside, lemma_connected_monotone, lemma_connected_passage, lemma_connected_refl,
    lemma_connected_sym, lemma_connected_trans, lemma_no_open_sides, lemma_open_one_passage,
    lemma_open_sides_add, lemma_open_sides_same, lemma_passages_same_walls, open_sides, passage,
    perfect_maze, pos_index, Pos,
};
use crate::generators::trace::{change_index, flatten, replay_new, steps_view};
use crate::generators::walls::{facing, frame_closed, lemma_full_and_empty_walls, same_walls, walled};
use crate::maze::{lemma_index_in_bounds, Maze, MazeChange};
use crate::utils::{
    choose_random_cell, neighbor_in, neighbor_search, pick_random_neighbor, random_cell, scale, Draws,
};

verus! {

/// Builds a maze by a random walk (Aldous-Broder).
pub struct AdlousBroder {
    total_cells: usize,
    visited_cells: usize,
}

impl AdlousBroder {
    pub fn new() -> (g: AdlousBroder)
        ensures
            g.spec_total_cells() == 0,
            g.spec_visited_cells() == 0,
    {
        AdlousBroder { total_cells: 0, visited_cells: 0 }
    }

    /// Number of cells of the maze being built.
    pub closed spec fn spec_total_cells(&self) -> nat {
        self.total_cells as nat
    }

    /// Number of cells the walk has counted as reached.
    pub closed spec fn spec_visited_cells(&self) -> nat {
        self.visited_cells as nat
    }
}

/// Exactly one cell is `Current` and every other cell is `Default`.
pub open spec fn one_current_rest_default(cells: Seq<Cell>) -> bool {
    exists|j: int|
        #![trigger cells[j]]
        0 <= j < cells.len() && type_of(cells[j]@) == CellType::Current && forall|i: int|
            0 <= i < cells.len() && i != j ==> type_of(#[trigger] cells[i]@) == CellType::Default
}

/// The step turns every `Visited` cell of `before` back into `Default`,
/// keeping its walls: one change per such cell, in row-major order, and no
/// other change.
pub open spec fn resets_visited(step: Seq<MazeChange>, before: Seq<Cell>, width: u32) -> bool {
    &&& forall|k: int|
        0 <= k < step.len() ==> {
            let i = change_index(width, #[trigger] step[k]);
            &&& 0 <= i < before.len()
            &&& type_of(before[i]@) == CellType::Visited
            &&& step[k].old == before[i]
            &&& step[k].new == cell_of(with_type(before[i]@, CellType::Default))
        }
    &&& forall|k1: int, k2: int|
        0 <= k1 < k2 < step.len() ==> change_index(width, #[trigger] step[k1]) < change_index(
            width,
            #[trigger] step[k2],
        )
    &&& forall|i: int|
        0 <= i < before.len() && type_of(#[trigger] before[i]@) == CellType::Visited ==> exists|k: int|
            0 <= k < step.len() && change_index(width, step[k]) == i
}

/// No cell but the one at index `i0` is `Visited`.
pub open spec fn visited_only_at(cells: Seq<Cell>, i0: int) -> bool {
    forall|i: int| 0 <= i < cells.len() && i != i0 ==> type_of(#[trigger] cells[i]@) != CellType::Visited
}

/// The random walk, read off the words from `next` on: each word picks a
/// direction (`scale(word, 4)`: north, south, west, east); a direction that
/// leads out of the grid is skipped, any other moves the walker there and
/// counts that cell. Whether the walk counts `target` cells before the words
/// run out.
pub open spec fn walk_reaches_all(
    width: u32,
    height: u32,
    words: Seq<u32>,
    next: int,
    walker: Pos,
    counted: Set<int>,
    target: int,
) -> bool
    decreases words.len() - next,
{
    if counted.len() >= target {
        true
    } else if next < 0 || next >= words.len() {
        false
    } else {
        match neighbor_in(walker.0, walker.1, width, height, scale(words[next], 4)) {
            Some(p) => walk_reaches_all(
                width,
                height,
                words,
                next + 1,
                p,
                counted.insert(pos_index(width, p)),
                target,
            ),
            None => walk_reaches_all(width, height, words, next + 1, walker, counted, target),
        }
    }
}

/// The cells the walk moves to, in order, until it has counted `target`
/// cells or the words run out (the same walk as `walk_reaches_all`).
pub open spec fn walk_moves(
    width: u32,
    height: u32,
    words: Seq<u32>,
    next: int,
    walker: Pos,
    counted: Set<int>,
    target: int,
) -> Seq<Pos>
    decreases words.len() - next,
{
    if counted.len() >= target || next < 0 || next >= words.len() {
        Seq::empty()
    } else {
        match neighbor_in(walker.0, walker.1, width, height, scale(words[next], 4)) {
            Some(p) => seq![p] + walk_moves(
                width,
                height,
                words,
                next + 1,
                p,
                counted.insert(pos_index(width, p)),
                target,
            ),
            None => walk_moves(width, height, words, next + 1, walker, counted, target),
        }
    }
}

/// The step's last change is at `p`.
pub open spec fn ends_at(step: Seq<MazeChange>, p: Pos) -> bool {
    step.len() > 0 && (step.last().row, step.last().col) == p
}

/// The cells (by index) the walk has entered: its first cell and the cells of
/// `moves`.
pub open spec fn entered(first: Pos, moves: Seq<Pos>, width: u32) -> Set<int>
    decreases moves.len(),
{
    if moves.len() == 0 {
        set![pos_index(width, first)]
    } else {
        entered(first, moves.drop_last(), width).insert(pos_index(width, moves.last()))
    }
}

/// The step opens the wall between neighbours `a` and `b`: its second and
/// third changes clear the facing wall of `a`, then of `b`.
pub open spec fn opens_between(step: Seq<MazeChange>, a: Pos, b: Pos) -> bool {
    &&& facing(a.0, a.1, b.0, b.1) is Some
    &&& step.len() >= 3
    &&& (step[1].row, step[1].col) == a
    &&& (step[2].row, step[2].col) == b
    &&& step[1].new@ == step[1].old@ & !facing(a.0, a.1, b.0, b.1).unwrap().0
    &&& step[2].new@ == step[2].old@ & !facing(a.0, a.1, b.0, b.1).unwrap().1
}

/// Before a last step, the steps end with one step per move of the walk from
/// `first`, each ending at the cell moved to, and opening the wall it crosses
/// exactly when it enters that cell for the first time.
pub open spec fn walked_as(steps: Seq<Seq<MazeChange>>, first: Pos, moves: Seq<Pos>, width: u32) -> bool {
    &&& steps.len() >= moves.len() + 1
    &&& forall|t: int|
        0 <= t < moves.len() ==> {
            let step = #[trigger] steps[steps.len() - 1 - moves.len() + t];
            let prev = if t == 0 {
                first
            } else {
                moves[t - 1]
            };
            &&& ends_at(step, moves[t])
            &&& (opens_between(step, prev, moves[t]) <==> !entered(first, moves.take(t), width).contains(
                pos_index(width, moves[t]),
            ))
        }
}

/// A walk that still has cells to count moves next to the neighbour the
/// search finds.
proof fn lemma_walk_moves_step(
    width: u32,
    height: u32,
    words: Seq<u32>,
    next: int,
    walker: Pos,
    counted: Set<int>,
    target: int,
)
    requires
        0 <= next,
        counted.len() < target,
    ensures
        ({
            let (res, pos) = neighbor_search(walker.0, walker.1, width, height, words, next);
            res matches Some(p) ==> walk_moves(width, height, words, next, walker, counted, target)
                == seq![p] + walk_moves(
                width,
                height,
                words,
                pos,
                p,
                counted.insert(pos_index(width, p)),
                target,
            )
        }),
    decreases words.len() - next,
{
    if next < words.len() {
        if neighbor_in(walker.0, walker.1, width, height, scale(words[next], 4)) is None {
            lemma_walk_moves_step(width, height, words, next + 1, walker, counted, target);
        }
    }
}

/// A walk that still has cells to count finds its next neighbour before the
/// words run out, and goes on from there.
proof fn lemma_walk_reaches_step(
    width: u32,
    height: u32,
    words: Seq<u32>,
    next: int,
    walker: Pos,
    counted: Set<int>,
    target: int,
)
    requires
        0 <= next,
        counted.len() < target,
        walk_reaches_all(width, height, words, next, walker, counted, target),
    ensures
        ({
            let (res, pos) = neighbor_search(walker.0, walker.1, width, height, words, next);
            &&& res is Some
            &&& walk_reaches_all(
                width,
                height,
                words,
                pos,
                res->0,
                counted.insert(pos_index(width, res->0)),
                target,
            )
        }),
    decreases words.len() - next,
{
    if next < words.len() {
        if neighbor_in(walker.0, walker.1, width, height, scale(words[next], 4)) is None {
            lemma_walk_reaches_step(width, height, words, next + 1, walker, counted, target);
        }
    }
}

/// No passage closes from `cells` to `new`.
pub open spec fn passages_kept(cells: Seq<Cell>, new: Seq<Cell>, width: u32, height: u32) -> bool {
    forall|a: Pos, b: Pos|
        inside(a, width, height) && inside(b, width, height) && #[trigger] passage(cells, width, a, b)
            ==> #[trigger] passage(new, width, a, b)
}

/// The cells the walk has counted (`counted`: its first cell and every cell
/// it has knocked a wall down into) lie in the grid; the walker's cell is
/// `Current` and every other counted cell is `Visited`.
pub open spec fn walk_counted(cells: Seq<Cell>, width: u32, walker: Pos, counted: Set<int>) -> bool {
    &&& counted.finite()
    &&& forall|i: int| #[trigger] counted.contains(i) ==> 0 <= i < cells.len()
    &&& type_of(cells[pos_index(width, walker)]@) == CellType::Current
    &&& forall|i: int|
        #[trigger] counted.contains(i) && i != pos_index(width, walker) ==> type_of(cells[i]@)
            == CellType::Visited
}

/// The counted cells form a perfect maze that grows: the walker's cell is
/// counted, every cell not counted has all four walls and is not `Visited`,
/// every counted cell reaches the walker, and there is one open boundary
/// fewer than counted cells.
pub open spec fn walk_tree(
    cells: Seq<Cell>,
    width: u32,
    height: u32,
    walker: Pos,
    counted: Set<int>,
) -> bool {
    &&& counted.contains(pos_index(width, walker))
    &&& forall|i: int|
        0 <= i < cells.len() && !counted.contains(i) ==> walled(#[trigger] cells[i]) && type_of(
            cells[i]@,
        ) != CellType::Visited
    &&& forall|p: Pos|
        inside(p, width, height) && counted.contains(pos_index(width, p)) ==> #[trigger] connected(
            cells,
            width,
            height,
            p,
            walker,
        )
    &&& open_sides(cells, width, height).len() + 1 == counted.len()
}

/// Cell `b` is never counted: it is not counted yet, and it is `Visited`
/// unless the walker stands on it.
pub open spec fn walk_blocked(cells: Seq<Cell>, width: u32, walker: Pos, counted: Set<int>, b: int) -> bool {
    &&& 0 <= b < cells.len()
    &&& !counted.contains(b)
    &&& (b == pos_index(width, walker) || type_of(cells[b]@) == CellType::Visited)
}

/// One step of the walk from `walker` to its neighbour `nb`: the walker's
/// cell becomes `Visited` (`cells1`), the wall between them is opened when
/// `nb` is not `Visited` (`cells2`), and `nb` becomes `Current` (`cells3`).
/// The cell `nb` is counted exactly when the wall was opened; a blocked cell
/// stays blocked, and a growing perfect maze stays one.
proof fn lemma_walk_step(
    cells: Seq<Cell>,
    width: u32,
    height: u32,
    walker: Pos,
    nb: Pos,
    cells1: Seq<Cell>,
    cells2: Seq<Cell>,
    cells3: Seq<Cell>,
    carved: bool,
    counted: Set<int>,
    b: int,
)
    requires
        cells.len() == width as int * height as int,
        inside(walker, width, height),
        inside(nb, width, height),
        facing(walker.0, walker.1, nb.0, nb.1) is Some,
        walk_counted(cells, width, walker, counted),
        ({
            let x = cells1[pos_index(width, walker)];
            &&& cells1 == cells.update(pos_index(width, walker), x)
            &&& type_of(x@) == CellType::Visited
            &&& same_walls(x, cells[pos_index(width, walker)])
        }),
        carved == (type_of(cells1[pos_index(width, nb)]@) != CellType::Visited),
        carved ==> {
            let (w1, w2) = facing(walker.0, walker.1, nb.0, nb.1).unwrap();
            let n1 = cell_of(cells1[pos_index(width, walker)]@ & !w1);
            let n2 = cell_of(cells1[pos_index(width, nb)]@ & !w2);
            cells2 == cells1.update(pos_index(width, walker), n1).update(pos_index(width, nb), n2)
        },
        !carved ==> cells2 == cells1,
        ({
            let y = cells3[pos_index(width, nb)];
            &&& cells3 == cells2.update(pos_index(width, nb), y)
            &&& type_of(y@) == CellType::Current
            &&& same_walls(y, cells2[pos_index(width, nb)])
        }),
    ensures
        ({
            let counted3 = if carved {
                counted.insert(pos_index(width, nb))
            } else {
                counted
            };
            &&& cells3.len() == cells.len()
            &&& walk_counted(cells3, width, nb, counted3)
            &&& counted3.len() == counted.len() + if carved {
                1int
            } else {
                0
            }
            &&& walk_blocked(cells, width, walker, counted, b) ==> walk_blocked(
                cells3,
                width,
                nb,
                counted3,
                b,
            )
            &&& walk_tree(cells, width, height, walker, counted) ==> walk_tree(
                cells3,
                width,
                height,
                nb,
                counted3,
            )
            &&& walk_tree(cells, width, height, walker, counted) ==> counted3 == counted.insert(
                pos_index(width, nb),
            )
        }),
{
    let iw = pos_index(width, walker);
    let inb = pos_index(width, nb);
    let counted3 = if carved {
        counted.insert(inb)
    } else {
        counted
    };
    lemma_index_in_bounds(width, height, walker.0, walker.1);
    lemma_index_in_bounds(width, height, nb.0, nb.1);
    if iw == inb {
        crate::maze::lemma_index_injective(width, walker.0, walker.1, nb.0, nb.1);
    }
    assert(iw != inb);
    // cells -> cells1: walls unchanged
    assert forall|i: int| 0 <= i < cells.len() implies same_walls(#[trigger] cells1[i], cells[i]) by {}
    lemma_passages_same_walls(cells, cells1, width, height);
    // cells1 -> cells2
    if carved {
        let (w1, w2) = facing(walker.0, walker.1, nb.0, nb.1).unwrap();
        let o1 = cells1[iw];
        let o2 = cells1[inb];
        crate::generators::walls::lemma_wall_bits(o1@, w1, 0);
        crate::generators::walls::lemma_wall_bits(o2@, w2, 0);
        crate::cell::lemma_cell_of(o1@, o1);
        crate::cell::lemma_cell_of(o2@, o2);
        assert(w1 & 0xf0u8 == 0 && w2 & 0xf0u8 == 0) by (bit_vector)
            requires
                w1 == 1u8 || w1 == 2u8 || w1 == 4u8 || w1 == 8u8,
                w2 == 1u8 || w2 == 2u8 || w2 == 4u8 || w2 == 8u8,
        ;
        crate::cell::lemma_wall_change_keeps_type(o1@, w1);
        crate::cell::lemma_wall_change_keeps_type(o2@, w2);
        crate::cell::lemma_cell_of(o1@ & !w1, o1);
        crate::cell::lemma_cell_of(o2@ & !w2, o2);
        lemma_open_one_passage(cells1, width, height, walker, nb, cell_of(o1@ & !w1), cell_of(o2@ & !w2));
    }
    // cells2 -> cells3: walls unchanged
    assert forall|i: int| 0 <= i < cells2.len() implies same_walls(#[trigger] cells3[i], cells2[i]) by {}
    lemma_passages_same_walls(cells2, cells3, width, height);
    assert(passages_kept(cells, cells3, width, height));
    // types
    assert forall|i: int| 0 <= i < cells.len() && i != iw && i != inb implies cells3[i] == cells[i] by {}
    assert(type_of(cells3[iw]@) == CellType::Visited);
    assert(type_of(cells3[inb]@) == CellType::Current);
    // counted cells
    if carved {
        assert(!counted.contains(inb));
    }
    assert forall|i: int| #[trigger] counted3.contains(i) && i != inb implies type_of(cells3[i]@)
        == CellType::Visited by {
        if i != iw {
            assert(cells3[i] == cells[i]);
        }
    }
    assert(walk_counted(cells3, width, nb, counted3));
    if walk_blocked(cells, width, walker, counted, b) {
        if b != iw && b != inb {
            assert(cells3[b] == cells[b]);
        }
    }
    if walk_tree(cells, width, height, walker, counted) {
        // open boundaries
        if carved {
            assert(walled(cells[inb]));
            assert(!passage(cells, width, walker, nb));
            assert forall|a: Pos, b2: Pos| inside(a, width, height) && inside(b2, width, height) implies (
            #[trigger] passage(cells3, width, a, b2) <==> passage(cells, width, a, b2) || (a == walker
                && b2 == nb) || (a == nb && b2 == walker)) by {
                assert(passage(cells3, width, a, b2) == passage(cells2, width, a, b2));
                assert(passage(cells1, width, a, b2) == passage(cells, width, a, b2));
            }
            lemma_open_sides_add(cells, cells3, width, height, walker, nb);
        } else {
            assert(counted.contains(inb));
            assert(counted3 =~= counted.insert(inb));
            assert forall|a: Pos, b2: Pos| inside(a, width, height) && inside(b2, width, height) implies (
            #[trigger] passage(cells3, width, a, b2) <==> passage(cells, width, a, b2)) by {
                assert(passage(cells3, width, a, b2) == passage(cells2, width, a, b2));
                assert(passage(cells1, width, a, b2) == passage(cells, width, a, b2));
            }
            lemma_open_sides_same(cells, cells3, width, height);
        }
        // cells not counted
        assert forall|i: int| 0 <= i < cells3.len() && !counted3.contains(i) implies walled(
            #[trigger] cells3[i],
        ) && type_of(cells3[i]@) != CellType::Visited by {
            assert(cells3[i] == cells[i]);
        }
        // connectivity
        assert(connected(cells3, width, height, walker, nb)) by {
            if carved {
                lemma_connected_passage(cells3, width, height, walker, nb);
            } else {
                assert(connected(cells, width, height, nb, walker));
                lemma_connected_monotone(cells, cells3, width, height, nb, walker);
                lemma_connected_sym(cells3, width, height, nb, walker);
            }
        }
        assert forall|p: Pos|
            inside(p, width, height) && counted3.contains(pos_index(width, p)) implies #[trigger] connected(
            cells3,
            width,
            height,
            p,
            nb,
        ) by {
            lemma_index_in_bounds(width, height, p.0, p.1);
            let ip = pos_index(width, p);
            if ip == inb {
                crate::maze::lemma_index_injective(width, p.0, p.1, nb.0, nb.1);
                lemma_connected_refl(cells3, width, height, nb);
            } else {
                assert(connected(cells, width, height, p, walker));
                lemma_connected_monotone(cells, cells3, width, height, p, walker);
                lemma_connected_trans(cells3, width, height, p, walker, nb);
            }
        }
    }
}

impl MazeGenerator for AdlousBroder {
    open spec fn accepts(&self, width: u32, height: u32) -> bool {
        width > 0 && height > 0
    }

    /// Wall every cell, start at a random cell, then walk to random
    /// neighbours, knocking down the wall into each neighbour that is not yet
    /// `Visited`, until as many cells have been reached as the maze has. The
    /// walk's current cell is `Current`, cells it has left are `Visited`, and
    /// at the end every `Visited` cell becomes `Default` again. A cell other
    /// than the first that is `Visited` from the start is never counted, so
    /// then the walk only ends when the draws run out.
    fn generate_maze_steps(&mut self, original_maze: &Maze, draws: &mut Draws) -> (r: Option<
        Vec<Vec<MazeChange>>,
    >)
        ensures
            final(self).spec_total_cells() == original_maze.spec_cells().len(),
            r is Some ==> final(self).spec_visited_cells() == final(self).spec_total_cells(),
            ({
                let n = old(draws).spec_next() as int;
                let words = old(draws).spec_words();
                let first = random_cell(words, n, original_maze.spec_height(), original_maze.spec_width());
                let i0 = pos_index(original_maze.spec_width(), first);
                &&& n + 2 <= words.len()
                &&& visited_only_at(original_maze.spec_cells(), i0)
                &&& walk_reaches_all(
                    original_maze.spec_width(),
                    original_maze.spec_height(),
                    words,
                    n + 2,
                    first,
                    set![i0],
                    original_maze.spec_width() as int * original_maze.spec_height() as int,
                )
            }) ==> r is Some,
            r is Some ==> forall|i: int|
                0 <= i < original_maze.spec_cells().len() && i != pos_index(
                    original_maze.spec_width(),
                    random_cell(
                        old(draws).spec_words(),
                        old(draws).spec_next() as int,
                        original_maze.spec_height(),
                        original_maze.spec_width(),
                    ),
                ) ==> type_of(#[trigger] original_maze.spec_cells()[i]@) != CellType::Visited,
            r matches Some(steps) ==> steps@.len() > 0 && walls_every_cell(
                steps@[0]@,
                original_maze.spec_cells(),
                original_maze.spec_width(),
            ),
            r matches Some(steps) ==> {
                let n = old(draws).spec_next() as int;
                let words = old(draws).spec_words();
                let first = random_cell(words, n, original_maze.spec_height(), original_maze.spec_width());
                let moves = walk_moves(
                    original_maze.spec_width(),
                    original_maze.spec_height(),
                    words,
                    n + 2,
                    first,
                    set![pos_index(original_maze.spec_width(), first)],
                    original_maze.spec_width() as int * original_maze.spec_height() as int,
                );
                &&& steps@.len() == moves.len() + 3
                &&& walked_as(
                    steps_view(steps@),
                    first,
                    walk_moves(
                        original_maze.spec_width(),
                        original_maze.spec_height(),
                        words,
                        n + 2,
                        first,
                        set![pos_index(original_maze.spec_width(), first)],
                        original_maze.spec_width() as int * original_maze.spec_height() as int,
                    ),
                    original_maze.spec_width(),
                )
            },
            r matches Some(steps) ==> {
                let built = replay_new(
                    original_maze.spec_cells(),
                    original_maze.spec_width(),
                    flatten(steps_view(steps@)),
                );
                &&& frame_closed(built, original_maze.spec_width(), original_maze.spec_height())
                &&& one_current_rest_default(built)
                &&& perfect_maze(built, original_maze.spec_width(), original_maze.spec_height())
                &&& resets_visited(
                    steps_view(steps@).last(),
                    replay_new(
                        original_maze.spec_cells(),
                        original_maze.spec_width(),
                        flatten(steps_view(steps@).drop_last()),
                    ),
                    original_maze.spec_width(),
                )
            },
    {
        let mut steps: Vec<Vec<MazeChange>> = Vec::new();
        let mut maze = original_maze.clone();
        let ghost start = maze.spec_cells();
        let ghost width = maze.spec_width();
        let ghost height = maze.spec_height();

        // Initialize total cells and visited cells
        self.total_cells = maze.get_cells().len();
        self.visited_cells = 0;

        // Set all cells to be walls
        let walling_step: Vec<MazeChange> = self.add_all_walls(&mut maze);
        proof {
            lemma_progress_walling(start, width, height, walling_step@, maze, true);
            crate::generators::trace::lemma_full_pass_order(
                start,
                width,
                height,
                walling_step@,
                maze.spec_cells(),
                crate::generators::generator::every_position(),
                crate::generators::generator::with_all_walls(),
            );
            assert(walls_every_cell(walling_step@, start, width));
            assert(start.len() > 0) by {
                assert(width as int * height as int > 0) by (nonlinear_arith)
                    requires
                        width > 0,
                        height > 0,
                ;
            }
            lemma_frame_walling(start, width, height, walling_step@, maze.spec_cells(), true);
            assert(0x0fu8 & 0xf0u8 == 0) by (bit_vector);
            assert forall|i: int| 0 <= i < start.len() implies type_of(#[trigger] maze.spec_cells()[i]@)
                == type_of(start[i]@) && walled(maze.spec_cells()[i]) by {
                assert(maze.spec_cells()[i] == cell_of(start[i]@ | 0x0f));
                crate::cell::lemma_cell_of(start[i]@ | 0x0f, start[i]);
                crate::cell::lemma_wall_change_keeps_type(start[i]@, 0x0f);
                lemma_full_and_empty_walls(start[i]@);
            }
        }
        if walling_step.len() > 0 {
            proof {
                lemma_progress_finish_step(start, width, height, steps@, walling_step, maze);
            }
            steps.push(walling_step);
        } else {
            proof {
                assert(walling_step@ =~= Seq::<MazeChange>::empty());
            }
        }

        let (mut row, mut col) = match choose_random_cell(maze.height(), maze.width(), draws) {
            Some(p) => p,
            None => {
                return None;
            },
        };

        let mut first_step: Vec<MazeChange> = Vec::new();
        let mut first = maze.get_cell(row, col);
        first.set_type(CellType::Current);
        let ghost m0 = maze;
        self.mark_cell(&mut maze, row, col, first, &mut first_step);
        // The walk can count every cell unless a cell other than the first
        // one is `Visited` from the start; such a cell is never counted.
        let ghost is = pos_index(width, (row, col));
        let ghost clean = forall|i: int|
            0 <= i < start.len() && i != is ==> type_of(#[trigger] start[i]@) != CellType::Visited;
        let ghost blocked: int = if clean {
            0
        } else {
            choose|i: int| 0 <= i < start.len() && i != is && type_of(#[trigger] start[i]@) == CellType::Visited
        };
        let ghost mut counted: Set<int> = set![is];
        let ghost promised = {
            let n = old(draws).spec_next() as int;
            let words = old(draws).spec_words();
            let first = random_cell(words, n, height, width);
            let i0 = pos_index(width, first);
            &&& n + 2 <= words.len()
            &&& visited_only_at(start, i0)
            &&& walk_reaches_all(width, height, words, n + 2, first, set![i0], width as int * height as int)
        };
        proof {
            lemma_progress_mark(
                start,
                width,
                height,
                steps@,
                Seq::empty(),
                m0,
                first_step@,
                maze,
                row,
                col,
                first,
            );
            lemma_frame_mark(m0, Seq::empty(), maze, first_step@, row, col, first, true);
            lemma_progress_finish_step(start, width, height, steps@, first_step, maze);
            lemma_mark_cells(m0, Seq::empty(), maze, first_step@, row, col, first);
            crate::cell::lemma_set_type_then_get_type(m0.cell_at(row, col)@, CellType::Current);
            lemma_index_in_bounds(width, height, row, col);
            let cs = maze.spec_cells();
            assert forall|i: int| 0 <= i < cs.len() && i != is implies cs[i] == m0.spec_cells()[i] by {}
            assert(walk_counted(cs, width, (row, col), counted));
            if clean {
                assert forall|i: int| 0 <= i < cs.len() implies walled(#[trigger] cs[i]) by {
                    if i != is {
                        assert(cs[i] == m0.spec_cells()[i]);
                    }
                }
                lemma_no_open_sides(cs, width, height);
                assert forall|p: Pos|
                    inside(p, width, height) && counted.contains(pos_index(width, p)) implies #[trigger] connected(
                    cs,
                    width,
                    height,
                    p,
                    (row, col),
                ) by {
                    lemma_index_in_bounds(width, height, p.0, p.1);
                    crate::maze::lemma_index_injective(width, p.0, p.1, row, col);
                    lemma_connected_refl(cs, width, height, p);
                }
                assert(walk_tree(cs, width, height, (row, col), counted));
            } else {
                assert(walk_blocked(cs, width, (row, col), counted, blocked));
            }
        }
        steps.push(first_step);
        self.visited_cells = self.visited_cells + 1;
        proof {
            assert(width as int * height as int >= 1) by (nonlinear_arith)
                requires
                    width > 0,
                    height > 0,
            ;
        }

        let ghost first_pos: Pos = (row, col);
        let ghost moves_all = walk_moves(
            width,
            height,
            old(draws).spec_words(),
            old(draws).spec_next() as int + 2,
            (row, col),
            set![is],
            width as int * height as int,
        );
        let ghost mut moved: Seq<Pos> = Seq::empty();
        let ghost base = steps@.len();
        proof {
            assert(base == 2);
        }
        proof {
            assert(moves_all == walk_moves(
                width,
                height,
                draws.spec_words(),
                draws.spec_next() as int,
                (row, col),
                counted,
                width as int * height as int,
            ));
        }
        while self.total_cells > self.visited_cells
            invariant
                steps@.len() == base + moved.len(),
                steps@.len() > 0 && steps@[0]@ == walling_step@,
                forall|t: int| 0 <= t < moved.len() ==> ends_at(#[trigger] steps@[base + t]@, moved[t]),
                (row, col) == if moved.len() == 0 {
                    first_pos
                } else {
                    moved.last()
                },
                clean ==> counted == entered(first_pos, moved, width),
                clean ==> forall|t: int|
                    0 <= t < moved.len() ==> (opens_between(
                        #[trigger] steps@[base + t]@,
                        if t == 0 {
                            first_pos
                        } else {
                            moved[t - 1]
                        },
                        moved[t],
                    ) <==> !entered(first_pos, moved.take(t), width).contains(pos_index(width, moved[t]))),
                clean ==> moves_all == moved + walk_moves(
                    width,
                    height,
                    draws.spec_words(),
                    draws.spec_next() as int,
                    (row, col),
                    counted,
                    width as int * height as int,
                ),
                progress(start, width, height, steps@, Seq::empty(), maze),
                frame_closed(maze.spec_cells(), width, height),
                start == original_maze.spec_cells(),
                width == original_maze.spec_width(),
                height == original_maze.spec_height(),
                row < height,
                col < width,
                self.total_cells == start.len(),
                start.len() == width as int * height as int,
                self.visited_cells <= self.total_cells,
                draws.wf(),
                old(draws).advanced_to(draws),
                walk_counted(maze.spec_cells(), width, (row, col), counted),
                counted.len() == self.visited_cells,
                clean ==> walk_tree(maze.spec_cells(), width, height, (row, col), counted),
                !clean ==> walk_blocked(maze.spec_cells(), width, (row, col), counted, blocked),
                promised ==> clean,
                promised ==> walk_reaches_all(
                    width,
                    height,
                    draws.spec_words(),
                    draws.spec_next() as int,
                    (row, col),
                    counted,
                    width as int * height as int,
                ),
                promised == ({
                    let n = old(draws).spec_next() as int;
                    let words = old(draws).spec_words();
                    let first = random_cell(words, n, height, width);
                    let i0 = pos_index(width, first);
                    &&& n + 2 <= words.len()
                    &&& visited_only_at(start, i0)
                    &&& walk_reaches_all(width, height, words, n + 2, first, set![i0], width as int * height as int)
                }),
            decreases draws.spec_words().len() - draws.spec_next(),
        {
            proof {
                lemma_walk_moves_step(
                    width,
                    height,
                    draws.spec_words(),
                    draws.spec_next() as int,
                    (row, col),
                    counted,
                    width as int * height as int,
                );
                if promised {
                    lemma_walk_reaches_step(
                        width,
                        height,
                        draws.spec_words(),
                        draws.spec_next() as int,
                        (row, col),
                        counted,
                        width as int * height as int,
                    );
                }
            }
            let (next_row, next_col) = match pick_random_neighbor(
                row,
                col,
                maze.width(),
                maze.height(),
                draws,
            ) {
                Some(p) => p,
                None => {
                    return None;
                },
            };

            let mut step: Vec<MazeChange> = Vec::new();
            let ghost cells0 = maze.spec_cells();
            let ghost visited0 = self.visited_cells;
            let ghost counted0 = counted;

            // mark old as visited
            let mut old = maze.get_cell(row, col);
            old.set_type(CellType::Visited);
            let ghost m1 = maze;
            self.mark_cell(&mut maze, row, col, old, &mut step);
            proof {
                lemma_progress_mark(
                    start,
                    width,
                    height,
                    steps@,
                    Seq::empty(),
                    m1,
                    step@,
                    maze,
                    row,
                    col,
                    old,
                );
                lemma_frame_mark(m1, Seq::empty(), maze, step@, row, col, old, true);
                lemma_mark_cells(m1, Seq::empty(), maze, step@, row, col, old);
                crate::cell::lemma_set_type_then_get_type(m1.cell_at(row, col)@, CellType::Visited);
                lemma_index_in_bounds(width, height, row, col);
                assert(type_of(m1.cell_at(row, col)@) == CellType::Current);
                assert(step@.len() == 1);
            }
            let ghost cells1 = maze.spec_cells();
            let ghost s1 = step@;

            // If it's not yet visited, carve the path and mark as visited
            let neighbor = maze.get_cell(next_row, next_col);
            if neighbor.get_type() != CellType::Visited {
                let ghost m2 = maze;
                let ghost s2 = step@;
                self.remove_wall_between(&mut maze, row, col, next_row, next_col, &mut step);
                proof {
                    crate::generators::generator::lemma_progress_wall(
                        start,
                        width,
                        height,
                        steps@,
                        s2,
                        m2,
                        step@,
                        maze,
                        row,
                        col,
                        next_row,
                        next_col,
                        false,
                    );
                    lemma_frame_wall(m2, s2, maze, step@, row, col, next_row, next_col, false, true);
                }
                self.visited_cells = self.visited_cells + 1;
            }

            let ghost cells2 = maze.spec_cells();
            let ghost carved = self.visited_cells != visited0;

            // Mark the next cell as current
            let mut next = maze.get_cell(next_row, next_col);
            next.set_type(CellType::Current);
            let ghost m3 = maze;
            let ghost s3 = step@;
            self.mark_cell(&mut maze, next_row, next_col, next, &mut step);
            proof {
                lemma_progress_mark(
                    start,
                    width,
                    height,
                    steps@,
                    s3,
                    m3,
                    step@,
                    maze,
                    next_row,
                    next_col,
                    next,
                );
                lemma_frame_mark(m3, s3, maze, step@, next_row, next_col, next, true);
                lemma_progress_finish_step(start, width, height, steps@, step, maze);
                lemma_mark_cells(m3, s3, maze, step@, next_row, next_col, next);
                crate::cell::lemma_set_type_then_get_type(m3.cell_at(next_row, next_col)@, CellType::Current);
                assert(step@.len() >= s3.len());
                assert(forall|q: int| 0 <= q < s3.len() ==> step@[q] == s3[q]);
                lemma_index_in_bounds(width, height, row, col);
                lemma_index_in_bounds(width, height, next_row, next_col);
                let iw = pos_index(width, (row, col));
                assert(cells1 == cells0.update(iw, cells1[iw]));
                assert(type_of(cells1[iw]@) == CellType::Visited);
                assert(same_walls(cells1[iw], cells0[iw]));
                lemma_walk_step(
                    cells0,
                    width,
                    height,
                    (row, col),
                    (next_row, next_col),
                    cells1,
                    cells2,
                    maze.spec_cells(),
                    carved,
                    counted,
                    blocked,
                );
                if carved {
                    counted = counted.insert(pos_index(width, (next_row, next_col)));
                }
            }

            let ghost steps_before = steps@;
            proof {
                assert(ends_at(step@, (next_row, next_col)));
                let old_moved = moved;
                let wk: Pos = (row, col);
                let nbp: Pos = (next_row, next_col);
                lemma_index_in_bounds(width, height, next_row, next_col);
                if carved {
                    let (w1, w2) = facing(row, col, next_row, next_col).unwrap();
                    let o1 = cells1[pos_index(width, wk)];
                    let o2 = cells1[pos_index(width, nbp)];
                    crate::cell::lemma_cell_of(o1@ & !w1, o1);
                    crate::cell::lemma_cell_of(o2@ & !w2, o2);
                    assert(s3.len() == 3);
                    assert(opens_between(step@, wk, nbp));
                } else {
                    assert(s3 == s1);
                    assert(type_of(cells2[pos_index(width, nbp)]@) == CellType::Visited);
                    assert(step@.len() == 2);
                    assert(!opens_between(step@, wk, nbp));
                }
                if clean {
                    if carved {
                        assert(!counted0.contains(pos_index(width, nbp)));
                    } else {
                        assert(counted0.contains(pos_index(width, nbp)));
                    }
                }
                moved = moved.push((next_row, next_col));
                assert(moved.drop_last() =~= old_moved);
                assert(moved.take(old_moved.len() as int) =~= old_moved);
                if clean {
                    let rest = walk_moves(
                        width,
                        height,
                        draws.spec_words(),
                        draws.spec_next() as int,
                        (next_row, next_col),
                        counted,
                        width as int * height as int,
                    );
                    assert(old_moved + (seq![(next_row, next_col)] + rest) =~= moved + rest);
                }
            }
            // push the step to the steps vector
            steps.push(step);
            proof {
                assert forall|t: int| 0 <= t < moved.len() implies ends_at(#[trigger] steps@[base + t]@, moved[t]) by {
                    if t < moved.len() - 1 {
                        assert(steps@[base + t] == steps_before[base + t]);
                    }
                }
                if clean {
                    assert forall|t: int| 0 <= t < moved.len() implies (opens_between(
                        #[trigger] steps@[base + t]@,
                        if t == 0 {
                            first_pos
                        } else {
                            moved[t - 1]
                        },
                        moved[t],
                    ) <==> !entered(first_pos, moved.take(t), width).contains(pos_index(width, moved[t]))) by {
                        if t < moved.len() - 1 {
                            assert(steps@[base + t] == steps_before[base + t]);
                            assert(moved.take(t) =~= moved.drop_last().take(t));
                            assert(moved[t] == moved.drop_last()[t]);
                            if t > 0 {
                                assert(moved[t - 1] == moved.drop_last()[t - 1]);
                            }
                        }
                    }
                }
            }

            // Move to the next cell
            row = next_row;
            col = next_col;
        }

        // Every cell has been counted.
        proof {
            let c4 = maze.spec_cells();
            lemma_int_range(0, c4.len() as int);
            assert(counted.subset_of(set_int_range(0, c4.len() as int)));
            vstd::set_lib::lemma_subset_equality(counted, set_int_range(0, c4.len() as int));
            if !clean {
                assert(set_int_range(0, c4.len() as int).contains(blocked));
            }
        }

        // Remove all visited cells and set them to default
        let ghost m4 = maze;
        let step = self.set_all_visited_to_default(&mut maze);
        proof {
            lemma_progress_retype(
                start,
                width,
                height,
                steps@,
                m4,
                step@,
                maze,
                type_is(m4.spec_cells(), CellType::Visited),
                CellType::Default,
            );
            let c4 = m4.spec_cells();
            assert forall|a: Pos, b: Pos|
                inside(a, width, height) && inside(b, width, height) implies #[trigger] connected(
                c4,
                width,
                height,
                a,
                b,
            ) by {
                lemma_index_in_bounds(width, height, a.0, a.1);
                lemma_index_in_bounds(width, height, b.0, b.1);
                assert(set_int_range(0, c4.len() as int).contains(pos_index(width, a)));
                assert(set_int_range(0, c4.len() as int).contains(pos_index(width, b)));
                assert(connected(c4, width, height, a, (row, col)));
                assert(connected(c4, width, height, b, (row, col)));
                lemma_connected_sym(c4, width, height, b, (row, col));
                lemma_connected_trans(c4, width, height, a, (row, col), b);
            }
            lemma_frame_retype(
                m4.spec_cells(),
                width,
                height,
                step@,
                maze.spec_cells(),
                type_is(m4.spec_cells(), CellType::Visited),
                CellType::Default, true);
            lemma_progress_finish_step(start, width, height, steps@, step, maze);
            let j = pos_index(width, (row, col));
            lemma_index_in_bounds(width, height, row, col);
            let c5 = maze.spec_cells();
            assert(type_of(c5[j]@) == CellType::Current);
            assert forall|i: int| 0 <= i < c5.len() && i != j implies type_of(#[trigger] c5[i]@)
                == CellType::Default by {
                assert(set_int_range(0, c4.len() as int).contains(i));
                assert(type_of(c4[i]@) == CellType::Visited);
                crate::cell::lemma_set_type_then_get_type(c4[i]@, CellType::Default);
                crate::cell::lemma_cell_of(with_type(c4[i]@, CellType::Default), c4[i]);
            }
            assert(0 <= j < c5.len() && type_of(c5[j]@) == CellType::Current && forall|i: int|
                0 <= i < c5.len() && i != j ==> type_of(#[trigger] c5[i]@) == CellType::Default);
            lemma_passages_same_walls(m4.spec_cells(), maze.spec_cells(), width, height);
            lemma_open_sides_same(m4.spec_cells(), maze.spec_cells(), width, height);
            assert forall|a: Pos, b: Pos|
                inside(a, width, height) && inside(b, width, height) implies #[trigger] connected(
                maze.spec_cells(),
                width,
                height,
                a,
                b,
            ) by {
                assert(connected(m4.spec_cells(), width, height, a, b));
                lemma_connected_monotone(m4.spec_cells(), maze.spec_cells(), width, height, a, b);
            }
        }
        let ghost steps_pre = steps_view(steps@);
        let ghost last = step@;
        proof {
            assert(flatten(steps_pre) + Seq::<MazeChange>::empty() =~= flatten(steps_pre));
            assert(m4.spec_cells() == replay_new(start, width, flatten(steps_pre)));
            let c4 = m4.spec_cells();
            assert forall|k: int| 0 <= k < last.len() implies {
                let i = change_index(width, #[trigger] last[k]);
                &&& 0 <= i < c4.len()
                &&& type_of(c4[i]@) == CellType::Visited
                &&& last[k].old == c4[i]
                &&& last[k].new == cell_of(with_type(c4[i]@, CellType::Default))
            } by {
                lemma_index_in_bounds(width, height, last[k].row, last[k].col);
            }
            assert forall|i: int| 0 <= i < c4.len() && type_of(#[trigger] c4[i]@) == CellType::Visited implies exists|k: int|
                0 <= k < last.len() && change_index(width, last[k]) == i by {
                assert(type_is(c4, CellType::Visited)(i));
            }
            assert(resets_visited(last, m4.spec_cells(), width));
        }
        steps.push(step);

        proof {
            assert(steps_view(steps@) =~= steps_pre.push(last));
            assert(steps_view(steps@).drop_last() =~= steps_pre);
            let built = replay_new(start, width, flatten(steps_view(steps@)));
            assert(built == maze.spec_cells());
            assert(frame_closed(built, width, height));
            assert(perfect_maze(built, width, height));
            assert(one_current_rest_default(built));
        }
        Some(steps)
    }
}

} // verus!
