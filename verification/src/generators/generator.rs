//! The interface of a maze generator, the cell operations that generators
//! share (each recording what it changes), and the builder that replays the
//! recorded steps forwards and backwards.
use vstd::prelude::*;

use crate::cell::{
    cell_of, type_bits, type_of, with_type, Cell, CellType, TYPE_MASK, WALL_E, WALL_MASK, WALL_N,
    WALL_S, WALL_W,
};
use crate::generators::trace::{
    change, distinct_positions, flatten, is_trace, lemma_pass_start, lemma_pass_step, lemma_trace_push, pass_prefix,
    steps_view,
};
use crate::generators::walls::{
    facing, frame_is, lemma_consistent_update_pair, lemma_consistent_update_same_walls,
    walls_consistent,
};
use crate::generators::aldous_broder::{
    one_current_rest_default, resets_visited, visited_only_at, walk_moves, walk_reaches_all, walked_as,
    AdlousBroder,
};
use crate::generators::paths::perfect_maze;
use crate::generators::builders::kruskals::{
    knocked_from, kruskal_order, removes_one_wall, shuffle_draws, Kruskals,
};
use crate::generators::builders::prims::{
    all_visited, default_except, opened_as_run, prims_run, reached, start_entries, Prims,
};
use crate::generators::recursive_division::{
    changes_keep_types, clears_every_cell, division_run, split_as_run, split_horizontal,
    RecursiveDivision,
};
use crate::generators::trace::{replay_new, replay_old, trace_ok};
use crate::maze::{cell_index, Maze, MazeChange};
use crate::utils::{random_cell, Draws};

verus! {

broadcast use crate::cell::group_cell_lemmas;

/// The cell that `mark_cell` writes: the type of `new_state` with the walls of `old`.
pub open spec fn marked(old: Cell, new_state: Cell) -> Cell {
    cell_of((new_state@ & TYPE_MASK) | (old@ & WALL_MASK))
}

/// Selects every position.
pub open spec fn every_position() -> spec_fn(int) -> bool {
    |i: int| true
}

/// Adds all four walls.
pub open spec fn with_all_walls() -> spec_fn(Cell) -> Cell {
    |c: Cell| cell_of(c@ | 0x0f)
}

/// The step adds all four walls to every cell of `cells`, one change per
/// cell in row-major order.
pub open spec fn walls_every_cell(step: Seq<MazeChange>, cells: Seq<Cell>, width: u32) -> bool {
    &&& step.len() == cells.len()
    &&& forall|k: int|
        0 <= k < step.len() ==> {
            &&& crate::generators::trace::change_index(width, #[trigger] step[k]) == k
            &&& step[k].old == cells[k]
            &&& step[k].new == cell_of(cells[k]@ | 0x0f)
        }
}

/// Removes all four walls.
pub open spec fn without_walls() -> spec_fn(Cell) -> Cell {
    |c: Cell| cell_of(c@ & !0x0fu8)
}

/// Selects the positions of `cells` whose type is not `t`.
pub open spec fn type_is_not(cells: Seq<Cell>, t: CellType) -> spec_fn(int) -> bool {
    |i: int| type_of(cells[i]@) != t
}

/// Selects the positions of `cells` whose type is `t`.
pub open spec fn type_is(cells: Seq<Cell>, t: CellType) -> spec_fn(int) -> bool {
    |i: int| type_of(cells[i]@) == t
}

/// Gives a cell type `t`, keeping its walls.
pub open spec fn retyped(t: CellType) -> spec_fn(Cell) -> Cell {
    |c: Cell| cell_of(with_type(c@, t))
}

/// The maze has the same size as `other` and is well formed.
pub open spec fn same_shape(m: Maze, other: Maze) -> bool {
    &&& m.wf()
    &&& m.spec_width() == other.spec_width()
    &&& m.spec_height() == other.spec_height()
}

/// What `mark_cell` does: the cell at (row, col) takes the type of
/// `new_state` and keeps its walls; one change is recorded when that alters
/// the cell, none otherwise.
pub open spec fn mark_effect(
    before: Maze,
    step: Seq<MazeChange>,
    after: Maze,
    step_after: Seq<MazeChange>,
    row: u32,
    col: u32,
    new_state: Cell,
) -> bool {
    let o = before.cell_at(row, col);
    let n = marked(o, new_state);
    &&& same_shape(after, before)
    &&& if n != o {
        &&& after.spec_cells() == before.spec_cells().update(
            cell_index(before.spec_width(), row, col),
            n,
        )
        &&& step_after == step.push(change(row, col, o, n))
    } else {
        &&& after.spec_cells() == before.spec_cells()
        &&& step_after == step
    }
}

/// What `remove_wall_between` (`adding` false) and `add_wall_between`
/// (`adding` true) do: when (r1, c1) and (r2, c2) are neighbours, the wall
/// between them is cleared (or set) on both sides and the two changes are
/// recorded, first cell first; otherwise nothing happens.
pub open spec fn wall_effect(
    before: Maze,
    step: Seq<MazeChange>,
    after: Maze,
    step_after: Seq<MazeChange>,
    r1: u32,
    c1: u32,
    r2: u32,
    c2: u32,
    adding: bool,
) -> bool {
    &&& same_shape(after, before)
    &&& match facing(r1, c1, r2, c2) {
        Some((w1, w2)) => {
            let o1 = before.cell_at(r1, c1);
            let o2 = before.cell_at(r2, c2);
            let n1 = if adding {
                cell_of(o1@ | w1)
            } else {
                cell_of(o1@ & !w1)
            };
            let n2 = if adding {
                cell_of(o2@ | w2)
            } else {
                cell_of(o2@ & !w2)
            };
            &&& after.spec_cells() == before.spec_cells().update(
                cell_index(before.spec_width(), r1, c1),
                n1,
            ).update(cell_index(before.spec_width(), r2, c2), n2)
            &&& step_after == step.push(change(r1, c1, o1, n1)).push(change(r2, c2, o2, n2))
        },
        None => {
            &&& after.spec_cells() == before.spec_cells()
            &&& step_after == step
        },
    }
}

/// A generator's state while it works: the finished steps and the step in
/// progress together are a faithful record of how the starting cells became
/// the working maze, whose walls are consistent.
pub open spec fn progress(
    start: Seq<Cell>,
    width: u32,
    height: u32,
    steps: Seq<Vec<MazeChange>>,
    step: Seq<MazeChange>,
    m: Maze,
) -> bool {
    &&& m.wf()
    &&& m.spec_width() == width
    &&& m.spec_height() == height
    &&& is_trace(start, width, height, flatten(steps_view(steps)) + step, m.spec_cells())
    &&& walls_consistent(m.spec_cells(), width, height)
}

/// Progress survives a `mark_cell`.
pub proof fn lemma_progress_mark(
    start: Seq<Cell>,
    width: u32,
    height: u32,
    steps: Seq<Vec<MazeChange>>,
    step: Seq<MazeChange>,
    m: Maze,
    step_after: Seq<MazeChange>,
    m_after: Maze,
    row: u32,
    col: u32,
    new_state: Cell,
)
    requires
        progress(start, width, height, steps, step, m),
        m.in_bounds(row, col),
        mark_effect(m, step, m_after, step_after, row, col, new_state),
    ensures
        progress(start, width, height, steps, step_after, m_after),
{
    let pre = flatten(steps_view(steps)) + step;
    lemma_record_mark(start, width, height, pre, m.spec_cells(), row, col, new_state);
    let o = m.cell_at(row, col);
    if marked(o, new_state) != o {
        assert(flatten(steps_view(steps)) + step_after =~= pre.push(
            change(row, col, o, marked(o, new_state)),
        ));
    }
}

/// Progress survives a `remove_wall_between` or `add_wall_between`.
pub proof fn lemma_progress_wall(
    start: Seq<Cell>,
    width: u32,
    height: u32,
    steps: Seq<Vec<MazeChange>>,
    step: Seq<MazeChange>,
    m: Maze,
    step_after: Seq<MazeChange>,
    m_after: Maze,
    r1: u32,
    c1: u32,
    r2: u32,
    c2: u32,
    adding: bool,
)
    requires
        progress(start, width, height, steps, step, m),
        m.in_bounds(r1, c1),
        m.in_bounds(r2, c2),
        wall_effect(m, step, m_after, step_after, r1, c1, r2, c2, adding),
    ensures
        progress(start, width, height, steps, step_after, m_after),
{
    if facing(r1, c1, r2, c2) is Some {
        let pre = flatten(steps_view(steps)) + step;
        lemma_record_pair(start, width, height, pre, m.spec_cells(), r1, c1, r2, c2, adding);
        let (w1, w2) = facing(r1, c1, r2, c2).unwrap();
        let o1 = m.cell_at(r1, c1);
        let o2 = m.cell_at(r2, c2);
        let n1 = if adding {
            cell_of(o1@ | w1)
        } else {
            cell_of(o1@ & !w1)
        };
        let n2 = if adding {
            cell_of(o2@ | w2)
        } else {
            cell_of(o2@ & !w2)
        };
        assert(flatten(steps_view(steps)) + step_after =~= pre.push(change(r1, c1, o1, n1)).push(
            change(r2, c2, o2, n2),
        ));
    }
}

/// Finishing the step in progress: it joins the list of steps.
pub proof fn lemma_progress_finish_step(
    start: Seq<Cell>,
    width: u32,
    height: u32,
    steps: Seq<Vec<MazeChange>>,
    step: Vec<MazeChange>,
    m: Maze,
)
    requires
        progress(start, width, height, steps, step@, m),
    ensures
        progress(start, width, height, steps.push(step), Seq::empty(), m),
{
    lemma_flatten_push(steps, step);
    assert(flatten(steps_view(steps.push(step))) + Seq::empty() =~= flatten(steps_view(steps))
        + step@);
}

/// After the first pass of a generator, which adds (or removes) every wall
/// of a copy of the maze it was given, the generator has made progress with
/// that pass as its step in progress.
pub proof fn lemma_progress_walling(
    start: Seq<Cell>,
    width: u32,
    height: u32,
    changes: Seq<MazeChange>,
    m: Maze,
    present: bool,
)
    requires
        m.wf(),
        m.spec_width() == width,
        m.spec_height() == height,
        start.len() == width as int * height as int,
        pass_prefix(
            start,
            width,
            height,
            changes,
            m.spec_cells(),
            every_position(),
            if present {
                with_all_walls()
            } else {
                without_walls()
            },
            start.len() as int,
        ),
    ensures
        progress(start, width, height, Seq::empty(), changes, m),
{
    lemma_uniform_pass(start, width, height, changes, m.spec_cells(), present);
    assert(flatten(steps_view(Seq::<Vec<MazeChange>>::empty())) + changes =~= changes);
}

/// Progress survives a pass that only changes cell types.
pub proof fn lemma_progress_retype(
    start: Seq<Cell>,
    width: u32,
    height: u32,
    steps: Seq<Vec<MazeChange>>,
    m: Maze,
    changes: Seq<MazeChange>,
    m_after: Maze,
    touched: spec_fn(int) -> bool,
    t: CellType,
)
    requires
        progress(start, width, height, steps, Seq::empty(), m),
        same_shape(m_after, m),
        pass_prefix(
            m.spec_cells(),
            width,
            height,
            changes,
            m_after.spec_cells(),
            touched,
            retyped(t),
            m.spec_cells().len() as int,
        ),
    ensures
        progress(start, width, height, steps, changes, m_after),
{
    let before = m.spec_cells();
    let after = m_after.spec_cells();
    crate::generators::trace::lemma_pass_is_trace(
        before,
        width,
        height,
        changes,
        after,
        touched,
        retyped(t),
    );
    let flat = flatten(steps_view(steps));
    assert(flat + Seq::<MazeChange>::empty() =~= flat);
    crate::generators::trace::lemma_trace_concat(start, width, height, flat, before, changes, after);
    assert forall|i: int| 0 <= i < before.len() implies crate::generators::walls::same_walls(
        #[trigger] after[i],
        before[i],
    ) by {
        crate::generators::walls::lemma_wall_bits(before[i]@, WALL_N, type_bits(t));
        crate::cell::lemma_cell_of(before[i]@, before[i]);
        let b = type_bits(t);
        let v = before[i]@;
        assert((b & 0xf0) | (v & 0x0f) == (v & 0x0f) | b) by (bit_vector)
            requires
                b == 0x00 || b == 0x10 || b == 0x20 || b == 0x30 || b == 0x40 || b == 0x50 || b
                    == 0x60 || b == 0x70 || b == 0x80,
        ;
    }
    crate::generators::walls::lemma_consistent_same_walls_all(before, after, width, height);
}

/// A `mark_cell` keeps the frame.
pub proof fn lemma_frame_mark(
    m: Maze,
    step: Seq<MazeChange>,
    m_after: Maze,
    step_after: Seq<MazeChange>,
    row: u32,
    col: u32,
    new_state: Cell,
    closed: bool,
)
    requires
        m.wf(),
        m.in_bounds(row, col),
        frame_is(m.spec_cells(), m.spec_width(), m.spec_height(), closed),
        mark_effect(m, step, m_after, step_after, row, col, new_state),
    ensures
        frame_is(m_after.spec_cells(), m.spec_width(), m.spec_height(), closed),
{
    let o = m.cell_at(row, col);
    if marked(o, new_state) != o {
        crate::generators::walls::lemma_wall_bits(o@, WALL_N, new_state@);
        crate::cell::lemma_cell_of(o@, o);
        crate::generators::walls::lemma_frame_update_same_walls(
            m.spec_cells(),
            m.spec_width(),
            m.spec_height(),
            row,
            col,
            marked(o, new_state),
            closed,
        );
    }
}

/// Opening or closing the wall between two neighbours keeps the frame.
pub proof fn lemma_frame_wall(
    m: Maze,
    step: Seq<MazeChange>,
    m_after: Maze,
    step_after: Seq<MazeChange>,
    r1: u32,
    c1: u32,
    r2: u32,
    c2: u32,
    adding: bool,
    closed: bool,
)
    requires
        m.wf(),
        m.in_bounds(r1, c1),
        m.in_bounds(r2, c2),
        frame_is(m.spec_cells(), m.spec_width(), m.spec_height(), closed),
        wall_effect(m, step, m_after, step_after, r1, c1, r2, c2, adding),
    ensures
        frame_is(m_after.spec_cells(), m.spec_width(), m.spec_height(), closed),
{
    if facing(r1, c1, r2, c2) is Some {
        let (w1, w2) = facing(r1, c1, r2, c2).unwrap();
        let o1 = m.cell_at(r1, c1);
        let o2 = m.cell_at(r2, c2);
        crate::generators::walls::lemma_wall_bits(o1@, w1, 0);
        crate::generators::walls::lemma_wall_bits(o2@, w2, 0);
        crate::cell::lemma_cell_of(o1@, o1);
        crate::cell::lemma_cell_of(o2@, o2);
        let n1 = if adding {
            cell_of(o1@ | w1)
        } else {
            cell_of(o1@ & !w1)
        };
        let n2 = if adding {
            cell_of(o2@ | w2)
        } else {
            cell_of(o2@ & !w2)
        };
        crate::generators::walls::lemma_frame_update_pair(
            m.spec_cells(),
            m.spec_width(),
            m.spec_height(),
            r1,
            c1,
            r2,
            c2,
            n1,
            n2,
            w1,
            w2,
            closed,
        );
    }
}

/// After a pass that adds (removes) every wall, the grid is closed (open)
/// all around.
pub proof fn lemma_frame_walling(
    before: Seq<Cell>,
    width: u32,
    height: u32,
    changes: Seq<MazeChange>,
    after: Seq<Cell>,
    present: bool,
)
    requires
        before.len() == width as int * height as int,
        pass_prefix(
            before,
            width,
            height,
            changes,
            after,
            every_position(),
            if present {
                with_all_walls()
            } else {
                without_walls()
            },
            before.len() as int,
        ),
    ensures
        frame_is(after, width, height, present),
{
    assert forall|i: int| 0 <= i < after.len() implies {
        &&& crate::generators::walls::wall(#[trigger] after[i], WALL_N) == present
        &&& crate::generators::walls::wall(after[i], WALL_E) == present
        &&& crate::generators::walls::wall(after[i], WALL_S) == present
        &&& crate::generators::walls::wall(after[i], WALL_W) == present
    } by {
        crate::generators::walls::lemma_full_and_empty_walls(before[i]@);
    }
    crate::generators::walls::lemma_uniform_walls_frame(after, width, height, present);
}

/// A pass that only changes cell types keeps the frame, and every cell it
/// selects ends with the new type.
pub proof fn lemma_frame_retype(
    before: Seq<Cell>,
    width: u32,
    height: u32,
    changes: Seq<MazeChange>,
    after: Seq<Cell>,
    touched: spec_fn(int) -> bool,
    t: CellType,
    closed: bool,
)
    requires
        before.len() == width as int * height as int,
        frame_is(before, width, height, closed),
        pass_prefix(before, width, height, changes, after, touched, retyped(t), before.len() as int),
    ensures
        frame_is(after, width, height, closed),
        forall|i: int|
            0 <= i < after.len() && touched(i) ==> type_of(#[trigger] after[i]@) == t,
        forall|i: int|
            0 <= i < before.len() ==> crate::generators::walls::same_walls(#[trigger] after[i], before[i]),
{
    assert forall|i: int| 0 <= i < before.len() implies crate::generators::walls::same_walls(
        #[trigger] after[i],
        before[i],
    ) by {
        crate::generators::walls::lemma_wall_bits(before[i]@, WALL_N, type_bits(t));
        crate::cell::lemma_cell_of(before[i]@, before[i]);
        let b = type_bits(t);
        let v = before[i]@;
        assert((b & 0xf0) | (v & 0x0f) == (v & 0x0f) | b) by (bit_vector)
            requires
                b == 0x00 || b == 0x10 || b == 0x20 || b == 0x30 || b == 0x40 || b == 0x50 || b
                    == 0x60 || b == 0x70 || b == 0x80,
        ;
    }
    crate::generators::walls::lemma_frame_same_walls_all(before, after, width, height, closed);
    assert forall|i: int| 0 <= i < after.len() && touched(i) implies type_of(
        #[trigger] after[i]@,
    ) == t by {
        crate::cell::lemma_set_type_then_get_type(before[i]@, t);
        crate::cell::lemma_cell_of(with_type(before[i]@, t), before[i]);
    }
}

/// Every cell of `new` has the same type bits (upper four bits) as the cell
/// at its position in `cells`.
pub open spec fn types_kept(cells: Seq<Cell>, new: Seq<Cell>) -> bool {
    &&& new.len() == cells.len()
    &&& forall|i: int| 0 <= i < cells.len() ==> (#[trigger] new[i]@) & TYPE_MASK == cells[i]@ & TYPE_MASK
}

/// Adding or removing the wall between two cells changes no cell's type.
pub proof fn lemma_wall_effect_types(
    m: Maze,
    s: Seq<MazeChange>,
    m2: Maze,
    s2: Seq<MazeChange>,
    r1: u32,
    c1: u32,
    r2: u32,
    c2: u32,
    adding: bool,
)
    requires
        m.wf(),
        m.in_bounds(r1, c1),
        m.in_bounds(r2, c2),
        wall_effect(m, s, m2, s2, r1, c1, r2, c2, adding),
    ensures
        types_kept(m.spec_cells(), m2.spec_cells()),
{
    crate::maze::lemma_index_in_bounds(m.spec_width(), m.spec_height(), r1, c1);
    crate::maze::lemma_index_in_bounds(m.spec_width(), m.spec_height(), r2, c2);
    if let Some((w1, w2)) = facing(r1, c1, r2, c2) {
        let o1 = m.cell_at(r1, c1);
        let o2 = m.cell_at(r2, c2);
        assert(w1 & 0xf0u8 == 0 && w2 & 0xf0u8 == 0) by (bit_vector)
            requires
                w1 == 1u8 || w1 == 2u8 || w1 == 4u8 || w1 == 8u8,
                w2 == 1u8 || w2 == 2u8 || w2 == 4u8 || w2 == 8u8,
        ;
        crate::cell::lemma_wall_change_keeps_type(o1@, w1);
        crate::cell::lemma_wall_change_keeps_type(o2@, w2);
        crate::cell::lemma_cell_of(o1@ | w1, o1);
        crate::cell::lemma_cell_of(o2@ | w2, o2);
        crate::cell::lemma_cell_of(o1@ & !w1, o1);
        crate::cell::lemma_cell_of(o2@ & !w2, o2);
    }
}

/// What `mark_cell` leaves: the cell at (row, col) replaced by the marked
/// cell (which is the old cell when nothing changed), whose type is that of
/// `new_state` and whose walls are the old ones.
pub proof fn lemma_mark_cells(
    m: Maze,
    step: Seq<MazeChange>,
    m_after: Maze,
    step_after: Seq<MazeChange>,
    row: u32,
    col: u32,
    new_state: Cell,
)
    requires
        m.wf(),
        m.in_bounds(row, col),
        mark_effect(m, step, m_after, step_after, row, col, new_state),
    ensures
        ({
            let o = m.cell_at(row, col);
            let n = marked(o, new_state);
            &&& m_after.spec_cells() == m.spec_cells().update(cell_index(m.spec_width(), row, col), n)
            &&& type_of(n@) == type_of(new_state@)
            &&& crate::generators::walls::same_walls(n, o)
        }),
{
    let o = m.cell_at(row, col);
    let n = marked(o, new_state);
    crate::maze::lemma_index_in_bounds(m.spec_width(), m.spec_height(), row, col);
    if n == o {
        assert(m.spec_cells().update(cell_index(m.spec_width(), row, col), n) =~= m.spec_cells());
    }
    crate::generators::walls::lemma_wall_bits(o@, WALL_N, new_state@);
    crate::cell::lemma_cell_of(o@, o);
    let v = new_state@;
    let u = o@;
    assert(((v & 0xf0u8) | (u & 0x0fu8)) & 0xf0u8 == v & 0xf0u8) by (bit_vector);
}

/// Appending a step to a list of steps appends its changes to the flattened list.
pub proof fn lemma_flatten_push(steps: Seq<Vec<MazeChange>>, step: Vec<MazeChange>)
    ensures
        flatten(steps_view(steps.push(step))) == flatten(steps_view(steps)) + step@,
{
    assert(steps_view(steps.push(step)).drop_last() =~= steps_view(steps));
}

/// Recording a `mark_cell` change: the record stays faithful and the walls
/// stay consistent.
pub proof fn lemma_record_mark(
    start: Seq<Cell>,
    width: u32,
    height: u32,
    prefix: Seq<MazeChange>,
    now: Seq<Cell>,
    row: u32,
    col: u32,
    new_state: Cell,
)
    requires
        now.len() == width as int * height as int,
        is_trace(start, width, height, prefix, now),
        walls_consistent(now, width, height),
        row < height,
        col < width,
    ensures
        ({
            let i = cell_index(width, row, col);
            let o = now[i];
            let n = marked(o, new_state);
            &&& is_trace(start, width, height, prefix.push(change(row, col, o, n)), now.update(i, n))
            &&& walls_consistent(now.update(i, n), width, height)
        }),
{
    let i = cell_index(width, row, col);
    let o = now[i];
    crate::maze::lemma_index_in_bounds(width, height, row, col);
    lemma_trace_push(start, width, height, prefix, now, change(row, col, o, marked(o, new_state)));
    crate::generators::walls::lemma_wall_bits(o@, WALL_N, new_state@);
    crate::cell::lemma_cell_of(o@, o);
    lemma_consistent_update_same_walls(now, width, height, row, col, marked(o, new_state));
}

/// Recording the two changes that remove (or add) the wall between two
/// neighbours: the record stays faithful and the walls stay consistent.
pub proof fn lemma_record_pair(
    start: Seq<Cell>,
    width: u32,
    height: u32,
    prefix: Seq<MazeChange>,
    now: Seq<Cell>,
    r1: u32,
    c1: u32,
    r2: u32,
    c2: u32,
    adding: bool,
)
    requires
        now.len() == width as int * height as int,
        is_trace(start, width, height, prefix, now),
        walls_consistent(now, width, height),
        r1 < height,
        c1 < width,
        r2 < height,
        c2 < width,
        facing(r1, c1, r2, c2) is Some,
    ensures
        ({
            let (w1, w2) = facing(r1, c1, r2, c2).unwrap();
            let i1 = cell_index(width, r1, c1);
            let i2 = cell_index(width, r2, c2);
            let o1 = now[i1];
            let o2 = now[i2];
            let n1 = if adding {
                cell_of(o1@ | w1)
            } else {
                cell_of(o1@ & !w1)
            };
            let n2 = if adding {
                cell_of(o2@ | w2)
            } else {
                cell_of(o2@ & !w2)
            };
            let after = now.update(i1, n1).update(i2, n2);
            &&& is_trace(
                start,
                width,
                height,
                prefix.push(change(r1, c1, o1, n1)).push(change(r2, c2, o2, n2)),
                after,
            )
            &&& walls_consistent(after, width, height)
        }),
{
    let (w1, w2) = facing(r1, c1, r2, c2).unwrap();
    let i1 = cell_index(width, r1, c1);
    let i2 = cell_index(width, r2, c2);
    let o1 = now[i1];
    let o2 = now[i2];
    let n1 = if adding {
        cell_of(o1@ | w1)
    } else {
        cell_of(o1@ & !w1)
    };
    let n2 = if adding {
        cell_of(o2@ | w2)
    } else {
        cell_of(o2@ & !w2)
    };
    crate::maze::lemma_index_in_bounds(width, height, r1, c1);
    crate::maze::lemma_index_in_bounds(width, height, r2, c2);
    if i1 == i2 {
        crate::maze::lemma_index_injective(width, r1, c1, r2, c2);
    }
    let mid = now.update(i1, n1);
    lemma_trace_push(start, width, height, prefix, now, change(r1, c1, o1, n1));
    lemma_trace_push(
        start,
        width,
        height,
        prefix.push(change(r1, c1, o1, n1)),
        mid,
        change(r2, c2, o2, n2),
    );
    crate::generators::walls::lemma_wall_bits(o1@, w1, 0);
    crate::generators::walls::lemma_wall_bits(o2@, w2, 0);
    crate::cell::lemma_cell_of(o1@, o1);
    crate::cell::lemma_cell_of(o2@, o2);
    lemma_consistent_update_pair(now, width, height, r1, c1, r2, c2, n1, n2, w1, w2);
}

/// A completed pass that adds (or removes) all walls is a faithful record
/// and leaves the walls consistent.
pub proof fn lemma_uniform_pass(
    before: Seq<Cell>,
    width: u32,
    height: u32,
    changes: Seq<MazeChange>,
    after: Seq<Cell>,
    present: bool,
)
    requires
        before.len() == width as int * height as int,
        pass_prefix(
            before,
            width,
            height,
            changes,
            after,
            every_position(),
            if present {
                with_all_walls()
            } else {
                without_walls()
            },
            before.len() as int,
        ),
    ensures
        is_trace(before, width, height, changes, after),
        walls_consistent(after, width, height),
{
    crate::generators::trace::lemma_pass_is_trace(
        before,
        width,
        height,
        changes,
        after,
        every_position(),
        if present {
            with_all_walls()
        } else {
            without_walls()
        },
    );
    assert forall|i: int| 0 <= i < after.len() implies {
        &&& crate::generators::walls::wall(#[trigger] after[i], WALL_N) == present
        &&& crate::generators::walls::wall(after[i], WALL_E) == present
        &&& crate::generators::walls::wall(after[i], WALL_S) == present
        &&& crate::generators::walls::wall(after[i], WALL_W) == present
    } by {
        crate::generators::walls::lemma_full_and_empty_walls(before[i]@);
    }
    crate::generators::walls::lemma_uniform_walls_consistent(after, width, height, present);
}

proof fn lemma_next_row(width: u32, row: u32)
    ensures
        row as int * width as int + width as int == (row + 1) as int * width as int,
{
    assert(row as int * width as int + width as int == (row + 1) as int * width as int)
        by (nonlinear_arith);
}

proof fn lemma_last_row(width: u32, height: u32)
    ensures
        height as int * width as int == width as int * height as int,
{
    assert(height as int * width as int == width as int * height as int) by (nonlinear_arith);
}

/// A maze generator, and the cell operations it builds mazes with. Each
/// operation changes the maze and records every change it makes.
pub trait MazeGenerator {
    /// Whether the generator can build a maze of this size.
    spec fn accepts(&self, width: u32, height: u32) -> bool;

    /// Build a maze on a copy of `maze`, drawing random choices from `draws`.
    /// The result lists the steps, each a list of cell changes, that lead
    /// from `maze` to the built maze. `None` when the draws ran out first.
    fn generate_maze_steps(&mut self, maze: &Maze, draws: &mut crate::utils::Draws) -> (r: Option<
        Vec<Vec<MazeChange>>,
    >)
        requires
            maze.wf(),
            old(self).accepts(maze.spec_width(), maze.spec_height()),
            old(draws).wf(),
        ensures
            old(draws).advanced_to(final(draws)),
            match r {
                Some(steps) => crate::generators::trace::trace_ok(
                    maze.spec_cells(),
                    maze.spec_width(),
                    maze.spec_height(),
                    crate::generators::trace::flatten(
                        crate::generators::trace::steps_view(steps@),
                    ),
                ) && crate::generators::walls::walls_consistent(
                    crate::generators::trace::replay_new(
                        maze.spec_cells(),
                        maze.spec_width(),
                        crate::generators::trace::flatten(
                            crate::generators::trace::steps_view(steps@),
                        ),
                    ),
                    maze.spec_width(),
                    maze.spec_height(),
                ),
                None => final(draws).exhausted(),
            },
    ;

    /// Default method: mark a cell with any new state and record the change.
    /// The cell takes the type of `new_state` and keeps its walls; nothing is
    /// recorded when that leaves it as it was.
    fn mark_cell(
        &self,
        maze: &mut Maze,
        row: u32,
        col: u32,
        new_state: Cell,
        step: &mut Vec<MazeChange>,
    )
        requires
            old(maze).wf(),
            old(maze).in_bounds(row, col),
        ensures
            mark_effect(*old(maze), old(step)@, *final(maze), final(step)@, row, col, new_state),
    {
        let old = maze.get_cell(row, col);
        let mut new_state = new_state;
        let walls = old.raw() & WALL_MASK;
        new_state.set_raw((new_state.raw() & TYPE_MASK) | walls);
        proof {
            crate::cell::lemma_cell_of(new_state@, new_state);
        }
        if old != new_state {
            maze.set_cell(row, col, new_state);
            step.push(MazeChange { row, col, old, new: new_state });
        }
    }

    /// Default method: remove the wall between two neighbouring cells (both
    /// sides of it) and record both changes; nothing happens when the cells
    /// are not neighbours.
    fn remove_wall_between(
        &self,
        maze: &mut Maze,
        row1: u32,
        col1: u32,
        row2: u32,
        col2: u32,
        step: &mut Vec<MazeChange>,
    )
        requires
            old(maze).wf(),
            old(maze).in_bounds(row1, col1),
            old(maze).in_bounds(row2, col2),
        ensures
            wall_effect(*old(maze), old(step)@, *final(maze), final(step)@, row1, col1, row2, col2, false),
    {
        let old_c1 = maze.get_cell(row1, col1);
        let old_c2 = maze.get_cell(row2, col2);
        let (wall_from_c1, wall_from_c2) = if row2 + 1 == row1 && col2 == col1 {
            (WALL_N, WALL_S)
        } else if row2 == row1 + 1 && col2 == col1 {
            (WALL_S, WALL_N)
        } else if row2 == row1 && col2 + 1 == col1 {
            (WALL_W, WALL_E)
        } else if row2 == row1 && col2 == col1 + 1 {
            (WALL_E, WALL_W)
        } else {
            return ;
        };
        let mut c1 = old_c1;
        let mut c2 = old_c2;
        c1.remove_wall(wall_from_c1);
        c2.remove_wall(wall_from_c2);
        proof {
            crate::cell::lemma_cell_of(c1@, c1);
            crate::cell::lemma_cell_of(c2@, c2);
        }
        maze.set_cell(row1, col1, c1);
        maze.set_cell(row2, col2, c2);
        step.push(MazeChange { row: row1, col: col1, old: old_c1, new: c1 });
        step.push(MazeChange { row: row2, col: col2, old: old_c2, new: c2 });
    }

    /// Add the wall between two adjacent cells (both sides of it) and record
    /// both changes; nothing happens when the cells are not neighbours.
    fn add_wall_between(
        &self,
        maze: &mut Maze,
        row1: u32,
        col1: u32,
        row2: u32,
        col2: u32,
        step: &mut Vec<MazeChange>,
    )
        requires
            old(maze).wf(),
            old(maze).in_bounds(row1, col1),
            old(maze).in_bounds(row2, col2),
        ensures
            wall_effect(*old(maze), old(step)@, *final(maze), final(step)@, row1, col1, row2, col2, true),
    {
        let old1 = maze.get_cell(row1, col1);
        let old2 = maze.get_cell(row2, col2);
        let (w1, w2) = if row2 + 1 == row1 && col2 == col1 {
            (WALL_N, WALL_S)
        } else if row2 == row1 + 1 && col2 == col1 {
            (WALL_S, WALL_N)
        } else if row2 == row1 && col2 + 1 == col1 {
            (WALL_W, WALL_E)
        } else if row2 == row1 && col2 == col1 + 1 {
            (WALL_E, WALL_W)
        } else {
            return ;
        };
        let mut c1 = old1;
        let mut c2 = old2;
        c1.add_wall(w1);
        c2.add_wall(w2);
        proof {
            crate::cell::lemma_cell_of(c1@, c1);
            crate::cell::lemma_cell_of(c2@, c2);
        }
        maze.set_cell(row1, col1, c1);
        maze.set_cell(row2, col2, c2);
        step.push(MazeChange { row: row1, col: col1, old: old1, new: c1 });
        step.push(MazeChange { row: row2, col: col2, old: old2, new: c2 });
    }

    /// Remove a wall in the specified direction (dr, dc) from the given cell
    fn remove_wall_dir(
        &self,
        maze: &mut Maze,
        row: u32,
        col: u32,
        dr: i32,
        dc: i32,
        step: &mut Vec<MazeChange>,
    )
        requires
            old(maze).wf(),
            old(maze).in_bounds(row, col),
            0 <= row + dr < old(maze).spec_height(),
            0 <= col + dc < old(maze).spec_width(),
        ensures
            wall_effect(
                *old(maze),
                old(step)@,
                *final(maze),
                final(step)@,
                row,
                col,
                (row + dr) as u32,
                (col + dc) as u32,
                false,
            ),
    {
        let nr = (row as i64 + dr as i64) as u32;
        let nc = (col as i64 + dc as i64) as u32;
        self.remove_wall_between(maze, row, col, nr, nc, step);
    }

    /// Add a wall in the specified direction (dr, dc) from the given cell
    fn add_wall_dir(
        &self,
        maze: &mut Maze,
        row: u32,
        col: u32,
        dr: i32,
        dc: i32,
        step: &mut Vec<MazeChange>,
    )
        requires
            old(maze).wf(),
            old(maze).in_bounds(row, col),
            0 <= row + dr < old(maze).spec_height(),
            0 <= col + dc < old(maze).spec_width(),
        ensures
            wall_effect(
                *old(maze),
                old(step)@,
                *final(maze),
                final(step)@,
                row,
                col,
                (row + dr) as u32,
                (col + dc) as u32,
                true,
            ),
    {
        let nr = (row as i64 + dr as i64) as u32;
        let nc = (col as i64 + dc as i64) as u32;
        self.add_wall_between(maze, row, col, nr, nc, step);
    }

    /// Default method: make all cells into a specific type, keeping their
    /// walls, and record a change for each cell whose type differed.
    fn make_all_into(&self, maze: &mut Maze, cell_type: CellType) -> (changes: Vec<MazeChange>)
        requires
            old(maze).wf(),
        ensures
            same_shape(*final(maze), *old(maze)),
            pass_prefix(
                old(maze).spec_cells(),
                old(maze).spec_width(),
                old(maze).spec_height(),
                changes@,
                final(maze).spec_cells(),
                type_is_not(old(maze).spec_cells(), cell_type),
                retyped(cell_type),
                old(maze).spec_cells().len() as int,
            ),
    {
        let ghost before = maze.spec_cells();
        let ghost touched = type_is_not(before, cell_type);
        let ghost f = retyped(cell_type);
        let mut changes: Vec<MazeChange> = Vec::new();
        proof {
            lemma_pass_start(before, maze.spec_width(), maze.spec_height(), touched, f);
        }
        let mut row: u32 = 0;
        while row < maze.height()
            invariant
                same_shape(*maze, *old(maze)),
                before == old(maze).spec_cells(),
                touched == type_is_not(before, cell_type),
                f == retyped(cell_type),
                row <= maze.spec_height(),
                pass_prefix(
                    before,
                    maze.spec_width(),
                    maze.spec_height(),
                    changes@,
                    maze.spec_cells(),
                    touched,
                    f,
                    row as int * maze.spec_width() as int,
                ),
            decreases maze.spec_height() - row,
        {
            let mut col: u32 = 0;
            while col < maze.width()
                invariant
                    same_shape(*maze, *old(maze)),
                    before == old(maze).spec_cells(),
                    touched == type_is_not(before, cell_type),
                    f == retyped(cell_type),
                    row < maze.spec_height(),
                    col <= maze.spec_width(),
                    pass_prefix(
                        before,
                        maze.spec_width(),
                        maze.spec_height(),
                        changes@,
                        maze.spec_cells(),
                        touched,
                        f,
                        row as int * maze.spec_width() as int + col as int,
                    ),
                decreases maze.spec_width() - col,
            {
                proof {
                    lemma_pass_step(
                        before,
                        maze.spec_width(),
                        maze.spec_height(),
                        changes@,
                        maze.spec_cells(),
                        touched,
                        f,
                        row,
                        col,
                    );
                }
                let current = maze.get_cell(row, col);
                if current.get_type() != cell_type {
                    let walls = current.raw() & WALL_MASK;
                    let mut new_cell = Cell::new(cell_type);
                    new_cell.set_raw((new_cell.raw() & TYPE_MASK) | walls);
                    proof {
                        let b = type_bits(cell_type);
                        let v = current@;
                        assert((b & 0xf0) | (v & 0x0f) == (v & 0x0f) | b) by (bit_vector)
                            requires
                                b == 0x00 || b == 0x10 || b == 0x20 || b == 0x30 || b == 0x40 || b
                                    == 0x50 || b == 0x60 || b == 0x70 || b == 0x80,
                        ;
                        assert(new_cell@ == with_type(current@, cell_type));
                        crate::cell::lemma_cell_of(new_cell@, new_cell);
                    }
                    maze.set_cell(row, col, new_cell);
                    changes.push(MazeChange { row, col, old: current, new: new_cell });
                }
                col = col + 1;
            }
            proof {
                lemma_next_row(maze.spec_width(), row);
            }
            row = row + 1;
        }
        proof {
            lemma_last_row(maze.spec_width(), maze.spec_height());
        }
        changes
    }

    /// Add all 4 walls to every cell, recording a change for every cell.
    fn add_all_walls(&self, maze: &mut Maze) -> (changes: Vec<MazeChange>)
        requires
            old(maze).wf(),
        ensures
            same_shape(*final(maze), *old(maze)),
            pass_prefix(
                old(maze).spec_cells(),
                old(maze).spec_width(),
                old(maze).spec_height(),
                changes@,
                final(maze).spec_cells(),
                every_position(),
                with_all_walls(),
                old(maze).spec_cells().len() as int,
            ),
    {
        let ghost before = maze.spec_cells();
        let ghost touched = every_position();
        let ghost f = with_all_walls();
        let mut changes: Vec<MazeChange> = Vec::new();
        proof {
            lemma_pass_start(before, maze.spec_width(), maze.spec_height(), touched, f);
        }
        let mut row: u32 = 0;
        while row < maze.height()
            invariant
                same_shape(*maze, *old(maze)),
                before == old(maze).spec_cells(),
                touched == every_position(),
                f == with_all_walls(),
                row <= maze.spec_height(),
                pass_prefix(
                    before,
                    maze.spec_width(),
                    maze.spec_height(),
                    changes@,
                    maze.spec_cells(),
                    touched,
                    f,
                    row as int * maze.spec_width() as int,
                ),
            decreases maze.spec_height() - row,
        {
            let mut col: u32 = 0;
            while col < maze.width()
                invariant
                    same_shape(*maze, *old(maze)),
                    before == old(maze).spec_cells(),
                    touched == every_position(),
                    f == with_all_walls(),
                    row < maze.spec_height(),
                    col <= maze.spec_width(),
                    pass_prefix(
                        before,
                        maze.spec_width(),
                        maze.spec_height(),
                        changes@,
                        maze.spec_cells(),
                        touched,
                        f,
                        row as int * maze.spec_width() as int + col as int,
                    ),
                decreases maze.spec_width() - col,
            {
                proof {
                    lemma_pass_step(
                        before,
                        maze.spec_width(),
                        maze.spec_height(),
                        changes@,
                        maze.spec_cells(),
                        touched,
                        f,
                        row,
                        col,
                    );
                }
                let mut cell = maze.get_cell(row, col);
                let old = cell;
                cell.add_wall(WALL_N | WALL_E | WALL_S | WALL_W);
                proof {
                    assert(1u8 | 2u8 | 4u8 | 8u8 == 0x0fu8) by (bit_vector);
                    crate::cell::lemma_cell_of(cell@, cell);
                }
                maze.set_cell(row, col, cell);
                changes.push(MazeChange { row, col, old, new: cell });
                col = col + 1;
            }
            proof {
                lemma_next_row(maze.spec_width(), row);
            }
            row = row + 1;
        }
        proof {
            lemma_last_row(maze.spec_width(), maze.spec_height());
        }
        changes
    }

    /// Remove all walls from every cell, recording a change for every cell.
    fn remove_all_walls(&self, maze: &mut Maze) -> (changes: Vec<MazeChange>)
        requires
            old(maze).wf(),
        ensures
            same_shape(*final(maze), *old(maze)),
            pass_prefix(
                old(maze).spec_cells(),
                old(maze).spec_width(),
                old(maze).spec_height(),
                changes@,
                final(maze).spec_cells(),
                every_position(),
                without_walls(),
                old(maze).spec_cells().len() as int,
            ),
    {
        let ghost before = maze.spec_cells();
        let ghost touched = every_position();
        let ghost f = without_walls();
        let mut changes: Vec<MazeChange> = Vec::new();
        proof {
            lemma_pass_start(before, maze.spec_width(), maze.spec_height(), touched, f);
        }
        let mut row: u32 = 0;
        while row < maze.height()
            invariant
                same_shape(*maze, *old(maze)),
                before == old(maze).spec_cells(),
                touched == every_position(),
                f == without_walls(),
                row <= maze.spec_height(),
                pass_prefix(
                    before,
                    maze.spec_width(),
                    maze.spec_height(),
                    changes@,
                    maze.spec_cells(),
                    touched,
                    f,
                    row as int * maze.spec_width() as int,
                ),
            decreases maze.spec_height() - row,
        {
            let mut col: u32 = 0;
            while col < maze.width()
                invariant
                    same_shape(*maze, *old(maze)),
                    before == old(maze).spec_cells(),
                    touched == every_position(),
                    f == without_walls(),
                    row < maze.spec_height(),
                    col <= maze.spec_width(),
                    pass_prefix(
                        before,
                        maze.spec_width(),
                        maze.spec_height(),
                        changes@,
                        maze.spec_cells(),
                        touched,
                        f,
                        row as int * maze.spec_width() as int + col as int,
                    ),
                decreases maze.spec_width() - col,
            {
                proof {
                    lemma_pass_step(
                        before,
                        maze.spec_width(),
                        maze.spec_height(),
                        changes@,
                        maze.spec_cells(),
                        touched,
                        f,
                        row,
                        col,
                    );
                }
                let mut cell = maze.get_cell(row, col);
                let old = cell;
                cell.remove_wall(WALL_N | WALL_E | WALL_S | WALL_W);
                proof {
                    assert(1u8 | 2u8 | 4u8 | 8u8 == 0x0fu8) by (bit_vector);
                    crate::cell::lemma_cell_of(cell@, cell);
                }
                maze.set_cell(row, col, cell);
                changes.push(MazeChange { row, col, old, new: cell });
                col = col + 1;
            }
            proof {
                lemma_next_row(maze.spec_width(), row);
            }
            row = row + 1;
        }
        proof {
            lemma_last_row(maze.spec_width(), maze.spec_height());
        }
        changes
    }

    /// Set all visited cells to default state, keeping their walls, and
    /// record a change for each.
    fn set_all_visited_to_default(&self, maze: &mut Maze) -> (changes: Vec<MazeChange>)
        requires
            old(maze).wf(),
        ensures
            same_shape(*final(maze), *old(maze)),
            pass_prefix(
                old(maze).spec_cells(),
                old(maze).spec_width(),
                old(maze).spec_height(),
                changes@,
                final(maze).spec_cells(),
                type_is(old(maze).spec_cells(), CellType::Visited),
                retyped(CellType::Default),
                old(maze).spec_cells().len() as int,
            ),
    {
        let ghost before = maze.spec_cells();
        let ghost touched = type_is(before, CellType::Visited);
        let ghost f = retyped(CellType::Default);
        let mut changes: Vec<MazeChange> = Vec::new();
        proof {
            lemma_pass_start(before, maze.spec_width(), maze.spec_height(), touched, f);
        }
        let mut row: u32 = 0;
        while row < maze.height()
            invariant
                same_shape(*maze, *old(maze)),
                before == old(maze).spec_cells(),
                touched == type_is(before, CellType::Visited),
                f == retyped(CellType::Default),
                row <= maze.spec_height(),
                pass_prefix(
                    before,
                    maze.spec_width(),
                    maze.spec_height(),
                    changes@,
                    maze.spec_cells(),
                    touched,
                    f,
                    row as int * maze.spec_width() as int,
                ),
            decreases maze.spec_height() - row,
        {
            let mut col: u32 = 0;
            while col < maze.width()
                invariant
                    same_shape(*maze, *old(maze)),
                    before == old(maze).spec_cells(),
                    touched == type_is(before, CellType::Visited),
                    f == retyped(CellType::Default),
                    row < maze.spec_height(),
                    col <= maze.spec_width(),
                    pass_prefix(
                        before,
                        maze.spec_width(),
                        maze.spec_height(),
                        changes@,
                        maze.spec_cells(),
                        touched,
                        f,
                        row as int * maze.spec_width() as int + col as int,
                    ),
                decreases maze.spec_width() - col,
            {
                proof {
                    lemma_pass_step(
                        before,
                        maze.spec_width(),
                        maze.spec_height(),
                        changes@,
                        maze.spec_cells(),
                        touched,
                        f,
                        row,
                        col,
                    );
                }
                let old = maze.get_cell(row, col);
                if old.get_type() == CellType::Visited {
                    let walls = old.raw() & WALL_MASK;
                    let mut new_cell = Cell::new(CellType::Default);
                    new_cell.set_raw((new_cell.raw() & TYPE_MASK) | walls);
                    proof {
                        let v = old@;
                        assert((0u8 & 0xf0u8) | (v & 0x0fu8) == (v & 0x0fu8) | 0u8)
                            by (bit_vector);
                        crate::cell::lemma_cell_of(new_cell@, new_cell);
                    }
                    maze.set_cell(row, col, new_cell);
                    changes.push(MazeChange { row, col, old, new: new_cell });
                }
                col = col + 1;
            }
            proof {
                lemma_next_row(maze.spec_width(), row);
            }
            row = row + 1;
        }
        proof {
            lemma_last_row(maze.spec_width(), maze.spec_height());
        }
        changes
    }
}

// ---------------------------------------------------------------------------
// The builder
// ---------------------------------------------------------------------------

/// The generator that a builder uses.
pub enum GeneratorChoice {
    AldousBroder(AdlousBroder),
    RecursiveDivision(RecursiveDivision),
    Kruskals(Kruskals),
    Prims(Prims),
}

/// Whether the chosen generator can build a maze of this size (the random
/// walk and Prim's algorithm need at least one cell to start from).
pub open spec fn choice_accepts(g: GeneratorChoice, width: u32, height: u32) -> bool {
    match g {
        GeneratorChoice::AldousBroder(_) => width > 0 && height > 0,
        GeneratorChoice::Prims(_) => width > 0 && height > 0,
        _ => true,
    }
}

/// Whether the chosen generator builds a perfect maze from `cells` when it
/// draws from `words` starting at `next`: always, except that Prim's
/// algorithm takes every cell whose type is not `Default` for part of the
/// maze already, so it needs every cell but its random first one (chosen by
/// the first two words) to be `Default`.
pub open spec fn builds_perfect(
    g: GeneratorChoice,
    cells: Seq<Cell>,
    width: u32,
    height: u32,
    words: Seq<u32>,
    next: int,
) -> bool {
    match g {
        GeneratorChoice::Prims(_) => default_except(
            cells,
            crate::generators::paths::pos_index(width, random_cell(words, next, height, width)),
        ),
        _ => true,
    }
}

/// Every change of the step lies inside a `width` x `height` grid.
pub open spec fn step_fits(step: Seq<MazeChange>, width: u32, height: u32) -> bool {
    forall|k: int| 0 <= k < step.len() ==> (#[trigger] step[k]).row < height && step[k].col < width
}

/// Every change of each of the first `count` steps (of those there are) lies
/// inside a `width` x `height` grid.
pub open spec fn steps_fit(steps: Seq<Seq<MazeChange>>, width: u32, height: u32, count: int) -> bool {
    forall|i: int| 0 <= i < count && i < steps.len() ==> step_fits(#[trigger] steps[i], width, height)
}

/// Holds a generator, the steps it generated, and how many of them have been
/// replayed onto the maze.
pub struct MazeBuilder {
    generator: GeneratorChoice,
    steps: Vec<Vec<MazeChange>>,
    current_step: usize,
}

/// Two strings are equal, compared character by character.
fn str_equal(a: &str, b: &str) -> (r: bool)
    ensures
        r == (a@ == b@),
{
    let n = a.unicode_len();
    if n != b.unicode_len() {
        return false;
    }
    let mut i: usize = 0;
    while i < n
        invariant
            n == a@.len(),
            n == b@.len(),
            i <= n,
            forall|j: int| 0 <= j < i ==> a@[j] == b@[j],
        decreases n - i,
    {
        if a.get_char(i) != b.get_char(i) {
            return false;
        }
        i = i + 1;
    }
    assert(a@ =~= b@);
    true
}

impl MazeBuilder {
    /// The generator in use.
    pub closed spec fn spec_generator(&self) -> GeneratorChoice {
        self.generator
    }

    /// The stored steps.
    pub closed spec fn spec_steps(&self) -> Seq<Seq<MazeChange>> {
        steps_view(self.steps@)
    }

    /// How many steps have been replayed.
    pub closed spec fn spec_current(&self) -> nat {
        self.current_step as nat
    }

    /// The replay position never passes the last step; every builder keeps
    /// this at all times.
    #[verifier::type_invariant]
    spec fn position_within(&self) -> bool {
        self.current_step <= self.steps.len()
    }

    /// The replay position never passes the last step.
    pub open spec fn wf(&self) -> bool {
        self.spec_current() <= self.spec_steps().len()
    }

    /// A builder with the random-walk generator and a single empty step.
    pub fn new() -> (b: MazeBuilder)
        ensures
            b.wf(),
            b.spec_generator() is AldousBroder,
            b.spec_steps() == seq![Seq::<MazeChange>::empty()],
            b.spec_current() == 0,
    {
        let generator = GeneratorChoice::AldousBroder(AdlousBroder::new());
        let mut steps: Vec<Vec<MazeChange>> = Vec::new();
        steps.push(Vec::new());
        let b = MazeBuilder { generator, steps, current_step: 0 };
        proof {
            assert(b.spec_steps() =~= seq![Seq::<MazeChange>::empty()]);
        }
        b
    }

    /// A builder with the generator named `name` ("aldous_broder",
    /// "recursive_division", "kruskals" or "prims"; any other name gives the
    /// random walk) and a single empty step.
    pub fn with_generator(name: &str) -> (b: MazeBuilder)
        ensures
            b.wf(),
            b.spec_steps() == seq![Seq::<MazeChange>::empty()],
            b.spec_current() == 0,
            name@ == "recursive_division"@ ==> b.spec_generator() is RecursiveDivision,
            name@ == "kruskals"@ ==> b.spec_generator() is Kruskals,
            name@ == "prims"@ ==> b.spec_generator() is Prims,
            name@ != "recursive_division"@ && name@ != "kruskals"@ && name@ != "prims"@
                ==> b.spec_generator() is AldousBroder,
    {
        proof {
            reveal_strlit("aldous_broder");
            reveal_strlit("recursive_division");
            reveal_strlit("kruskals");
            reveal_strlit("prims");
            assert("aldous_broder"@.len() != "recursive_division"@.len());
            assert("aldous_broder"@.len() != "kruskals"@.len());
            assert("aldous_broder"@.len() != "prims"@.len());
            assert("recursive_division"@.len() != "kruskals"@.len());
            assert("recursive_division"@.len() != "prims"@.len());
            assert("kruskals"@.len() != "prims"@.len());
        }
        let generator = if str_equal(name, "aldous_broder") {
            GeneratorChoice::AldousBroder(AdlousBroder::new())
        } else if str_equal(name, "recursive_division") {
            GeneratorChoice::RecursiveDivision(RecursiveDivision::new())
        } else if str_equal(name, "kruskals") {
            GeneratorChoice::Kruskals(Kruskals::new())
        } else if str_equal(name, "prims") {
            GeneratorChoice::Prims(Prims::new())
        } else {
            GeneratorChoice::AldousBroder(AdlousBroder::new())
        };
        let mut steps: Vec<Vec<MazeChange>> = Vec::new();
        steps.push(Vec::new());
        let b = MazeBuilder { generator, steps, current_step: 0 };
        proof {
            assert(b.spec_steps() =~= seq![Seq::<MazeChange>::empty()]);
        }
        b
    }

    /// Generate all steps for building a maze from `maze` and store them,
    /// setting the current step to zero. When the draws run out first,
    /// returns false and keeps the steps and the current step.
    pub fn generate_all(&mut self, maze: &Maze, draws: &mut Draws) -> (generated: bool)
        requires
            maze.wf(),
            choice_accepts(old(self).spec_generator(), maze.spec_width(), maze.spec_height()),
            old(draws).wf(),
        ensures
            final(self).wf(),
            old(draws).advanced_to(final(draws)),
            final(self).spec_generator() is AldousBroder <==> old(self).spec_generator() is AldousBroder,
            final(self).spec_generator() is RecursiveDivision <==> old(self).spec_generator() is RecursiveDivision,
            final(self).spec_generator() is Kruskals <==> old(self).spec_generator() is Kruskals,
            final(self).spec_generator() is Prims <==> old(self).spec_generator() is Prims,
            generated ==> {
                &&& final(self).spec_current() == 0
                &&& trace_ok(
                    maze.spec_cells(),
                    maze.spec_width(),
                    maze.spec_height(),
                    flatten(final(self).spec_steps()),
                )
                &&& walls_consistent(
                    replay_new(maze.spec_cells(), maze.spec_width(), flatten(final(self).spec_steps())),
                    maze.spec_width(),
                    maze.spec_height(),
                )
                &&& builds_perfect(
                    old(self).spec_generator(),
                    maze.spec_cells(),
                    maze.spec_width(),
                    maze.spec_height(),
                    old(draws).spec_words(),
                    old(draws).spec_next() as int,
                ) ==> perfect_maze(
                    replay_new(maze.spec_cells(), maze.spec_width(), flatten(final(self).spec_steps())),
                    maze.spec_width(),
                    maze.spec_height(),
                )
                &&& frame_is(
                    replay_new(maze.spec_cells(), maze.spec_width(), flatten(final(self).spec_steps())),
                    maze.spec_width(),
                    maze.spec_height(),
                    !(old(self).spec_generator() is RecursiveDivision),
                )
                &&& old(self).spec_generator() is AldousBroder ==> {
                    let n = old(draws).spec_next() as int;
                    let words = old(draws).spec_words();
                    let first = random_cell(words, n, maze.spec_height(), maze.spec_width());
                    let moves = walk_moves(
                        maze.spec_width(),
                        maze.spec_height(),
                        words,
                        n + 2,
                        first,
                        set![crate::generators::paths::pos_index(maze.spec_width(), first)],
                        maze.spec_width() as int * maze.spec_height() as int,
                    );
                    let st = final(self).spec_steps();
                    &&& st.len() == moves.len() + 3
                    &&& walls_every_cell(st[0], maze.spec_cells(), maze.spec_width())
                    &&& walked_as(st, first, moves, maze.spec_width())
                    &&& visited_only_at(
                        maze.spec_cells(),
                        crate::generators::paths::pos_index(maze.spec_width(), first),
                    )
                    &&& resets_visited(
                        st.last(),
                        replay_new(maze.spec_cells(), maze.spec_width(), flatten(st.drop_last())),
                        maze.spec_width(),
                    )
                }
                &&& old(self).spec_generator() is AldousBroder ==> one_current_rest_default(
                    replay_new(maze.spec_cells(), maze.spec_width(), flatten(final(self).spec_steps())),
                )
                &&& old(self).spec_generator() is Prims && builds_perfect(
                    old(self).spec_generator(),
                    maze.spec_cells(),
                    maze.spec_width(),
                    maze.spec_height(),
                    old(draws).spec_words(),
                    old(draws).spec_next() as int,
                ) ==> all_visited(
                    replay_new(maze.spec_cells(), maze.spec_width(), flatten(final(self).spec_steps())),
                )
                &&& old(self).spec_generator() is Prims ==> {
                    let n = old(draws).spec_next() as int;
                    let words = old(draws).spec_words();
                    let first = random_cell(words, n, maze.spec_height(), maze.spec_width());
                    opened_as_run(
                        final(self).spec_steps(),
                        prims_run(
                            maze.spec_width(),
                            maze.spec_height(),
                            words,
                            n + 2,
                            reached(maze.spec_cells()).insert(
                                crate::generators::paths::pos_index(maze.spec_width(), first),
                            ),
                            start_entries(first, maze.spec_width(), maze.spec_height(), 4),
                        ),
                    )
                }
                &&& old(self).spec_generator() is RecursiveDivision ==> {
                    let n = old(draws).spec_next() as int;
                    let words = old(draws).spec_words();
                    let wd = maze.spec_width();
                    let ht = maze.spec_height();
                    split_as_run(
                        final(self).spec_steps(),
                        if wd as int * ht as int > 0 {
                            1int
                        } else {
                            0
                        },
                        division_run(
                            words,
                            n + if wd == ht {
                                1int
                            } else {
                                0
                            },
                            seq![(0u32, 0u32, wd, ht, split_horizontal(wd, ht, words, n))],
                        ),
                    )
                }
                &&& old(self).spec_generator() is Prims ==> final(self).spec_steps().len() > 0
                    && walls_every_cell(final(self).spec_steps()[0], maze.spec_cells(), maze.spec_width())
                &&& old(self).spec_generator() is Kruskals ==> {
                    &&& knocked_from(
                        final(self).spec_steps(),
                        kruskal_order(
                            maze.spec_width(),
                            maze.spec_height(),
                            old(draws).spec_words(),
                            old(draws).spec_next() as int,
                        ),
                        maze.spec_cells(),
                        maze.spec_width(),
                        maze.spec_height(),
                    )
                    &&& final(self).spec_steps().len() == maze.spec_width() as int * maze.spec_height() as int
                    &&& final(self).spec_steps().len() > 0 ==> walls_every_cell(
                        final(self).spec_steps()[0],
                        maze.spec_cells(),
                        maze.spec_width(),
                    )
                    &&& forall|k: int|
                        1 <= k < final(self).spec_steps().len() ==> removes_one_wall(
                            #[trigger] final(self).spec_steps()[k],
                        )
                    &&& final(draws).spec_next() == old(draws).spec_next() + shuffle_draws(
                        maze.spec_width(),
                        maze.spec_height(),
                    )
                }
                &&& old(self).spec_generator() is RecursiveDivision ==> {
                    let st = final(self).spec_steps();
                    &&& forall|k: int| 0 <= k < st.len() ==> (#[trigger] st[k]).len() > 0
                    &&& (st.len() == 0 <==> maze.spec_width() as int * maze.spec_height() as int == 0)
                    &&& st.len() > 0 ==> clears_every_cell(st[0], maze.spec_cells(), maze.spec_width())
                    &&& changes_keep_types(st)
                }
                &&& (old(self).spec_generator() is Kruskals || old(self).spec_generator() is RecursiveDivision)
                    ==> {
                    &&& forall|k: int|
                        0 <= k < final(self).spec_steps().len() ==> distinct_positions(
                            maze.spec_width(),
                            #[trigger] final(self).spec_steps()[k],
                        )
                    &&& types_kept(
                        maze.spec_cells(),
                        replay_new(maze.spec_cells(), maze.spec_width(), flatten(final(self).spec_steps())),
                    )
                }
            },
            old(self).spec_generator() is Kruskals ==> (generated <==> old(draws).spec_words().len()
                - old(draws).spec_next() >= shuffle_draws(maze.spec_width(), maze.spec_height())),
            old(self).spec_generator() is RecursiveDivision && old(draws).spec_words().len()
                - old(draws).spec_next() >= 1 + 4 * (maze.spec_width() as int * maze.spec_height() as int)
                ==> generated,
            old(self).spec_generator() is Prims && old(draws).spec_words().len() - old(draws).spec_next()
                >= 2 + 4 * (maze.spec_width() as int * maze.spec_height() as int) ==> generated,
            old(self).spec_generator() is AldousBroder && ({
                let n = old(draws).spec_next() as int;
                let words = old(draws).spec_words();
                let first = random_cell(words, n, maze.spec_height(), maze.spec_width());
                let i0 = crate::generators::paths::pos_index(maze.spec_width(), first);
                &&& n + 2 <= words.len()
                &&& visited_only_at(maze.spec_cells(), i0)
                &&& walk_reaches_all(
                    maze.spec_width(),
                    maze.spec_height(),
                    words,
                    n + 2,
                    first,
                    set![i0],
                    maze.spec_width() as int * maze.spec_height() as int,
                )
            }) ==> generated,
            !generated ==> {
                &&& final(self).spec_steps() == old(self).spec_steps()
                &&& final(self).spec_current() == old(self).spec_current()
                &&& final(draws).exhausted()
            },
    {
        proof {
            use_type_invariant(&*self);
        }
        let mut generator = GeneratorChoice::Kruskals(Kruskals::new());
        std::mem::swap(&mut self.generator, &mut generator);
        let result = match &mut generator {
            GeneratorChoice::AldousBroder(g) => g.generate_maze_steps(maze, draws),
            GeneratorChoice::RecursiveDivision(g) => g.generate_maze_steps(maze, draws),
            GeneratorChoice::Kruskals(g) => g.generate_maze_steps(maze, draws),
            GeneratorChoice::Prims(g) => g.generate_maze_steps(maze, draws),
        };
        self.generator = generator;
        match result {
            Some(steps) => {
                self.current_step = 0;
                self.steps = steps;
                true
            },
            None => false,
        }
    }

    /// Whether the builder's generator can build a maze of this size.
    pub fn accepts(&self, width: u32, height: u32) -> (r: bool)
        ensures
            r == choice_accepts(self.spec_generator(), width, height),
    {
        proof {
            use_type_invariant(&*self);
        }
        match &self.generator {
            GeneratorChoice::AldousBroder(_) => width > 0 && height > 0,
            GeneratorChoice::Prims(_) => width > 0 && height > 0,
            _ => true,
        }
    }

    /// Whether step `k` exists and every change of it lies inside `maze`
    /// (replaying one that does not would be out of bounds).
    pub fn fits_step(&self, k: usize, maze: &Maze) -> (r: bool)
        ensures
            r == (k < self.spec_steps().len() && step_fits(
                self.spec_steps()[k as int],
                maze.spec_width(),
                maze.spec_height(),
            )),
    {
        proof {
            use_type_invariant(&*self);
        }
        if k >= self.steps.len() {
            return false;
        }
        let step = &self.steps[k];
        let mut j: usize = 0;
        while j < step.len()
            invariant
                k < self.steps@.len(),
                step@ == self.spec_steps()[k as int],
                j <= step@.len(),
                forall|i: int|
                    0 <= i < j ==> (#[trigger] step@[i]).row < maze.spec_height() && step@[i].col
                        < maze.spec_width(),
            decreases step@.len() - j,
        {
            let change = step[j];
            if change.row >= maze.height() || change.col >= maze.width() {
                return false;
            }
            j = j + 1;
        }
        true
    }

    /// Whether every change of each of the first `count` steps (of those
    /// there are) lies inside `maze`.
    pub fn fits_first(&self, count: usize, maze: &Maze) -> (r: bool)
        ensures
            r == steps_fit(self.spec_steps(), maze.spec_width(), maze.spec_height(), count as int),
    {
        proof {
            use_type_invariant(&*self);
        }
        let mut i: usize = 0;
        while i < count && i < self.steps.len()
            invariant
                i <= count,
                i <= self.steps@.len(),
                steps_fit(self.spec_steps(), maze.spec_width(), maze.spec_height(), i as int),
            decreases self.steps@.len() - i,
        {
            if !self.fits_step(i, maze) {
                return false;
            }
            i = i + 1;
        }
        true
    }

    /// Replay the next stored step onto `maze`, writing each change's new
    /// value in order; false, changing nothing, when every step has been replayed.
    pub fn step_forward(&mut self, maze: &mut Maze) -> (moved: bool)
        requires
            old(maze).wf(),
            old(self).spec_current() < old(self).spec_steps().len() ==> step_fits(
                old(self).spec_steps()[old(self).spec_current() as int],
                old(maze).spec_width(),
                old(maze).spec_height(),
            ),
        ensures
            final(self).wf(),
            final(self).spec_steps() == old(self).spec_steps(),
            final(self).spec_generator() == old(self).spec_generator(),
            final(maze).wf(),
            final(maze).spec_width() == old(maze).spec_width(),
            final(maze).spec_height() == old(maze).spec_height(),
            moved == (old(self).spec_current() < old(self).spec_steps().len()),
            moved ==> final(self).spec_current() == old(self).spec_current() + 1
                && final(maze).spec_cells() == replay_new(
                old(maze).spec_cells(),
                old(maze).spec_width(),
                old(self).spec_steps()[old(self).spec_current() as int],
            ),
            !moved ==> final(self).spec_current() == old(self).spec_current()
                && final(maze).spec_cells() == old(maze).spec_cells(),
    {
        proof {
            use_type_invariant(&*self);
        }
        if self.current_step < self.steps.len() {
            // Replay saved step
            let step = &self.steps[self.current_step];
            let ghost s = step@;
            let mut k: usize = 0;
            while k < step.len()
                invariant
                    maze.wf(),
                    maze.spec_width() == old(maze).spec_width(),
                    maze.spec_height() == old(maze).spec_height(),
                    s == step@,
                    s == old(self).spec_steps()[old(self).spec_current() as int],
                    step_fits(s, old(maze).spec_width(), old(maze).spec_height()),
                    old(self).spec_current() < old(self).spec_steps().len(),
                    k <= s.len(),
                    maze.spec_cells() == replay_new(old(maze).spec_cells(), maze.spec_width(), s.take(k as int)),
                decreases s.len() - k,
            {
                let change = step[k];
                maze.set_cell(change.row, change.col, change.new);
                proof {
                    assert(s.take(k as int + 1).drop_last() =~= s.take(k as int));
                }
                k = k + 1;
            }
            proof {
                assert(s.take(s.len() as int) =~= s);
            }
            self.current_step = self.current_step + 1;
            return true;
        }
        // If there is no steps left return false to indicate that
        false
    }

    /// Undo the last replayed step on `maze`, writing each change's old value
    /// in the order the changes were recorded; false, changing nothing, when
    /// no step has been replayed.
    pub fn step_backward(&mut self, maze: &mut Maze) -> (moved: bool)
        requires
            old(maze).wf(),
            old(self).spec_current() > 0 ==> step_fits(
                old(self).spec_steps()[old(self).spec_current() - 1],
                old(maze).spec_width(),
                old(maze).spec_height(),
            ),
        ensures
            final(self).wf(),
            final(self).spec_steps() == old(self).spec_steps(),
            final(self).spec_generator() == old(self).spec_generator(),
            final(maze).wf(),
            final(maze).spec_width() == old(maze).spec_width(),
            final(maze).spec_height() == old(maze).spec_height(),
            moved == (old(self).spec_current() > 0),
            moved ==> final(self).spec_current() == old(self).spec_current() - 1
                && final(maze).spec_cells() == replay_old(
                old(maze).spec_cells(),
                old(maze).spec_width(),
                old(self).spec_steps()[old(self).spec_current() - 1],
            ),
            !moved ==> final(self).spec_current() == old(self).spec_current()
                && final(maze).spec_cells() == old(maze).spec_cells(),
    {
        proof {
            use_type_invariant(&*self);
        }
        if self.current_step == 0 {
            return false;
        }
        self.current_step = self.current_step - 1;
        let step = &self.steps[self.current_step];
        let ghost s = step@;
        let mut k: usize = 0;
        while k < step.len()
            invariant
                maze.wf(),
                maze.spec_width() == old(maze).spec_width(),
                maze.spec_height() == old(maze).spec_height(),
                s == step@,
                s == old(self).spec_steps()[old(self).spec_current() - 1],
                step_fits(s, old(maze).spec_width(), old(maze).spec_height()),
                0 < old(self).spec_current() <= old(self).spec_steps().len(),
                k <= s.len(),
                maze.spec_cells() == replay_old(old(maze).spec_cells(), maze.spec_width(), s.take(k as int)),
            decreases s.len() - k,
        {
            let change = step[k];
            maze.set_cell(change.row, change.col, change.old);
            proof {
                assert(s.take(k as int + 1).drop_last() =~= s.take(k as int));
            }
            k = k + 1;
        }
        proof {
            assert(s.take(s.len() as int) =~= s);
        }
        true
    }

    pub fn total_steps(&self) -> (n: usize)
        ensures
            n == self.spec_steps().len(),
    {
        proof {
            use_type_invariant(&*self);
        }
        self.steps.len()
    }

    /// How many steps have been replayed; never more than there are, whatever
    /// calls led here.
    pub fn current_step(&self) -> (n: usize)
        ensures
            n == self.spec_current(),
            self.wf(),
    {
        proof {
            use_type_invariant(self);
        }
        self.current_step
    }

    /// Go back to the first step without touching the maze.
    pub fn reset(&mut self)
        ensures
            final(self).wf(),
            final(self).spec_current() == 0,
            final(self).spec_steps() == old(self).spec_steps(),
            final(self).spec_generator() == old(self).spec_generator(),
    {
        proof {
            use_type_invariant(&*self);
        }
        self.current_step = 0;
    }

    /// Reset, then replay steps 0..=target (as many as there are) onto `maze`.
    pub fn step_to(&mut self, target: usize, maze: &mut Maze)
        requires
            old(maze).wf(),
            steps_fit(old(self).spec_steps(), old(maze).spec_width(), old(maze).spec_height(), target + 1),
        ensures
            final(self).wf(),
            final(self).spec_steps() == old(self).spec_steps(),
            final(self).spec_generator() == old(self).spec_generator(),
            final(maze).wf(),
            final(maze).spec_width() == old(maze).spec_width(),
            final(maze).spec_height() == old(maze).spec_height(),
            final(self).spec_current() == if target < old(self).spec_steps().len() {
                target + 1
            } else {
                old(self).spec_steps().len() as int
            },
            final(maze).spec_cells() == replay_new(
                old(maze).spec_cells(),
                old(maze).spec_width(),
                flatten(old(self).spec_steps().take(final(self).spec_current() as int)),
            ),
    {
        proof {
            use_type_invariant(&*self);
        }
        self.reset();
        proof {
            assert(old(self).spec_steps().take(0) =~= Seq::<Seq<MazeChange>>::empty());
        }
        let mut remaining = target;
        loop
            invariant_except_break
                self.spec_current() == target - remaining,
            invariant
                self.wf(),
                self.spec_steps() == old(self).spec_steps(),
                self.spec_generator() == old(self).spec_generator(),
                maze.wf(),
                maze.spec_width() == old(maze).spec_width(),
                maze.spec_height() == old(maze).spec_height(),
                steps_fit(old(self).spec_steps(), old(maze).spec_width(), old(maze).spec_height(), target + 1),
                self.spec_current() <= target + 1,
                remaining <= target,
                maze.spec_cells() == replay_new(
                    old(maze).spec_cells(),
                    old(maze).spec_width(),
                    flatten(old(self).spec_steps().take(self.spec_current() as int)),
                ),
            ensures
                self.spec_current() == if target < old(self).spec_steps().len() {
                    target + 1
                } else {
                    old(self).spec_steps().len() as int
                },
            decreases remaining,
        {
            let ghost k = self.spec_current();
            let ghost before = maze.spec_cells();
            if !self.step_forward(maze) {
                break;
            }
            proof {
                let st = old(self).spec_steps();
                assert(st.take(k + 1int).drop_last() =~= st.take(k as int));
                assert(st.take(k + 1int).last() == st[k as int]);
                crate::generators::trace::lemma_replay_concat(
                    old(maze).spec_cells(),
                    old(maze).spec_width(),
                    flatten(st.take(k as int)),
                    st[k as int],
                );
            }
            if remaining == 0 {
                break;
            }
            remaining = remaining - 1;
        }
    }
}

} // verus!
