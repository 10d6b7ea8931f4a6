//! Recorded changes: replaying them forwards and backwards, and what makes a
//! list of changes a faithful record of how one grid became another.
use vstd::prelude::*;

use crate::cell::Cell;
use crate::maze::{cell_index, MazeChange};

verus! {

/// Position of a change in the row-major cell list.
pub open spec fn change_index(width: u32, ch: MazeChange) -> int {
    cell_index(width, ch.row, ch.col)
}

/// The change record of one cell.
pub open spec fn change(row: u32, col: u32, old: Cell, new: Cell) -> MazeChange {
    MazeChange { row, col, old, new }
}

/// Apply the changes in order, writing each one's `new` value.
pub open spec fn replay_new(cells: Seq<Cell>, width: u32, changes: Seq<MazeChange>) -> Seq<Cell>
    decreases changes.len(),
{
    if changes.len() == 0 {
        cells
    } else {
        replay_new(cells, width, changes.drop_last()).update(
            change_index(width, changes.last()),
            changes.last().new,
        )
    }
}

/// Apply the changes in order, writing each one's `old` value.
pub open spec fn replay_old(cells: Seq<Cell>, width: u32, changes: Seq<MazeChange>) -> Seq<Cell>
    decreases changes.len(),
{
    if changes.len() == 0 {
        cells
    } else {
        replay_old(cells, width, changes.drop_last()).update(
            change_index(width, changes.last()),
            changes.last().old,
        )
    }
}

/// Every change lies inside the grid and records as its `old` value the cell
/// that was there when it was made (starting from `before`).
pub open spec fn trace_ok(before: Seq<Cell>, width: u32, height: u32, changes: Seq<MazeChange>) -> bool
    decreases changes.len(),
{
    if changes.len() == 0 {
        true
    } else {
        let last = changes.last();
        &&& trace_ok(before, width, height, changes.drop_last())
        &&& last.row < height
        &&& last.col < width
        &&& replay_new(before, width, changes.drop_last())[change_index(width, last)] == last.old
    }
}

/// `changes` is a faithful record of how the grid went from `before` to `after`.
pub open spec fn is_trace(
    before: Seq<Cell>,
    width: u32,
    height: u32,
    changes: Seq<MazeChange>,
    after: Seq<Cell>,
) -> bool {
    trace_ok(before, width, height, changes) && replay_new(before, width, changes) == after
}

/// All the changes of a list of steps, one step after the other.
pub open spec fn flatten(steps: Seq<Seq<MazeChange>>) -> Seq<MazeChange>
    decreases steps.len(),
{
    if steps.len() == 0 {
        Seq::empty()
    } else {
        flatten(steps.drop_last()) + steps.last()
    }
}

/// The steps of a `Vec` of `Vec`s as sequences.
pub open spec fn steps_view(steps: Seq<Vec<MazeChange>>) -> Seq<Seq<MazeChange>> {
    steps.map_values(|s: Vec<MazeChange>| s@)
}

/// The index of the last change that touches position `i`, or -1.
pub open spec fn last_write(width: u32, changes: Seq<MazeChange>, i: int) -> int
    decreases changes.len(),
{
    if changes.len() == 0 {
        -1
    } else if change_index(width, changes.last()) == i {
        changes.len() - 1
    } else {
        last_write(width, changes.drop_last(), i)
    }
}

/// The changes touch pairwise different positions.
pub open spec fn distinct_positions(width: u32, changes: Seq<MazeChange>) -> bool {
    forall|a: int, b: int|
        0 <= a < b < changes.len() ==> change_index(width, #[trigger] changes[a]) != change_index(
            width,
            #[trigger] changes[b],
        )
}

/// Every change lies inside a grid of `len` cells.
pub open spec fn all_inside(width: u32, len: nat, changes: Seq<MazeChange>) -> bool {
    forall|k: int| 0 <= k < changes.len() ==> 0 <= #[trigger] change_index(width, changes[k]) < len
}

/// Replaying keeps the number of cells.
pub proof fn lemma_replay_len(cells: Seq<Cell>, width: u32, changes: Seq<MazeChange>)
    requires
        all_inside(width, cells.len(), changes),
    ensures
        replay_new(cells, width, changes).len() == cells.len(),
        replay_old(cells, width, changes).len() == cells.len(),
    decreases changes.len(),
{
    if changes.len() > 0 {
        assert(all_inside(width, cells.len(), changes.drop_last())) by {
            assert forall|k: int| 0 <= k < changes.drop_last().len() implies 0 <= #[trigger] change_index(
                width,
                changes.drop_last()[k],
            ) < cells.len() by {
                assert(changes.drop_last()[k] == changes[k]);
            }
        }
        lemma_replay_len(cells, width, changes.drop_last());
    }
}

/// What replaying leaves at a position: the last change there decides, else
/// the cell is as it was.
pub proof fn lemma_replay_at(cells: Seq<Cell>, width: u32, changes: Seq<MazeChange>, i: int)
    requires
        all_inside(width, cells.len(), changes),
        0 <= i < cells.len(),
    ensures
        -1 <= last_write(width, changes, i) < changes.len(),
        last_write(width, changes, i) >= 0 ==> change_index(
            width,
            changes[last_write(width, changes, i)],
        ) == i,
        replay_new(cells, width, changes)[i] == if last_write(width, changes, i) >= 0 {
            changes[last_write(width, changes, i)].new
        } else {
            cells[i]
        },
        replay_old(cells, width, changes)[i] == if last_write(width, changes, i) >= 0 {
            changes[last_write(width, changes, i)].old
        } else {
            cells[i]
        },
    decreases changes.len(),
{
    if changes.len() > 0 {
        let init = changes.drop_last();
        assert(all_inside(width, cells.len(), init)) by {
            assert forall|k: int| 0 <= k < init.len() implies 0 <= #[trigger] change_index(
                width,
                init[k],
            ) < cells.len() by {
                assert(init[k] == changes[k]);
            }
        }
        lemma_replay_at(cells, width, init, i);
        lemma_replay_len(cells, width, init);
        assert(0 <= change_index(width, changes[changes.len() - 1]) < cells.len());
        let lw = last_write(width, init, i);
        if lw >= 0 {
            assert(init[lw] == changes[lw]);
        }
    }
}

/// A position that some change touches has a last write, at or after that change.
pub proof fn lemma_last_write_found(width: u32, changes: Seq<MazeChange>, i: int, k: int)
    requires
        0 <= k < changes.len(),
        change_index(width, changes[k]) == i,
    ensures
        k <= last_write(width, changes, i),
    decreases changes.len(),
{
    if k < changes.len() - 1 {
        assert(changes.drop_last()[k] == changes[k]);
        lemma_last_write_found(width, changes.drop_last(), i, k);
    }
}

/// Replaying a concatenation is replaying one list after the other.
pub proof fn lemma_replay_concat(
    cells: Seq<Cell>,
    width: u32,
    a: Seq<MazeChange>,
    b: Seq<MazeChange>,
)
    ensures
        replay_new(cells, width, a + b) == replay_new(replay_new(cells, width, a), width, b),
        replay_old(cells, width, a + b) == replay_old(replay_old(cells, width, a), width, b),
    decreases b.len(),
{
    if b.len() == 0 {
        assert(a + b =~= a);
    } else {
        assert((a + b).drop_last() =~= a + b.drop_last());
        assert((a + b).last() == b.last());
        lemma_replay_concat(cells, width, a, b.drop_last());
    }
}

/// Two faithful records, one after the other, make a faithful record.
pub proof fn lemma_trace_concat(
    before: Seq<Cell>,
    width: u32,
    height: u32,
    a: Seq<MazeChange>,
    mid: Seq<Cell>,
    b: Seq<MazeChange>,
    after: Seq<Cell>,
)
    requires
        is_trace(before, width, height, a, mid),
        is_trace(mid, width, height, b, after),
    ensures
        is_trace(before, width, height, a + b, after),
    decreases b.len(),
{
    lemma_replay_concat(before, width, a, b);
    if b.len() == 0 {
        assert(a + b =~= a);
    } else {
        let b0 = b.drop_last();
        let mid2 = replay_new(mid, width, b0);
        assert(trace_ok(mid, width, height, b0));
        lemma_trace_concat(before, width, height, a, mid, b0, mid2);
        assert((a + b).drop_last() =~= a + b0);
        assert((a + b).last() == b.last());
        lemma_replay_concat(before, width, a, b0);
    }
}

/// Extending a faithful record by one change.
pub proof fn lemma_trace_push(
    before: Seq<Cell>,
    width: u32,
    height: u32,
    a: Seq<MazeChange>,
    mid: Seq<Cell>,
    ch: MazeChange,
)
    requires
        is_trace(before, width, height, a, mid),
        ch.row < height,
        ch.col < width,
        mid[change_index(width, ch)] == ch.old,
    ensures
        is_trace(before, width, height, a.push(ch), mid.update(change_index(width, ch), ch.new)),
{
    assert(a.push(ch).drop_last() =~= a);
}

/// A faithful record lies inside the grid.
pub proof fn lemma_trace_inside(before: Seq<Cell>, width: u32, height: u32, changes: Seq<MazeChange>)
    requires
        trace_ok(before, width, height, changes),
        before.len() == width as int * height as int,
    ensures
        all_inside(width, before.len(), changes),
    decreases changes.len(),
{
    if changes.len() > 0 {
        let init = changes.drop_last();
        lemma_trace_inside(before, width, height, init);
        let last = changes.last();
        crate::maze::lemma_index_in_bounds(width, height, last.row, last.col);
        assert forall|k: int| 0 <= k < changes.len() implies 0 <= #[trigger] change_index(
            width,
            changes[k],
        ) < before.len() by {
            if k < init.len() {
                assert(changes[k] == init[k]);
            }
        }
    }
}

/// Replaying the `new` values of a faithful record and then its `old` values
/// gives back the starting grid when the record touches each position once.
pub proof fn lemma_undo_step(
    before: Seq<Cell>,
    width: u32,
    height: u32,
    changes: Seq<MazeChange>,
    after: Seq<Cell>,
)
    requires
        before.len() == width as int * height as int,
        is_trace(before, width, height, changes, after),
        distinct_positions(width, changes),
    ensures
        replay_old(after, width, changes) == before,
{
    lemma_trace_inside(before, width, height, changes);
    lemma_replay_len(before, width, changes);
    lemma_trace_olds(before, width, height, changes);
    assert forall|i: int| 0 <= i < before.len() implies replay_old(after, width, changes)[i]
        == before[i] by {
        lemma_replay_at(after, width, changes, i);
        lemma_replay_at(before, width, changes, i);
        let lw = last_write(width, changes, i);
        if lw >= 0 {
            assert(changes[lw].old == before[i]);
        }
    }
    lemma_replay_len(after, width, changes);
    assert(replay_old(after, width, changes) =~= before);
}

/// At every position the record touches, the last change there records as
/// its `old` value the cell that the position held before the record.
pub open spec fn last_olds_match(before: Seq<Cell>, width: u32, changes: Seq<MazeChange>) -> bool {
    forall|i: int|
        0 <= i < before.len() && last_write(width, changes, i) >= 0 ==> changes[#[trigger] last_write(
            width,
            changes,
            i,
        )].old == before[i]
}

/// Replaying the `old` values of a faithful record (in the order the changes
/// were made) after its `new` values gives back the starting grid exactly
/// when the last change at each touched position records the starting cell
/// as its `old` value. A position changed twice by the record breaks this
/// unless its second change records the cell from before the first.
pub proof fn lemma_undo_step_iff(
    before: Seq<Cell>,
    width: u32,
    height: u32,
    changes: Seq<MazeChange>,
    after: Seq<Cell>,
)
    requires
        before.len() == width as int * height as int,
        is_trace(before, width, height, changes, after),
    ensures
        replay_old(after, width, changes) == before <==> last_olds_match(before, width, changes),
{
    lemma_trace_inside(before, width, height, changes);
    lemma_replay_len(before, width, changes);
    lemma_replay_len(after, width, changes);
    assert forall|i: int| 0 <= i < before.len() implies (replay_old(after, width, changes)[i]
        == before[i] <==> (last_write(width, changes, i) >= 0 ==> changes[last_write(
        width,
        changes,
        i,
    )].old == before[i])) by {
        lemma_replay_at(after, width, changes, i);
        lemma_replay_at(before, width, changes, i);
    }
    if last_olds_match(before, width, changes) {
        assert(replay_old(after, width, changes) =~= before);
    }
    if replay_old(after, width, changes) == before {
        assert forall|i: int|
            0 <= i < before.len() && last_write(width, changes, i) >= 0 implies changes[#[trigger] last_write(
            width,
            changes,
            i,
        )].old == before[i] by {
            assert(replay_old(after, width, changes)[i] == before[i]);
        }
    }
}

/// The changes of all steps are those of the first `j` steps followed by
/// those of the rest.
pub proof fn lemma_flatten_split(steps: Seq<Seq<MazeChange>>, j: int)
    requires
        0 <= j <= steps.len(),
    ensures
        flatten(steps) == flatten(steps.take(j)) + flatten(steps.skip(j)),
    decreases steps.len(),
{
    if j == steps.len() {
        assert(steps.take(j) =~= steps);
        assert(steps.skip(j) =~= Seq::<Seq<MazeChange>>::empty());
        assert(flatten(steps) + Seq::<MazeChange>::empty() =~= flatten(steps));
    } else {
        let init = steps.drop_last();
        lemma_flatten_split(init, j);
        assert(init.take(j) =~= steps.take(j));
        assert(steps.skip(j).drop_last() =~= init.skip(j));
        assert(steps.skip(j).last() == steps.last());
        assert(flatten(steps.take(j)) + flatten(init.skip(j)) + steps.last() =~= flatten(steps.take(j))
            + (flatten(init.skip(j)) + steps.last()));
    }
}

/// A faithful record of two parts: the first part is faithful from the start,
/// the second from where the first left the grid.
pub proof fn lemma_trace_split(
    before: Seq<Cell>,
    width: u32,
    height: u32,
    a: Seq<MazeChange>,
    b: Seq<MazeChange>,
)
    requires
        trace_ok(before, width, height, a + b),
    ensures
        trace_ok(before, width, height, a),
        trace_ok(replay_new(before, width, a), width, height, b),
    decreases b.len(),
{
    if b.len() == 0 {
        assert(a + b =~= a);
    } else {
        let b0 = b.drop_last();
        assert((a + b).drop_last() =~= a + b0);
        assert((a + b).last() == b.last());
        lemma_trace_split(before, width, height, a, b0);
        lemma_replay_concat(before, width, a, b0);
    }
}

/// In a faithful record of a run of steps, stepping back over step `k` (writing
/// its `old` values in the order its changes were made) right after stepping
/// forward over it restores the grid as it was before step `k` exactly when
/// the last change at each position that the step touches records the cell
/// from before the step; in particular whenever the step touches each
/// position only once.
pub proof fn lemma_step_back_restores(
    start: Seq<Cell>,
    width: u32,
    height: u32,
    steps: Seq<Seq<MazeChange>>,
    k: int,
)
    requires
        start.len() == width as int * height as int,
        trace_ok(start, width, height, flatten(steps)),
        0 <= k < steps.len(),
    ensures
        ({
            let before = replay_new(start, width, flatten(steps.take(k)));
            let forward = replay_new(before, width, steps[k]);
            &&& replay_old(forward, width, steps[k]) == before <==> last_olds_match(
                before,
                width,
                steps[k],
            )
            &&& distinct_positions(width, steps[k]) ==> replay_old(forward, width, steps[k])
                == before
        }),
{
    let head = flatten(steps.take(k));
    let before = replay_new(start, width, head);
    lemma_flatten_split(steps, k);
    assert(steps.skip(k).len() > 0);
    lemma_flatten_split(steps.skip(k), 1);
    assert(steps.skip(k).take(1) =~= seq![steps[k]]);
    assert(seq![steps[k]].drop_last() =~= Seq::<Seq<MazeChange>>::empty());
    assert(flatten(Seq::<Seq<MazeChange>>::empty()) == Seq::<MazeChange>::empty());
    assert(flatten(seq![steps[k]]) == Seq::<MazeChange>::empty() + steps[k]);
    assert(flatten(seq![steps[k]]) =~= steps[k]);
    let tail = flatten(steps.skip(k).skip(1));
    assert(flatten(steps) =~= (head + steps[k]) + tail);
    lemma_trace_split(start, width, height, head + steps[k], tail);
    lemma_trace_split(start, width, height, head, steps[k]);
    lemma_trace_inside(start, width, height, head);
    lemma_replay_len(start, width, head);
    let forward = replay_new(before, width, steps[k]);
    lemma_undo_step_iff(before, width, height, steps[k], forward);
    if distinct_positions(width, steps[k]) {
        lemma_undo_step(before, width, height, steps[k], forward);
    }
}

/// In a faithful record that touches each position once, every `old` value is
/// the starting cell at that position.
pub proof fn lemma_trace_olds(
    before: Seq<Cell>,
    width: u32,
    height: u32,
    changes: Seq<MazeChange>,
)
    requires
        before.len() == width as int * height as int,
        trace_ok(before, width, height, changes),
        distinct_positions(width, changes),
    ensures
        forall|k: int|
            0 <= k < changes.len() ==> (#[trigger] changes[k]).old == before[change_index(
                width,
                changes[k],
            )],
    decreases changes.len(),
{
    if changes.len() > 0 {
        let init = changes.drop_last();
        assert(distinct_positions(width, init)) by {
            assert forall|a: int, b: int| 0 <= a < b < init.len() implies change_index(
                width,
                #[trigger] init[a],
            ) != change_index(width, #[trigger] init[b]) by {
                assert(init[a] == changes[a]);
                assert(init[b] == changes[b]);
            }
        }
        lemma_trace_olds(before, width, height, init);
        lemma_trace_inside(before, width, height, init);
        let last = changes.last();
        let i = change_index(width, last);
        crate::maze::lemma_index_in_bounds(width, height, last.row, last.col);
        lemma_replay_at(before, width, init, i);
        let lw = last_write(width, init, i);
        if lw >= 0 {
            assert(init[lw] == changes[lw]);
            assert(changes[changes.len() - 1] == last);
        }
        assert forall|k: int| 0 <= k < changes.len() implies (#[trigger] changes[k]).old
            == before[change_index(width, changes[k])] by {
            if k < init.len() {
                assert(changes[k] == init[k]);
            }
        }
    }
}

/// Replaying the `old` values of a record and then its `new` values gives back
/// the grid that the record's `new` values produced.
pub proof fn lemma_redo_step(cells: Seq<Cell>, width: u32, changes: Seq<MazeChange>)
    requires
        all_inside(width, cells.len(), changes),
    ensures
        replay_new(replay_old(replay_new(cells, width, changes), width, changes), width, changes)
            == replay_new(cells, width, changes),
{
    let after = replay_new(cells, width, changes);
    lemma_replay_len(cells, width, changes);
    let back = replay_old(after, width, changes);
    lemma_replay_len(after, width, changes);
    lemma_replay_len(back, width, changes);
    assert forall|i: int| 0 <= i < cells.len() implies replay_new(back, width, changes)[i]
        == after[i] by {
        lemma_replay_at(cells, width, changes, i);
        lemma_replay_at(after, width, changes, i);
        lemma_replay_at(back, width, changes, i);
    }
    assert(replay_new(back, width, changes) =~= after);
}

/// A pass over the grid in row-major order has visited the positions below
/// `upto`: among those, each position that `touched` selects holds `f` of its
/// starting cell and has exactly one change, in increasing position order;
/// every other position still holds its starting cell.
pub open spec fn pass_prefix(
    before: Seq<Cell>,
    width: u32,
    height: u32,
    changes: Seq<MazeChange>,
    cur: Seq<Cell>,
    touched: spec_fn(int) -> bool,
    f: spec_fn(Cell) -> Cell,
    upto: int,
) -> bool {
    &&& cur.len() == before.len()
    &&& forall|i: int|
        0 <= i < before.len() ==> #[trigger] cur[i] == if i < upto && touched(i) {
            f(before[i])
        } else {
            before[i]
        }
    &&& forall|k: int|
        0 <= k < changes.len() ==> {
            &&& (#[trigger] changes[k]).row < height
            &&& changes[k].col < width
            &&& change_index(width, changes[k]) < upto
            &&& touched(change_index(width, changes[k]))
            &&& changes[k].old == before[change_index(width, changes[k])]
            &&& changes[k].new == f(before[change_index(width, changes[k])])
        }
    &&& forall|k1: int, k2: int|
        0 <= k1 < k2 < changes.len() ==> change_index(width, #[trigger] changes[k1])
            < change_index(width, #[trigger] changes[k2])
    &&& forall|i: int|
        0 <= i < upto && #[trigger] touched(i) ==> exists|k: int|
            0 <= k < changes.len() && change_index(width, #[trigger] changes[k]) == i
}

/// A completed pass that touches every position records exactly one change
/// per position, in row-major order.
pub proof fn lemma_full_pass_order(
    before: Seq<Cell>,
    width: u32,
    height: u32,
    changes: Seq<MazeChange>,
    cur: Seq<Cell>,
    touched: spec_fn(int) -> bool,
    f: spec_fn(Cell) -> Cell,
)
    requires
        pass_prefix(before, width, height, changes, cur, touched, f, before.len() as int),
        forall|i: int| #[trigger] touched(i),
    ensures
        changes.len() == before.len(),
        forall|k: int| 0 <= k < changes.len() ==> change_index(width, #[trigger] changes[k]) == k,
{
    let n = before.len() as int;
    assert forall|k: int| 0 <= k < changes.len() implies change_index(width, #[trigger] changes[k])
        == k by {
        lemma_pass_order_at(before, width, height, changes, cur, touched, f, k);
    }
    if changes.len() < n {
        assert(touched(changes.len() as int));
        let k = choose|k: int|
            0 <= k < changes.len() && change_index(width, #[trigger] changes[k]) == changes.len();
    }
    if changes.len() > n {
        assert(change_index(width, changes[n]) == n);
    }
}

proof fn lemma_pass_order_at(
    before: Seq<Cell>,
    width: u32,
    height: u32,
    changes: Seq<MazeChange>,
    cur: Seq<Cell>,
    touched: spec_fn(int) -> bool,
    f: spec_fn(Cell) -> Cell,
    k: int,
)
    requires
        pass_prefix(before, width, height, changes, cur, touched, f, before.len() as int),
        forall|i: int| #[trigger] touched(i),
        0 <= k < changes.len(),
    ensures
        change_index(width, changes[k]) == k,
    decreases k,
{
    if k > 0 {
        lemma_pass_order_at(before, width, height, changes, cur, touched, f, k - 1);
        assert(change_index(width, changes[k - 1]) < change_index(width, changes[k]));
    } else {
        assert(crate::maze::cell_index(width, changes[0].row, changes[0].col) >= 0) by {
            assert(changes[0].row as int * width as int >= 0) by (nonlinear_arith);
        }
    }
    let c = change_index(width, changes[k]);
    assert(c >= k);
    if c > k {
        assert(touched(k));
        let k2 = choose|k2: int| 0 <= k2 < changes.len() && change_index(width, #[trigger] changes[k2]) == k;
        if k2 < k {
            lemma_pass_order_at(before, width, height, changes, cur, touched, f, k2);
        } else {
            assert(change_index(width, changes[k]) < change_index(width, changes[k2]));
        }
    }
}

/// Nothing visited yet.
pub proof fn lemma_pass_start(
    before: Seq<Cell>,
    width: u32,
    height: u32,
    touched: spec_fn(int) -> bool,
    f: spec_fn(Cell) -> Cell,
)
    ensures
        pass_prefix(before, width, height, Seq::empty(), before, touched, f, 0),
{
}

/// Visiting position `i` = (row, col): if it is selected, its cell becomes `f`
/// of the starting cell and one change is recorded; otherwise nothing happens.
pub proof fn lemma_pass_step(
    before: Seq<Cell>,
    width: u32,
    height: u32,
    changes: Seq<MazeChange>,
    cur: Seq<Cell>,
    touched: spec_fn(int) -> bool,
    f: spec_fn(Cell) -> Cell,
    row: u32,
    col: u32,
)
    requires
        before.len() == width as int * height as int,
        row < height,
        col < width,
        pass_prefix(before, width, height, changes, cur, touched, f, cell_index(width, row, col)),
    ensures
        cur[cell_index(width, row, col)] == before[cell_index(width, row, col)],
        0 <= cell_index(width, row, col) < before.len(),
        touched(cell_index(width, row, col)) ==> pass_prefix(
            before,
            width,
            height,
            changes.push(
                change(
                    row,
                    col,
                    cur[cell_index(width, row, col)],
                    f(cur[cell_index(width, row, col)]),
                ),
            ),
            cur.update(cell_index(width, row, col), f(cur[cell_index(width, row, col)])),
            touched,
            f,
            cell_index(width, row, col) + 1,
        ),
        !touched(cell_index(width, row, col)) ==> pass_prefix(
            before,
            width,
            height,
            changes,
            cur,
            touched,
            f,
            cell_index(width, row, col) + 1,
        ),
{
    let i = cell_index(width, row, col);
    crate::maze::lemma_index_in_bounds(width, height, row, col);
    assert(cur[i] == before[i]);
    if touched(i) {
        let ch = change(row, col, cur[i], f(cur[i]));
        let ch2 = changes.push(ch);
        let cur2 = cur.update(i, f(cur[i]));
        assert(ch2[changes.len() as int] == ch);
        assert forall|k: int| 0 <= k < changes.len() implies ch2[k] == changes[k] by {}
        assert forall|j: int| 0 <= j < i + 1 && #[trigger] touched(j) implies exists|k: int|
            0 <= k < ch2.len() && change_index(width, #[trigger] ch2[k]) == j by {
            if j == i {
                assert(change_index(width, ch2[changes.len() as int]) == j);
            } else {
                let k = choose|k: int| 0 <= k < changes.len() && change_index(width, #[trigger] changes[k]) == j;
                assert(ch2[k] == changes[k]);
            }
        }
        assert forall|k1: int, k2: int| 0 <= k1 < k2 < ch2.len() implies change_index(
            width,
            #[trigger] ch2[k1],
        ) < change_index(width, #[trigger] ch2[k2]) by {
            if k2 < changes.len() {
                assert(ch2[k1] == changes[k1]);
                assert(ch2[k2] == changes[k2]);
            } else {
                assert(ch2[k1] == changes[k1]);
            }
        }
    } else {
        assert forall|j: int| 0 <= j < i + 1 && #[trigger] touched(j) implies exists|k: int|
            0 <= k < changes.len() && change_index(width, #[trigger] changes[k]) == j by {}
    }
}

/// A completed pass is a faithful record that touches each position once.
pub proof fn lemma_pass_is_trace(
    before: Seq<Cell>,
    width: u32,
    height: u32,
    changes: Seq<MazeChange>,
    after: Seq<Cell>,
    touched: spec_fn(int) -> bool,
    f: spec_fn(Cell) -> Cell,
)
    requires
        before.len() == width as int * height as int,
        pass_prefix(before, width, height, changes, after, touched, f, before.len() as int),
    ensures
        is_trace(before, width, height, changes, after),
        distinct_positions(width, changes),
{
    assert forall|k: int| 0 <= k < changes.len() implies 0 <= #[trigger] change_index(
        width,
        changes[k],
    ) < before.len() by {
        crate::maze::lemma_index_in_bounds(width, height, changes[k].row, changes[k].col);
    }
    lemma_trace_distinct(before, width, height, changes);
    lemma_replay_len(before, width, changes);
    assert forall|i: int| 0 <= i < before.len() implies replay_new(before, width, changes)[i]
        == after[i] by {
        lemma_replay_at(before, width, changes, i);
        let lw = last_write(width, changes, i);
        if touched(i) {
            let k = choose|k: int| 0 <= k < changes.len() && change_index(width, #[trigger] changes[k]) == i;
            lemma_last_write_found(width, changes, i, k);
        }
    }
    assert(replay_new(before, width, changes) =~= after);
}

/// Changes at distinct inside positions whose `old` values are the starting
/// cells form a faithful record.
pub proof fn lemma_trace_distinct(
    before: Seq<Cell>,
    width: u32,
    height: u32,
    changes: Seq<MazeChange>,
)
    requires
        before.len() == width as int * height as int,
        distinct_positions(width, changes),
        forall|k: int|
            0 <= k < changes.len() ==> (#[trigger] changes[k]).row < height && changes[k].col
                < width && changes[k].old == before[change_index(width, changes[k])],
    ensures
        trace_ok(before, width, height, changes),
    decreases changes.len(),
{
    if changes.len() > 0 {
        let init = changes.drop_last();
        assert forall|k: int| 0 <= k < init.len() implies (#[trigger] init[k]).row < height
            && init[k].col < width && init[k].old == before[change_index(width, init[k])] by {
            assert(init[k] == changes[k]);
        }
        assert forall|a: int, b: int| 0 <= a < b < init.len() implies change_index(
            width,
            #[trigger] init[a],
        ) != change_index(width, #[trigger] init[b]) by {
            assert(init[a] == changes[a]);
            assert(init[b] == changes[b]);
        }
        lemma_trace_distinct(before, width, height, init);
        lemma_trace_inside(before, width, height, init);
        let last = changes.last();
        let i = change_index(width, last);
        crate::maze::lemma_index_in_bounds(width, height, last.row, last.col);
        lemma_replay_at(before, width, init, i);
        let lw = last_write(width, init, i);
        if lw >= 0 {
            assert(init[lw] == changes[lw]);
            assert(changes[changes.len() - 1] == last);
        }
    }
}

} // verus!
