//! The order in which a generation visits the cells, the list of changes
//! it collects on the way, and what holds of both.

use vstd::prelude::*;
use crate::grid::{lemma_offset_in_range, lemma_offset_join, lemma_offset_split, Grid};

verus! {

/// How many integers lie from `from` up to, not including, `to`.
pub open spec fn span(from: int, to: int) -> nat {
    if from < to {
        (to - from) as nat
    } else {
        0
    }
}

/// The positions of row `r` from column `from` up to, not including,
/// column `to`, left to right.
pub open spec fn row_path(from: int, to: int, r: int) -> Seq<(usize, usize)> {
    Seq::new(span(from, to), |k: int| ((from + k) as usize, r as usize))
}

/// The positions of column `c` from row `from` up to, not including, row
/// `to`, top to bottom.
pub open spec fn column_path(c: int, from: int, to: int) -> Seq<(usize, usize)> {
    Seq::new(span(from, to), |k: int| (c as usize, (from + k) as usize))
}

/// The positions that touch no edge of a grid `width` wide, in rows `1` up
/// to, not including, `rows`: row by row, each from left to right.
pub open spec fn interior_path(width: int, rows: int) -> Seq<(usize, usize)>
    decreases rows,
{
    if rows <= 1 {
        Seq::empty()
    } else {
        interior_path(width, rows - 1) + row_path(1, width - 1, rows - 1)
    }
}

impl Grid {
    /// The order in which a generation visits the cells: the top row, the
    /// bottom row, the left column and the right column between them, then
    /// everything inside, row by row. Every position occurs exactly once.
    pub open spec fn scan_order(self) -> Seq<(usize, usize)> {
        let w = self.width;
        let h = self.height;
        if w <= 0 || h <= 0 {
            Seq::empty()
        } else {
            row_path(0, w, 0)
                + (if h > 1 { row_path(0, w, h - 1) } else { Seq::empty() })
                + column_path(0, 1, h - 1)
                + (if w > 1 { column_path(w - 1, 1, h - 1) } else { Seq::empty() })
                + interior_path(w, h - 1)
        }
    }

    /// The changes that the next generation makes to the cells on `path`,
    /// in the order of `path`: the position of each cell that flips, with
    /// its new state.
    pub open spec fn changes_along(self, path: Seq<(usize, usize)>) -> Seq<(usize, usize, bool)>
        decreases path.len(),
    {
        if path.len() == 0 {
            Seq::empty()
        } else {
            let before = self.changes_along(path.drop_last());
            let (c, r) = path.last();
            if self.flips(c as int, r as int) {
                before.push((c, r, self.next_alive(c as int, r as int)))
            } else {
                before
            }
        }
    }

    /// All changes that the next generation makes, in scan order.
    pub open spec fn changes(self) -> Seq<(usize, usize, bool)> {
        self.changes_along(self.scan_order())
    }

    /// The grid after the listed cells were written, first to last.
    pub open spec fn after(self, changes: Seq<(usize, usize, bool)>) -> Grid
        decreases changes.len(),
    {
        if changes.len() == 0 {
            self
        } else {
            let (c, r, alive) = changes.last();
            self.after(changes.drop_last()).with_cell(c as int, r as int, alive)
        }
    }
}

/// Visiting one more position adds its change, if it has one.
pub proof fn lemma_changes_along_push(grid: Grid, path: Seq<(usize, usize)>, p: (usize, usize))
    ensures
        grid.changes_along(path.push(p)) == if grid.flips(p.0 as int, p.1 as int) {
            grid.changes_along(path).push((p.0, p.1, grid.next_alive(p.0 as int, p.1 as int)))
        } else {
            grid.changes_along(path)
        },
{
    assert(path.push(p).drop_last() =~= path);
}

/// The changes along two paths in a row are the changes along the first
/// followed by those along the second.
pub proof fn lemma_changes_along_concat(
    grid: Grid,
    first: Seq<(usize, usize)>,
    second: Seq<(usize, usize)>,
)
    ensures
        grid.changes_along(first + second) == grid.changes_along(first) + grid.changes_along(
            second,
        ),
    decreases second.len(),
{
    if second.len() > 0 {
        let shorter = second.drop_last();
        let p = second.last();
        lemma_changes_along_concat(grid, first, shorter);
        assert(second =~= shorter.push(p));
        lemma_changes_along_push(grid, first + shorter, p);
        lemma_changes_along_push(grid, shorter, p);
    }
}

/// Every position that touches no edge lies on the interior path.
pub proof fn lemma_interior_covers(width: int, rows: int, c: int, r: int)
    requires
        1 <= c < width - 1,
        1 <= r < rows,
    ensures
        interior_path(width, rows).contains((c as usize, r as usize)),
    decreases rows,
{
    let earlier = interior_path(width, rows - 1);
    let row = row_path(1, width - 1, rows - 1);
    if r == rows - 1 {
        assert((earlier + row)[earlier.len() + c - 1] == (c as usize, r as usize));
    } else {
        lemma_interior_covers(width, rows - 1, c, r);
        let k = earlier.index_of((c as usize, r as usize));
        assert((earlier + row)[k] == (c as usize, r as usize));
    }
}

/// Every position on the interior path touches no edge.
pub proof fn lemma_interior_inside(width: int, rows: int, k: int)
    requires
        0 <= k < interior_path(width, rows).len(),
        width <= usize::MAX,
        rows <= usize::MAX,
    ensures
        1 <= interior_path(width, rows)[k].0 < width - 1,
        1 <= interior_path(width, rows)[k].1 < rows,
    decreases rows,
{
    if rows > 1 {
        let earlier = interior_path(width, rows - 1);
        if k < earlier.len() {
            lemma_interior_inside(width, rows - 1, k);
        }
    }
}

/// The interior path visits no position twice.
pub proof fn lemma_interior_distinct(width: int, rows: int, i: int, j: int)
    requires
        width <= usize::MAX,
        rows <= usize::MAX,
        0 <= i < j < interior_path(width, rows).len(),
    ensures
        interior_path(width, rows)[i] != interior_path(width, rows)[j],
    decreases rows,
{
    if rows > 1 {
        let earlier = interior_path(width, rows - 1);
        if j < earlier.len() {
            lemma_interior_distinct(width, rows - 1, i, j);
        } else if i < earlier.len() {
            lemma_interior_inside(width, rows - 1, i);
        }
    }
}

/// The scan order visits no position twice.
pub proof fn lemma_scan_order_distinct(grid: Grid, i: int, j: int)
    requires
        grid.width <= usize::MAX,
        grid.height <= usize::MAX,
        0 <= i < j < grid.scan_order().len(),
    ensures
        grid.scan_order()[i] != grid.scan_order()[j],
{
    let w = grid.width;
    let h = grid.height;
    let top = row_path(0, w, 0);
    let bottom = if h > 1 { row_path(0, w, h - 1) } else { Seq::empty() };
    let left = column_path(0, 1, h - 1);
    let right = if w > 1 { column_path(w - 1, 1, h - 1) } else { Seq::empty() };
    let edges = top.len() + bottom.len() + left.len() + right.len();
    if j >= edges {
        lemma_interior_inside(w, h - 1, j - edges);
        if i >= edges {
            lemma_interior_distinct(w, h - 1, i - edges, j - edges);
        }
    }
}

/// The scan order reaches every position of the grid.
pub proof fn lemma_scan_order_covers(grid: Grid, c: int, r: int)
    requires
        grid.contains(c, r),
    ensures
        grid.scan_order().contains((c as usize, r as usize)),
{
    let w = grid.width;
    let h = grid.height;
    let p = (c as usize, r as usize);
    let top = row_path(0, w, 0);
    let bottom = if h > 1 { row_path(0, w, h - 1) } else { Seq::empty() };
    let left = column_path(0, 1, h - 1);
    let right = if w > 1 { column_path(w - 1, 1, h - 1) } else { Seq::empty() };
    let inner = interior_path(w, h - 1);
    let order = grid.scan_order();
    if r == 0 {
        assert(order[c] == p);
    } else if r == h - 1 {
        assert(order[top.len() + c] == p);
    } else if c == 0 {
        assert(order[top.len() + bottom.len() + (r - 1)] == p);
    } else if c == w - 1 {
        assert(order[top.len() + bottom.len() + left.len() + (r - 1)] == p);
    } else {
        lemma_interior_covers(w, h - 1, c, r);
        let k = inner.index_of(p);
        assert(order[top.len() + bottom.len() + left.len() + right.len() + k] == p);
    }
}

/// The scan order never leaves the grid.
pub proof fn lemma_scan_order_inside(grid: Grid, j: int)
    requires
        grid.width <= usize::MAX,
        grid.height <= usize::MAX,
        0 <= j < grid.scan_order().len(),
    ensures
        grid.contains(grid.scan_order()[j].0 as int, grid.scan_order()[j].1 as int),
{
    let w = grid.width;
    let h = grid.height;
    let top = row_path(0, w, 0);
    let bottom = if h > 1 { row_path(0, w, h - 1) } else { Seq::empty() };
    let left = column_path(0, 1, h - 1);
    let right = if w > 1 { column_path(w - 1, 1, h - 1) } else { Seq::empty() };
    let edges = top.len() + bottom.len() + left.len() + right.len();
    if j >= edges {
        lemma_interior_inside(w, h - 1, j - edges);
    }
}

/// Every listed change is a cell of the path that flips, with the state it
/// flips to.
pub proof fn lemma_changes_along_sound(grid: Grid, path: Seq<(usize, usize)>, k: int)
    requires
        0 <= k < grid.changes_along(path).len(),
    ensures
        path.contains((grid.changes_along(path)[k].0, grid.changes_along(path)[k].1)),
        grid.flips(grid.changes_along(path)[k].0 as int, grid.changes_along(path)[k].1 as int),
        grid.changes_along(path)[k].2 == grid.next_alive(
            grid.changes_along(path)[k].0 as int,
            grid.changes_along(path)[k].1 as int,
        ),
    decreases path.len(),
{
    let shorter = path.drop_last();
    let before = grid.changes_along(shorter);
    if k < before.len() {
        lemma_changes_along_sound(grid, shorter, k);
        let j = shorter.index_of((before[k].0, before[k].1));
        assert(path[j] == shorter[j]);
    } else {
        assert(path[path.len() - 1] == path.last());
    }
}

/// Every change of a generation names a cell of the grid, which flips to
/// the state that is listed.
pub proof fn lemma_changes_inside(grid: Grid, k: int)
    requires
        grid.width <= usize::MAX,
        grid.height <= usize::MAX,
        0 <= k < grid.changes().len(),
    ensures
        grid.contains(grid.changes()[k].0 as int, grid.changes()[k].1 as int),
        grid.flips(grid.changes()[k].0 as int, grid.changes()[k].1 as int),
        grid.changes()[k].2 == grid.next_alive(
            grid.changes()[k].0 as int,
            grid.changes()[k].1 as int,
        ),
{
    let order = grid.scan_order();
    let changes = grid.changes();
    lemma_changes_along_sound(grid, order, k);
    lemma_scan_order_inside(grid, order.index_of((changes[k].0, changes[k].1)));
}

/// Every cell of the path that flips is listed.
pub proof fn lemma_changes_along_complete(grid: Grid, path: Seq<(usize, usize)>, j: int)
    requires
        0 <= j < path.len(),
        grid.flips(path[j].0 as int, path[j].1 as int),
    ensures
        grid.changes_along(path).contains(
            (path[j].0, path[j].1, grid.next_alive(path[j].0 as int, path[j].1 as int)),
        ),
    decreases path.len(),
{
    let shorter = path.drop_last();
    let before = grid.changes_along(shorter);
    let change = (path[j].0, path[j].1, grid.next_alive(path[j].0 as int, path[j].1 as int));
    if j < shorter.len() {
        lemma_changes_along_complete(grid, shorter, j);
        let k = before.index_of(change);
        assert(grid.changes_along(path)[k] == change);
    } else {
        assert(grid.changes_along(path)[before.len() as int] == change);
    }
}

/// Along a path that visits no position twice, no position is listed
/// twice.
pub proof fn lemma_changes_along_distinct(grid: Grid, path: Seq<(usize, usize)>, i: int, j: int)
    requires
        forall|a: int, b: int| 0 <= a < b < path.len() ==> path[a] != path[b],
        0 <= i < j < grid.changes_along(path).len(),
    ensures
        grid.changes_along(path)[i].0 != grid.changes_along(path)[j].0 || grid.changes_along(
            path,
        )[i].1 != grid.changes_along(path)[j].1,
    decreases path.len(),
{
    let shorter = path.drop_last();
    let before = grid.changes_along(shorter);
    if j < before.len() {
        assert forall|a: int, b: int| 0 <= a < b < shorter.len() implies shorter[a]
            != shorter[b] by {
            assert(shorter[a] == path[a] && shorter[b] == path[b]);
        }
        lemma_changes_along_distinct(grid, shorter, i, j);
    } else {
        // the last change is that of the last position, and the change
        // before it names a position that the path visited earlier
        lemma_changes_along_sound(grid, shorter, i);
        let a = shorter.index_of((before[i].0, before[i].1));
        assert(path[a] == shorter[a]);
        assert(path[path.len() - 1] == path.last());
    }
}

/// The changes of a generation name each cell at most once.
pub proof fn lemma_changes_name_no_cell_twice(grid: Grid, i: int, j: int)
    requires
        grid.width <= usize::MAX,
        grid.height <= usize::MAX,
        0 <= i < j < grid.changes().len(),
    ensures
        grid.changes()[i].0 != grid.changes()[j].0 || grid.changes()[i].1 != grid.changes()[j].1,
{
    let order = grid.scan_order();
    assert forall|a: int, b: int| 0 <= a < b < order.len() implies order[a] != order[b] by {
        lemma_scan_order_distinct(grid, a, b);
    }
    lemma_changes_along_distinct(grid, order, i, j);
}

/// The changes of a generation are the cells that flip: a cell of the grid
/// is listed, with its new state, exactly if the rule changes it.
pub proof fn lemma_changes_are_the_flips(grid: Grid, c: int, r: int)
    requires
        grid.width <= usize::MAX,
        grid.height <= usize::MAX,
        grid.contains(c, r),
    ensures
        grid.flips(c, r) <==> grid.changes().contains(
            (c as usize, r as usize, grid.next_alive(c, r)),
        ),
        !grid.changes().contains((c as usize, r as usize, !grid.next_alive(c, r))),
{
    let order = grid.scan_order();
    let changes = grid.changes();
    let p = (c as usize, r as usize);
    if grid.flips(c, r) {
        lemma_scan_order_covers(grid, c, r);
        lemma_changes_along_complete(grid, order, order.index_of(p));
    }
    if changes.contains((p.0, p.1, grid.next_alive(c, r))) {
        lemma_changes_along_sound(
            grid,
            order,
            changes.index_of((p.0, p.1, grid.next_alive(c, r))),
        );
    }
    if changes.contains((p.0, p.1, !grid.next_alive(c, r))) {
        lemma_changes_along_sound(
            grid,
            order,
            changes.index_of((p.0, p.1, !grid.next_alive(c, r))),
        );
    }
}

/// Writing cells one after another leaves each position of the grid with
/// the state of the last write that named it, or with its old state if
/// none did. Here every write carries the next state of its cell, so a
/// position named at all ends up in its next state.
pub proof fn lemma_after_cell(grid: Grid, changes: Seq<(usize, usize, bool)>, c: int, r: int)
    requires
        grid.wf(),
        grid.contains(c, r),
        forall|k: int|
            0 <= k < changes.len() ==> grid.contains(
                (#[trigger] changes[k]).0 as int,
                changes[k].1 as int,
            ) && changes[k].2 == grid.next_alive(changes[k].0 as int, changes[k].1 as int),
    ensures
        grid.after(changes).width == grid.width,
        grid.after(changes).height == grid.height,
        grid.after(changes).cells.len() == grid.cells.len(),
        grid.after(changes).alive_at(c, r) == if exists|k: int|
            0 <= k < changes.len() && (#[trigger] changes[k]).0 == c && changes[k].1 == r {
            grid.next_alive(c, r)
        } else {
            grid.alive_at(c, r)
        },
    decreases changes.len(),
{
    if changes.len() > 0 {
        let shorter = changes.drop_last();
        let last = changes.last();
        assert forall|k: int| 0 <= k < shorter.len() implies grid.contains(
            (#[trigger] shorter[k]).0 as int,
            shorter[k].1 as int,
        ) && shorter[k].2 == grid.next_alive(shorter[k].0 as int, shorter[k].1 as int) by {
            assert(shorter[k] == changes[k]);
        }
        lemma_after_cell(grid, shorter, c, r);
        lemma_offset_in_range(grid.width, grid.height, c, r);
        lemma_offset_in_range(grid.width, grid.height, last.0 as int, last.1 as int);
        assert(last == changes[changes.len() - 1]);
        if last.0 != c || last.1 != r {
            // the last write goes to another offset, and whatever names
            // `(c, r)` among all the writes does so among the earlier ones
            lemma_offset_split(grid.width, c, r);
            lemma_offset_split(grid.width, last.0 as int, last.1 as int);
            if exists|k: int|
                0 <= k < changes.len() && (#[trigger] changes[k]).0 == c && changes[k].1 == r {
                let k = choose|k: int|
                    0 <= k < changes.len() && (#[trigger] changes[k]).0 == c && changes[k].1 == r;
                assert(shorter[k] == changes[k]);
            }
            if exists|k: int|
                0 <= k < shorter.len() && (#[trigger] shorter[k]).0 == c && shorter[k].1 == r {
                let k = choose|k: int|
                    0 <= k < shorter.len() && (#[trigger] shorter[k]).0 == c && shorter[k].1 == r;
                assert(shorter[k] == changes[k]);
            }
        }
    }
}

/// Writing the changes of a generation, in any order in which they were
/// collected, turns the grid into its next generation.
pub proof fn lemma_changes_make_step(grid: Grid)
    requires
        grid.wf(),
        grid.width <= usize::MAX,
        grid.height <= usize::MAX,
    ensures
        grid.after(grid.changes()) == grid.step(),
{
    let order = grid.scan_order();
    let changes = grid.changes();
    assert forall|k: int| 0 <= k < changes.len() implies grid.contains(
        (#[trigger] changes[k]).0 as int,
        changes[k].1 as int,
    ) && changes[k].2 == grid.next_alive(changes[k].0 as int, changes[k].1 as int) by {
        lemma_changes_inside(grid, k);
    }
    let written = grid.after(changes);
    let next = grid.step();
    lemma_after_shape(grid, changes);
    assert forall|i: int| 0 <= i < grid.cells.len() implies written.cells[i] == next.cells[i] by {
        lemma_offset_join(grid.width, grid.height, i);
        let c = i % grid.width;
        let r = i / grid.width;
        lemma_after_cell(grid, changes, c, r);
        if !(exists|k: int|
            0 <= k < changes.len() && (#[trigger] changes[k]).0 == c && changes[k].1 == r) {
            if grid.flips(c, r) {
                lemma_scan_order_covers(grid, c, r);
                let p = (c as usize, r as usize);
                lemma_changes_along_complete(grid, order, order.index_of(p));
                let k = changes.index_of((p.0, p.1, grid.next_alive(c, r)));
                assert(changes[k].0 == c && changes[k].1 == r);
            }
        }
    }
    assert(written.cells =~= next.cells);
}

/// Writing cells inside a grid never changes its size.
pub proof fn lemma_after_shape(grid: Grid, changes: Seq<(usize, usize, bool)>)
    requires
        grid.wf(),
        forall|k: int|
            0 <= k < changes.len() ==> grid.contains(
                (#[trigger] changes[k]).0 as int,
                changes[k].1 as int,
            ),
    ensures
        grid.after(changes).width == grid.width,
        grid.after(changes).height == grid.height,
        grid.after(changes).cells.len() == grid.cells.len(),
    decreases changes.len(),
{
    if changes.len() > 0 {
        let shorter = changes.drop_last();
        let last = changes.last();
        assert(last == changes[changes.len() - 1]);
        assert forall|k: int| 0 <= k < shorter.len() implies grid.contains(
            (#[trigger] shorter[k]).0 as int,
            shorter[k].1 as int,
        ) by {
            assert(shorter[k] == changes[k]);
        }
        lemma_after_shape(grid, shorter);
        lemma_offset_in_range(grid.width, grid.height, last.0 as int, last.1 as int);
    }
}

} // verus!
