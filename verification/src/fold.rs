//! Facts about wrapping a grid onto a torus of another size, for the pass
//! that carries the live cells over one by one.

use vstd::prelude::*;
use crate::grid::{lemma_offset_in_range, lemma_offset_join, lemma_offset_split, Grid};

verus! {

impl Grid {
    /// Whether `(c, r)` comes before `(col, row)` when the grid is read row
    /// by row.
    pub open spec fn precedes(c: int, r: int, col: int, row: int) -> bool {
        r < row || (r == row && c < col)
    }

    /// Like [`Grid::folds_onto`], but only for the live cells that come
    /// before `(col, row)`.
    pub open spec fn folds_onto_before(
        self,
        x: int,
        y: int,
        width: int,
        height: int,
        col: int,
        row: int,
    ) -> bool {
        exists|c: int, r: int|
            self.contains(c, r) && Grid::precedes(c, r, col, row) && #[trigger] self.alive_at(c, r)
                && c % width == x && r % height == y
    }
}

/// Where a cell lands on a torus of another size.
pub proof fn lemma_landing_place(width: int, height: int, c: int, r: int)
    requires
        0 < width,
        0 < height,
    ensures
        0 <= c % width < width,
        0 <= r % height < height,
        0 <= (r % height) * width <= (r % height) * width + c % width < width * height,
        ((r % height) * width + c % width) % width == c % width,
        ((r % height) * width + c % width) / width == r % height,
{
    vstd::arithmetic::div_mod::lemma_mod_bound(c, width);
    vstd::arithmetic::div_mod::lemma_mod_bound(r, height);
    lemma_offset_in_range(width, height, c % width, r % height);
    lemma_offset_split(width, c % width, r % height);
}

/// Carrying over the cell at `(col, row)` adds its landing place, if the
/// cell is alive, to the positions that some live cell has landed on.
pub proof fn lemma_fold_step(grid: Grid, width: int, height: int, col: int, row: int, i: int)
    requires
        grid.contains(col, row),
        0 < width,
        0 < height,
        0 <= i < width * height,
    ensures
        grid.folds_onto_before(i % width, i / width, width, height, col + 1, row) == (
        grid.folds_onto_before(i % width, i / width, width, height, col, row) || (grid.alive_at(
            col,
            row,
        ) && i == (row % height) * width + col % width)),
{
    lemma_offset_join(width, height, i);
    lemma_landing_place(width, height, col, row);
}

/// The end of one row is the start of the next.
pub proof fn lemma_fold_next_row(grid: Grid, x: int, y: int, width: int, height: int, row: int)
    ensures
        grid.folds_onto_before(x, y, width, height, grid.width, row) == grid.folds_onto_before(
            x,
            y,
            width,
            height,
            0,
            row + 1,
        ),
{
}

/// Before the first cell nothing has landed anywhere; after the last row
/// every live cell has.
pub proof fn lemma_fold_ends(grid: Grid, x: int, y: int, width: int, height: int)
    ensures
        !grid.folds_onto_before(x, y, width, height, 0, 0),
        grid.folds_onto_before(x, y, width, height, 0, grid.height) == grid.folds_onto(
            x,
            y,
            width,
            height,
        ),
{
}

/// A live cell is alive where it lands.
pub proof fn lemma_resized_cell(grid: Grid, width: int, height: int, c: int, r: int)
    requires
        0 < width,
        0 < height,
        grid.contains(c, r),
        grid.alive_at(c, r),
    ensures
        grid.resized(width, height).contains(c % width, r % height),
        grid.resized(width, height).alive_at(c % width, r % height),
{
    lemma_landing_place(width, height, c, r);
}

/// Wrapping a grid onto a torus of its own size leaves it as it is.
pub proof fn lemma_resized_to_same_size(grid: Grid)
    requires
        grid.wf(),
    ensures
        grid.resized(grid.width, grid.height) == grid,
{
    let w = grid.width;
    let h = grid.height;
    let same = grid.resized(w, h);
    assert forall|i: int| 0 <= i < grid.cells.len() implies same.cells[i] == grid.cells[i] by {
        lemma_offset_join(w, h, i);
        let x = i % w;
        let y = i / w;
        vstd::arithmetic::div_mod::lemma_small_mod(x as nat, w as nat);
        vstd::arithmetic::div_mod::lemma_small_mod(y as nat, h as nat);
        if grid.cells[i] {
            assert(grid.contains(x, y) && grid.alive_at(x, y));
        }
        if grid.folds_onto(x, y, w, h) {
            let (c, r) = choose|c: int, r: int|
                grid.contains(c, r) && #[trigger] grid.alive_at(c, r) && c % w == x && r % h == y;
            vstd::arithmetic::div_mod::lemma_small_mod(c as nat, w as nat);
            vstd::arithmetic::div_mod::lemma_small_mod(r as nat, h as nat);
        }
    }
    assert(same.cells =~= grid.cells);
}

} // verus!
