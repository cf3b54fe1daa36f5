//! Two classic patterns and what the rule does to them anywhere on a torus
//! that gives them room.

use vstd::prelude::*;
use crate::grid::{lemma_offset_in_range, lemma_offset_join, lemma_offset_split, rule, Grid};
use crate::torus::{lemma_wrap_neighbours, wrap_index};

verus! {

/// The next generation cell by cell: the grid keeps its size, and each cell
/// follows the rule on the neighbours it has now.
pub proof fn lemma_step_cell(grid: Grid, c: int, r: int)
    requires
        grid.wf(),
        grid.contains(c, r),
    ensures
        grid.step().wf(),
        grid.step().width == grid.width,
        grid.step().height == grid.height,
        grid.step().alive_at(c, r) == rule(grid.alive_at(c, r), grid.neighbours(c, r)),
{
    lemma_offset_in_range(grid.width, grid.height, c, r);
    lemma_offset_split(grid.width, c, r);
}

impl Grid {
    /// Exactly the four cells of the two by two square whose top left
    /// corner is `(c, r)` are alive. The square may reach across an edge.
    pub open spec fn is_block(self, c: int, r: int) -> bool {
        forall|x: int, y: int|
            self.contains(x, y) ==> (#[trigger] self.alive_at(x, y) <==> (x == c || x
                == wrap_index(c, 1, self.width)) && (y == r || y == wrap_index(
                r,
                1,
                self.height,
            )))
    }

    /// Exactly three cells in a row are alive: `(c, r)` and the cells to
    /// its left and right, around the torus.
    pub open spec fn is_row_of_three(self, c: int, r: int) -> bool {
        forall|x: int, y: int|
            self.contains(x, y) ==> (#[trigger] self.alive_at(x, y) <==> y == r && (x
                == wrap_index(c, -1, self.width) || x == c || x == wrap_index(c, 1, self.width)))
    }

    /// Exactly three cells in a column are alive: `(c, r)` and the cells
    /// above and below it, around the torus.
    pub open spec fn is_column_of_three(self, c: int, r: int) -> bool {
        forall|x: int, y: int|
            self.contains(x, y) ==> (#[trigger] self.alive_at(x, y) <==> x == c && (y
                == wrap_index(r, -1, self.height) || y == r || y == wrap_index(
                r,
                1,
                self.height,
            )))
    }
}

/// A two by two block on a torus at least four cells wide and high is the
/// same one generation later.
pub proof fn lemma_block_is_still(grid: Grid, c: int, r: int)
    requires
        grid.wf(),
        grid.width >= 4,
        grid.height >= 4,
        grid.contains(c, r),
        grid.is_block(c, r),
    ensures
        grid.step() == grid,
{
    let w = grid.width;
    let h = grid.height;
    lemma_wrap_neighbours(c, w);
    lemma_wrap_neighbours(r, h);
    assert forall|i: int| 0 <= i < grid.cells.len() implies grid.step().cells[i]
        == grid.cells[i] by {
        lemma_offset_join(w, h, i);
        let x = i % w;
        let y = i / w;
        lemma_wrap_neighbours(x, w);
        lemma_wrap_neighbours(y, h);
    }
    assert(grid.step().cells =~= grid.cells);
}

/// A two by two block on a torus at least four cells wide and high stays as
/// it is for any number of generations.
pub proof fn lemma_block_stays(grid: Grid, c: int, r: int, n: nat)
    requires
        grid.wf(),
        grid.width >= 4,
        grid.height >= 4,
        grid.contains(c, r),
        grid.is_block(c, r),
    ensures
        grid.steps(n) == grid,
    decreases n,
{
    if n > 0 {
        lemma_block_stays(grid, c, r, (n - 1) as nat);
        lemma_block_is_still(grid, c, r);
    }
}

/// Three cells in a row turn, in one generation, into three cells in a
/// column with the same centre, on any torus at least four cells wide and
/// high.
pub proof fn lemma_row_of_three_turns(grid: Grid, c: int, r: int)
    requires
        grid.wf(),
        grid.width >= 4,
        grid.height >= 4,
        grid.contains(c, r),
        grid.is_row_of_three(c, r),
    ensures
        grid.step().wf(),
        grid.step().width == grid.width,
        grid.step().height == grid.height,
        grid.step().is_column_of_three(c, r),
{
    let w = grid.width;
    let h = grid.height;
    let next = grid.step();
    lemma_wrap_neighbours(c, w);
    lemma_wrap_neighbours(r, h);
    assert forall|x: int, y: int| next.contains(x, y) implies (#[trigger] next.alive_at(x, y) <==> x
        == c && (y == wrap_index(r, -1, h) || y == r || y == wrap_index(r, 1, h))) by {
        lemma_step_cell(grid, x, y);
        lemma_wrap_neighbours(x, w);
        lemma_wrap_neighbours(y, h);
    }
}

/// Three cells in a column turn, in one generation, into three cells in a
/// row with the same centre, on any torus at least four cells wide and
/// high.
pub proof fn lemma_column_of_three_turns(grid: Grid, c: int, r: int)
    requires
        grid.wf(),
        grid.width >= 4,
        grid.height >= 4,
        grid.contains(c, r),
        grid.is_column_of_three(c, r),
    ensures
        grid.step().wf(),
        grid.step().width == grid.width,
        grid.step().height == grid.height,
        grid.step().is_row_of_three(c, r),
{
    let w = grid.width;
    let h = grid.height;
    let next = grid.step();
    lemma_wrap_neighbours(c, w);
    lemma_wrap_neighbours(r, h);
    assert forall|x: int, y: int| next.contains(x, y) implies (#[trigger] next.alive_at(x, y) <==> y
        == r && (x == wrap_index(c, -1, w) || x == c || x == wrap_index(c, 1, w))) by {
        lemma_step_cell(grid, x, y);
        lemma_wrap_neighbours(x, w);
        lemma_wrap_neighbours(y, h);
    }
}

/// A pattern fixes a grid: two grids of one size that hold the same row of
/// three are the same grid.
pub proof fn lemma_row_of_three_unique(first: Grid, second: Grid, c: int, r: int)
    requires
        first.wf(),
        second.wf(),
        first.width == second.width,
        first.height == second.height,
        first.is_row_of_three(c, r),
        second.is_row_of_three(c, r),
    ensures
        first == second,
{
    assert forall|i: int| 0 <= i < first.cells.len() implies first.cells[i] == second.cells[i] by {
        lemma_offset_join(first.width, first.height, i);
        let x = i % first.width;
        let y = i / first.width;
        assert(first.cells[i] == first.alive_at(x, y));
        assert(second.cells[i] == second.alive_at(x, y));
    }
    assert(first.cells =~= second.cells);
}

/// The blinker: three cells in a row, on a torus at least four cells wide
/// and high, stand upright after one generation and are back as they were
/// after two.
pub proof fn lemma_blinker_has_period_two(grid: Grid, c: int, r: int)
    requires
        grid.wf(),
        grid.width >= 4,
        grid.height >= 4,
        grid.contains(c, r),
        grid.is_row_of_three(c, r),
    ensures
        grid.step().is_column_of_three(c, r),
        grid.step().step() == grid,
        grid.steps(2) == grid,
{
    lemma_row_of_three_turns(grid, c, r);
    lemma_column_of_three_turns(grid.step(), c, r);
    lemma_row_of_three_unique(grid.step().step(), grid, c, r);
    assert(grid.steps(2) == grid.step().step()) by {
        reveal_with_fuel(Grid::steps, 3);
    }
}

/// The blinker alternates for ever: after an even number of generations it
/// lies flat as at the start, after an odd number it stands upright.
pub proof fn lemma_blinker_alternates(grid: Grid, c: int, r: int, n: nat)
    requires
        grid.wf(),
        grid.width >= 4,
        grid.height >= 4,
        grid.contains(c, r),
        grid.is_row_of_three(c, r),
    ensures
        n % 2 == 0 ==> grid.steps(n) == grid,
        n % 2 == 1 ==> grid.steps(n) == grid.step() && grid.steps(n).is_column_of_three(c, r),
    decreases n,
{
    lemma_blinker_has_period_two(grid, c, r);
    if n > 0 {
        lemma_blinker_alternates(grid, c, r, (n - 1) as nat);
    }
}

} // verus!
