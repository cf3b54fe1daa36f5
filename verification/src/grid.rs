//! The mathematical model of the game: a torus of cells and the rule that
//! takes one generation to the next.

use vstd::prelude::*;
use crate::torus::wrap_index;

verus! {

/// A `width` by `height` field of cells, stored row by row: the cell in
/// column `c` of row `r` is `cells[r * width + c]`.
///
/// Either dimension may be zero; such a grid has no cells at all.
pub struct Grid {
    pub width: int,
    pub height: int,
    pub cells: Seq<bool>,
}

/// The rule of the game: a live cell stays alive with two or three live
/// neighbours, a dead cell comes alive with exactly three.
pub open spec fn rule(alive: bool, neighbours: int) -> bool {
    if alive {
        neighbours == 2 || neighbours == 3
    } else {
        neighbours == 3
    }
}

/// How many entries of `cells` are `true`.
pub open spec fn count_alive(cells: Seq<bool>) -> nat
    decreases cells.len(),
{
    if cells.len() == 0 {
        0
    } else {
        count_alive(cells.drop_last()) + if cells.last() { 1nat } else { 0nat }
    }
}

impl Grid {
    /// The cell buffer has exactly one entry per position.
    pub open spec fn wf(self) -> bool {
        &&& 0 <= self.width
        &&& 0 <= self.height
        &&& self.cells.len() == self.width * self.height
    }

    /// Whether column `c`, row `r` names a position of the grid.
    pub open spec fn contains(self, c: int, r: int) -> bool {
        0 <= c < self.width && 0 <= r < self.height
    }

    /// Where the cell in column `c` of row `r` lies in the buffer.
    pub open spec fn offset(self, c: int, r: int) -> int {
        r * self.width + c
    }

    /// The position whose cell lies at offset `i` of the buffer, as column
    /// and row.
    pub open spec fn position(self, i: int) -> (int, int) {
        (i % self.width, i / self.width)
    }

    /// Whether the cell in column `c` of row `r` is alive.
    pub open spec fn alive_at(self, c: int, r: int) -> bool {
        self.cells[self.offset(c, r)]
    }

    /// One for a live cell, zero for a dead one.
    pub open spec fn live(self, c: int, r: int) -> int {
        if self.alive_at(c, r) {
            1
        } else {
            0
        }
    }

    /// The number of live cells among the eight positions around `(c, r)`,
    /// each coordinate taken around the torus. On a grid fewer than three
    /// cells wide or high some of the eight positions coincide; each is
    /// still counted.
    pub open spec fn neighbours(self, c: int, r: int) -> int {
        let left = wrap_index(c, -1, self.width);
        let right = wrap_index(c, 1, self.width);
        let up = wrap_index(r, -1, self.height);
        let down = wrap_index(r, 1, self.height);
        self.live(left, up) + self.live(c, up) + self.live(right, up)
            + self.live(left, r) + self.live(right, r)
            + self.live(left, down) + self.live(c, down) + self.live(right, down)
    }

    /// The state of `(c, r)` one generation later.
    pub open spec fn next_alive(self, c: int, r: int) -> bool {
        rule(self.alive_at(c, r), self.neighbours(c, r))
    }

    /// Whether `(c, r)` changes state in the next generation.
    pub open spec fn flips(self, c: int, r: int) -> bool {
        self.next_alive(c, r) != self.alive_at(c, r)
    }

    /// The next generation. Every cell is judged by the neighbours it has
    /// in `self`: no cell sees the new state of another.
    pub open spec fn step(self) -> Grid {
        Grid {
            width: self.width,
            height: self.height,
            cells: Seq::new(
                self.cells.len(),
                |i: int| self.next_alive(self.position(i).0, self.position(i).1),
            ),
        }
    }

    /// The grid after `n` generations.
    pub open spec fn steps(self, n: nat) -> Grid
        decreases n,
    {
        if n == 0 {
            self
        } else {
            self.steps((n - 1) as nat).step()
        }
    }

    /// The number of live cells.
    pub open spec fn population(self) -> nat {
        count_alive(self.cells)
    }

    /// The grid of the given size on which nothing lives.
    pub open spec fn dead(width: int, height: int) -> Grid {
        Grid { width, height, cells: Seq::new((width * height) as nat, |i: int| false) }
    }

    /// The same grid with the cell at `(c, r)` set to `alive`.
    pub open spec fn with_cell(self, c: int, r: int, alive: bool) -> Grid {
        Grid {
            width: self.width,
            height: self.height,
            cells: self.cells.update(self.offset(c, r), alive),
        }
    }

    /// Row `r` drawn as text, one character per column from left to right:
    /// `alive` for a live cell, `dead` for a dead one.
    pub open spec fn row_glyphs(self, r: int, alive: char, dead: char) -> Seq<char> {
        Seq::new(
            self.width as nat,
            |c: int| if self.alive_at(c, r) { alive } else { dead },
        )
    }

    /// Whether some live cell of `self` lands on `(x, y)` when every
    /// coordinate is reduced modulo the new dimensions.
    pub open spec fn folds_onto(self, x: int, y: int, width: int, height: int) -> bool {
        exists|c: int, r: int|
            self.contains(c, r) && #[trigger] self.alive_at(c, r) && c % width == x && r % height
                == y
    }

    /// The grid wrapped onto a torus of another size: a cell of the result
    /// lives where at least one live cell of `self` lands.
    pub open spec fn resized(self, width: int, height: int) -> Grid {
        Grid {
            width,
            height,
            cells: Seq::new(
                (width * height) as nat,
                |i: int| self.folds_onto(i % width, i / width, width, height),
            ),
        }
    }
}

/// A position inside a grid has its place inside the buffer.
pub proof fn lemma_offset_in_range(width: int, height: int, c: int, r: int)
    by (nonlinear_arith)
    requires
        0 <= c < width,
        0 <= r < height,
    ensures
        0 <= r * width <= r * width + c < width * height,
{
}

/// Column and row can be read back from a buffer offset.
pub proof fn lemma_offset_split(width: int, c: int, r: int)
    requires
        0 <= c < width,
    ensures
        (r * width + c) % width == c,
        (r * width + c) / width == r,
{
    vstd::arithmetic::div_mod::lemma_fundamental_div_mod_converse(r * width + c, width, r, c);
}

/// Every buffer offset belongs to exactly one position.
pub proof fn lemma_offset_join(width: int, height: int, i: int)
    requires
        0 <= i < width * height,
        0 <= width,
        0 <= height,
    ensures
        0 <= i % width < width,
        0 <= i / width < height,
        (i / width) * width + i % width == i,
{
    assert(width > 0) by (nonlinear_arith)
        requires
            0 <= i < width * height,
            0 <= width,
    ;
    vstd::arithmetic::div_mod::lemma_fundamental_div_mod(i, width);
    vstd::arithmetic::div_mod::lemma_mod_bound(i, width);
    let q = i / width;
    assert(q * width == width * q) by (nonlinear_arith);
    assert(0 <= q < height) by (nonlinear_arith)
        requires
            0 <= i < width * height,
            width > 0,
            i == width * q + i % width,
            0 <= i % width < width,
    ;
}

/// Reading a grid cell by cell gives its buffer back: every position
/// holds what the buffer holds at its offset, and every offset of the
/// buffer is the offset of one position, which holds what stands there.
pub proof fn lemma_read_back(grid: Grid)
    requires
        grid.wf(),
    ensures
        forall|c: int, r: int| #[trigger]
            grid.contains(c, r) ==> 0 <= grid.offset(c, r) < grid.cells.len() && grid.alive_at(c, r)
                == grid.cells[r * grid.width + c],
        forall|i: int|
            0 <= i < grid.cells.len() ==> {
                let (c, r) = #[trigger] grid.position(i);
                grid.contains(c, r) && grid.offset(c, r) == i && grid.alive_at(c, r)
                    == grid.cells[i]
            },
{
    assert forall|c: int, r: int| #[trigger] grid.contains(c, r) implies 0 <= grid.offset(c, r)
        < grid.cells.len() && grid.alive_at(c, r) == grid.cells[r * grid.width + c] by {
        lemma_offset_in_range(grid.width, grid.height, c, r);
    }
    assert forall|i: int| 0 <= i < grid.cells.len() implies {
        let (c, r) = #[trigger] grid.position(i);
        grid.contains(c, r) && grid.offset(c, r) == i && grid.alive_at(c, r) == grid.cells[i]
    } by {
        lemma_offset_join(grid.width, grid.height, i);
    }
}

/// The number of live cells never exceeds the number of cells.
pub proof fn lemma_count_alive_bound(cells: Seq<bool>)
    ensures
        count_alive(cells) <= cells.len(),
    decreases cells.len(),
{
    if cells.len() > 0 {
        lemma_count_alive_bound(cells.drop_last());
    }
}

/// Appending a cell adds it to the count.
pub proof fn lemma_count_alive_push(cells: Seq<bool>, alive: bool)
    ensures
        count_alive(cells.push(alive)) == count_alive(cells) + if alive { 1nat } else { 0nat },
{
    assert(cells.push(alive).drop_last() =~= cells);
}

/// Writing one cell moves the count by the difference between the new
/// state and the old.
pub proof fn lemma_count_alive_update(cells: Seq<bool>, i: int, alive: bool)
    requires
        0 <= i < cells.len(),
    ensures
        count_alive(cells.update(i, alive)) == count_alive(cells) - (if cells[i] { 1int } else { 0int })
            + (if alive { 1int } else { 0int }),
    decreases cells.len(),
{
    let updated = cells.update(i, alive);
    if i == cells.len() - 1 {
        assert(updated.drop_last() =~= cells.drop_last());
    } else {
        lemma_count_alive_update(cells.drop_last(), i, alive);
        assert(updated.drop_last() =~= cells.drop_last().update(i, alive));
    }
}

/// A buffer without a live cell counts zero.
pub proof fn lemma_count_alive_none(cells: Seq<bool>)
    requires
        forall|i: int| 0 <= i < cells.len() ==> !cells[i],
    ensures
        count_alive(cells) == 0,
    decreases cells.len(),
{
    if cells.len() > 0 {
        lemma_count_alive_none(cells.drop_last());
    }
}

} // verus!
