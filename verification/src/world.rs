//! The engine: a grid of cells that can be queried, edited, advanced by one
//! generation and wrapped onto a torus of another size.

use rand::{Rng, XorShiftRng};
use vstd::prelude::*;
use crate::fold::{lemma_fold_ends, lemma_fold_next_row, lemma_fold_step, lemma_landing_place};
use crate::grid::{
    count_alive, lemma_count_alive_bound, lemma_count_alive_none, lemma_count_alive_push,
    lemma_count_alive_update, lemma_offset_in_range, rule, Grid,
};
use crate::scan::{
    column_path, interior_path, lemma_changes_along_concat, lemma_changes_along_push,
    lemma_changes_inside, lemma_changes_make_step, row_path,
};
use crate::torus::{lemma_wrap_neighbours, wrapped};

verus! {

/// Why a world could not be built.
#[derive(Debug, Clone, Copy, PartialEq, Eq, Structural)]
pub enum WorldError {
    /// The cell buffer does not hold exactly `width * height` cells.
    DimensionMismatch,
}

/// A torus of cells together with the number of generations it has lived
/// through and a running count of its live cells.
///
/// A world may have zero columns or zero rows. It then has no cells, every
/// operation on it is still defined, and no coordinate is valid for it.
pub struct World {
    width: usize,
    height: usize,
    generation: usize,
    alive: usize,
    cells: Vec<bool>,
}

impl View for World {
    type V = Grid;

    closed spec fn view(&self) -> Grid {
        Grid { width: self.width as int, height: self.height as int, cells: self.cells@ }
    }
}

/// Counts the live cells of a buffer by scanning it once.
fn count_cells(cells: &Vec<bool>) -> (n: usize)
    ensures
        n == count_alive(cells@),
{
    let mut n: usize = 0;
    let mut i: usize = 0;
    while i < cells.len()
        invariant
            i <= cells.len(),
            n == count_alive(cells@.take(i as int)),
            n <= i,
        decreases cells.len() - i,
    {
        proof {
            lemma_count_alive_push(cells@.take(i as int), cells@[i as int]);
            assert(cells@.take(i as int + 1) =~= cells@.take(i as int).push(cells@[i as int]));
        }
        if cells[i] {
            n = n + 1;
        }
        i = i + 1;
    }
    assert(cells@.take(i as int) =~= cells@);
    n
}

/// For each cell of a random world a number below this one is drawn.
pub const DRAW_RANGE: u32 = 10;

/// A cell of a random world is alive if the number drawn for it is below
/// this one.
pub const ALIVE_DRAWS: u32 = 3;

/// The generator `XorShiftRng` of the `rand` crate. Nothing is known of
/// its state; it is only handed on to [`draw_between`].
#[verifier::external_type_specification]
#[verifier::external_body]
pub struct ExXorShiftRng(XorShiftRng);

/// `Rng::gen_range` of the `rand` crate, on an `XorShiftRng` and with
/// `u32` bounds. The crate documents a value in the range from `low` up
/// to, not including, `high`, and a panic unless `low < high`; which
/// value comes is left to the generator. This contract is taken on trust.
#[verifier::external_body]
fn draw_between(rng: &mut XorShiftRng, low: u32, high: u32) -> (drawn: u32)
    requires
        low < high,
    ensures
        low <= drawn < high,
{
    rng.gen_range(low, high)
}

/// `String::push` of the standard library, which appends one character
/// to the end of the string. This contract is taken on trust.
#[verifier::external_body]
fn push_char(sink: &mut String, c: char)
    ensures
        final(sink)@ == old(sink)@.push(c),
{
    sink.push(c)
}

/// Whether a cell of a random world is alive, given the number drawn for
/// it: three draws out of ten are.
pub fn alive_on_draw(drawn: u32) -> (alive: bool)
    ensures
        alive == (drawn < ALIVE_DRAWS),
{
    drawn < ALIVE_DRAWS
}

/// What the rule makes of a cell with the given state and number of live
/// neighbours: its new state if it changes, nothing if it stays as it is.
fn fate(alive: bool, neighbours: usize) -> (change: Option<bool>)
    ensures
        change == if rule(alive, neighbours as int) != alive {
            Some(rule(alive, neighbours as int))
        } else {
            None
        },
{
    if alive {
        if neighbours < 2 || neighbours > 3 {
            Some(false)
        } else {
            None
        }
    } else if neighbours == 3 {
        Some(true)
    } else {
        None
    }
}

impl World {
    /// The number of generations since the world was built.
    pub closed spec fn age(&self) -> nat {
        self.generation as nat
    }

    /// The running count of live cells that the world keeps.
    pub closed spec fn tally(&self) -> nat {
        self.alive as nat
    }

    /// The world is consistent: its buffer matches its dimensions, and the
    /// running count of live cells equals what a full scan would find.
    pub open spec fn wf(&self) -> bool {
        &&& self@.wf()
        &&& self@.width <= usize::MAX
        &&& self@.height <= usize::MAX
        &&& self@.width * self@.height <= usize::MAX
        &&& self.tally() == self@.population()
    }

    /// A world of the given size on which nothing lives. Either dimension
    /// may be zero; the number of cells has to fit in `usize`.
    pub fn empty(width: usize, height: usize) -> (world: World)
        requires
            width * height <= usize::MAX,
        ensures
            world.wf(),
            world@ == Grid::dead(width as int, height as int),
            world.age() == 0,
    {
        let cells: Vec<bool> = vec![false; width * height];
        proof {
            assert(cells@ =~= Grid::dead(width as int, height as int).cells);
            lemma_count_alive_none(cells@);
        }
        World { width, height, generation: 0, alive: 0, cells }
    }

    /// A world filled at random: for each cell, row by row, a number below
    /// [`DRAW_RANGE`] is drawn from `rng`, and [`alive_on_draw`] says whether
    /// the cell is alive. With a fair generator each cell is alive with a
    /// chance of three in ten, independently of the others. The number of
    /// cells has to fit in `usize`.
    pub fn random(rng: &mut XorShiftRng, width: usize, height: usize) -> (world: World)
        requires
            width * height <= usize::MAX,
        ensures
            world.wf(),
            world@.width == width,
            world@.height == height,
            world.age() == 0,
    {
        let n: usize = width * height;
        let mut cells: Vec<bool> = Vec::with_capacity(n);
        let mut i: usize = 0;
        while i < n
            invariant
                i <= n,
                cells@.len() == i,
            decreases n - i,
        {
            let drawn = draw_between(rng, 0, DRAW_RANGE);
            cells.push(alive_on_draw(drawn));
            i = i + 1;
        }
        World::assemble(width, height, cells)
    }

    /// Puts a world together from its parts and counts its live cells.
    fn assemble(width: usize, height: usize, cells: Vec<bool>) -> (world: World)
        requires
            cells@.len() == width * height,
        ensures
            world.wf(),
            world@ == (Grid { width: width as int, height: height as int, cells: cells@ }),
            world.age() == 0,
    {
        // a vector's length fits in `usize`, and so does the number of cells
        assert(cells.len() == width * height);
        let alive = count_cells(&cells);
        World { width, height, generation: 0, alive, cells }
    }

    /// A world with the given cells, listed row by row. The buffer has to
    /// hold exactly `width * height` cells; nothing else is refused.
    pub fn from_cells(width: usize, height: usize, cells: Vec<bool>) -> (result: Result<
        World,
        WorldError,
    >)
        ensures
            result is Ok <==> cells@.len() == width * height,
            result matches Ok(world) ==> {
                &&& world.wf()
                &&& world@ == (Grid { width: width as int, height: height as int, cells: cells@ })
                &&& world.age() == 0
            },
            result matches Err(e) ==> e == WorldError::DimensionMismatch,
    {
        let len: usize = cells.len();
        match width.checked_mul(height) {
            Some(n) => {
                if n == len {
                    Ok(World::assemble(width, height, cells))
                } else {
                    Err(WorldError::DimensionMismatch)
                }
            },
            None => Err(WorldError::DimensionMismatch),
        }
    }

    /// The number of live cells.
    pub fn alive(&self) -> (n: usize)
        requires
            self.wf(),
        ensures
            n == self@.population(),
    {
        self.alive
    }

    /// The number of columns.
    pub fn width(&self) -> (w: usize)
        ensures
            w == self@.width,
    {
        self.width
    }

    /// The number of rows.
    pub fn height(&self) -> (h: usize)
        ensures
            h == self@.height,
    {
        self.height
    }

    /// The number of generations since the world was built.
    pub fn generation(&self) -> (g: usize)
        ensures
            g == self.age(),
    {
        self.generation
    }

    /// Wraps the world onto a torus of another size: every live cell moves
    /// to its column modulo the new width and its row modulo the new
    /// height, and cells that land on one position merge into one live
    /// cell. With the present size nothing happens. The generation count
    /// is kept, and the live cells are counted afresh. The new number of
    /// cells has to fit in `usize`.
    pub fn expand_to(&mut self, new_width: usize, new_height: usize)
        requires
            old(self).wf(),
            new_width * new_height <= usize::MAX,
        ensures
            final(self).wf(),
            final(self).age() == old(self).age(),
            final(self)@ == if new_width == old(self)@.width && new_height == old(self)@.height {
                old(self)@
            } else {
                old(self)@.resized(new_width as int, new_height as int)
            },
    {
        if new_width == self.width && new_height == self.height {
            return ;
        }
        let ghost grid = self@;
        let ghost nw = new_width as int;
        let ghost nh = new_height as int;
        let mut ncells: Vec<bool> = vec![false; new_width * new_height];
        if new_width > 0 && new_height > 0 {
            let mut h: usize = 0;
            proof {
                assert forall|i: int| 0 <= i < nw * nh implies ncells@[i]
                    == grid.folds_onto_before(i % nw, i / nw, nw, nh, 0, 0) by {
                    lemma_fold_ends(grid, i % nw, i / nw, nw, nh);
                }
            }
            while h < self.height
                invariant
                    self.wf(),
                    self@ == grid,
                    0 < nw == new_width,
                    0 < nh == new_height,
                    h <= self.height,
                    ncells@.len() == nw * nh <= usize::MAX,
                    forall|i: int|
                        0 <= i < nw * nh ==> ncells@[i] == grid.folds_onto_before(
                            i % nw,
                            i / nw,
                            nw,
                            nh,
                            0,
                            h as int,
                        ),
                decreases self.height - h,
            {
                let mut w: usize = 0;
                while w < self.width
                    invariant
                        self.wf(),
                        self@ == grid,
                        0 < nw == new_width,
                        0 < nh == new_height,
                        h < self.height,
                        w <= self.width,
                        ncells@.len() == nw * nh <= usize::MAX,
                        forall|i: int|
                            0 <= i < nw * nh ==> ncells@[i] == grid.folds_onto_before(
                                i % nw,
                                i / nw,
                                nw,
                                nh,
                                w as int,
                                h as int,
                            ),
                    decreases self.width - w,
                {
                    let ghost before = ncells@;
                    proof {
                        lemma_landing_place(nw, nh, w as int, h as int);
                    }
                    if self.is_alive(w, h) {
                        let landing = (h % new_height) * new_width + w % new_width;
                        ncells.set(landing, true);
                    }
                    proof {
                        assert forall|i: int| 0 <= i < nw * nh implies ncells@[i]
                            == grid.folds_onto_before(i % nw, i / nw, nw, nh, w + 1, h as int) by {
                            lemma_fold_step(grid, nw, nh, w as int, h as int, i);
                        }
                    }
                    w = w + 1;
                }
                proof {
                    assert forall|i: int| 0 <= i < nw * nh implies ncells@[i]
                        == grid.folds_onto_before(i % nw, i / nw, nw, nh, 0, h + 1) by {
                        lemma_fold_next_row(grid, i % nw, i / nw, nw, nh, h as int);
                    }
                }
                h = h + 1;
            }
            proof {
                assert forall|i: int| 0 <= i < nw * nh implies ncells@[i] == grid.folds_onto(
                    i % nw,
                    i / nw,
                    nw,
                    nh,
                ) by {
                    lemma_fold_ends(grid, i % nw, i / nw, nw, nh);
                }
            }
        }
        assert(ncells@ =~= grid.resized(nw, nh).cells);
        let alive = count_cells(&ncells);
        self.width = new_width;
        self.height = new_height;
        self.cells = ncells;
        self.alive = alive;
    }

    /// Advances the world by one generation and returns what changed: the
    /// column, the row and the new state of every cell that flipped, each
    /// once, in scan order (see [`Grid::scan_order`]).
    ///
    /// All changes are worked out on the old generation before the first
    /// cell is written.
    pub fn next_generation(&mut self) -> (changes: Vec<(usize, usize, bool)>)
        requires
            old(self).wf(),
            old(self).age() < usize::MAX,
        ensures
            final(self).wf(),
            final(self)@ == old(self)@.step(),
            final(self).age() == old(self).age() + 1,
            changes@ == old(self)@.changes(),
    {
        let changes = self.pending_changes();
        proof {
            let grid = self@;
            lemma_changes_make_step(grid);
            assert forall|k: int| 0 <= k < changes@.len() implies grid.contains(
                (#[trigger] changes@[k]).0 as int,
                changes@[k].1 as int,
            ) by {
                lemma_changes_inside(grid, k);
            }
        }
        self.apply_changes(&changes);
        self.generation = self.generation + 1;
        changes
    }

    /// Advances the world by one generation, then reports every cell that
    /// flipped to `cb`: column, row and new state, in scan order. By the
    /// time `cb` is first called the world is wholly in its new generation.
    ///
    /// Of `cb` no more is asked than that it may be called with each of
    /// the changes.
    pub fn advance_generation<F: FnMut(usize, usize, bool)>(&mut self, mut cb: F)
        requires
            old(self).wf(),
            old(self).age() < usize::MAX,
            forall|k: int|
                0 <= k < old(self)@.changes().len() ==> call_requires(
                    cb,
                    #[trigger] old(self)@.changes()[k],
                ),
        ensures
            final(self).wf(),
            final(self)@ == old(self)@.step(),
            final(self).age() == old(self).age() + 1,
    {
        let changes = self.next_generation();
        let mut i: usize = 0;
        while i < changes.len()
            invariant
                forall|k: int| 0 <= k < changes@.len() ==> call_requires(cb, #[trigger] changes@[k]),
            decreases changes.len() - i,
        {
            let (w, h, alive) = changes[i];
            cb(w, h, alive);
            i = i + 1;
        }
    }

    /// Writes the listed cells, first to last.
    fn apply_changes(&mut self, changes: &Vec<(usize, usize, bool)>)
        requires
            old(self).wf(),
            forall|k: int|
                0 <= k < changes@.len() ==> old(self)@.contains(
                    (#[trigger] changes@[k]).0 as int,
                    changes@[k].1 as int,
                ),
        ensures
            final(self).wf(),
            final(self)@ == old(self)@.after(changes@),
            final(self).age() == old(self).age(),
    {
        let ghost start = self@;
        let mut i: usize = 0;
        while i < changes.len()
            invariant
                self.wf(),
                i <= changes@.len(),
                self@ == start.after(changes@.take(i as int)),
                self@.width == start.width,
                self@.height == start.height,
                self.age() == old(self).age(),
                forall|k: int|
                    0 <= k < changes@.len() ==> start.contains(
                        (#[trigger] changes@[k]).0 as int,
                        changes@[k].1 as int,
                    ),
            decreases changes.len() - i,
        {
            let (w, h, alive) = changes[i];
            self.set_alive(w, h, alive);
            proof {
                let done = changes@.take(i as int + 1);
                assert(done.drop_last() =~= changes@.take(i as int));
            }
            i = i + 1;
        }
        assert(changes@.take(i as int) =~= changes@);
    }

    /// Draws row `row` into `sink`: one character per column, from left to
    /// right, `alive` for a live cell and `dead` for a dead one. What
    /// `sink` held before stays in front.
    pub fn render_row(&self, row: usize, alive: char, dead: char, sink: &mut String)
        requires
            self.wf(),
            row < self@.height,
        ensures
            final(sink)@ == old(sink)@ + self@.row_glyphs(row as int, alive, dead),
    {
        let ghost glyphs = self@.row_glyphs(row as int, alive, dead);
        let mut w: usize = 0;
        while w < self.width
            invariant
                self.wf(),
                row < self@.height,
                w <= self.width,
                glyphs == self@.row_glyphs(row as int, alive, dead),
                sink@ == old(sink)@ + glyphs.take(w as int),
            decreases self.width - w,
        {
            let glyph = if self.is_alive(w, row) { alive } else { dead };
            push_char(sink, glyph);
            w = w + 1;
        }
    }

    /// Sets the cell in column `w` of row `h`, and keeps the count of live
    /// cells in step: it moves only when the cell's state really changes.
    pub fn set_alive(&mut self, w: usize, h: usize, alive: bool)
        requires
            old(self).wf(),
            old(self)@.contains(w as int, h as int),
        ensures
            final(self).wf(),
            final(self)@ == old(self)@.with_cell(w as int, h as int, alive),
            final(self).age() == old(self).age(),
    {
        let offset = self.cell_offset(w, h);
        let was = self.cells[offset];
        proof {
            lemma_count_alive_update(self.cells@, offset as int, alive);
            lemma_count_alive_bound(self.cells@.update(offset as int, alive));
        }
        self.cells.set(offset, alive);
        if alive && !was {
            self.alive = self.alive + 1;
        } else if was && !alive {
            self.alive = self.alive - 1;
        }
    }

    /// Whether the cell in column `w` of row `h` is alive.
    pub fn is_alive(&self, w: usize, h: usize) -> (alive: bool)
        requires
            self.wf(),
            self@.contains(w as int, h as int),
        ensures
            alive == self@.alive_at(w as int, h as int),
    {
        self.is_alive_num(w, h) != 0
    }

    /// One if the cell in column `w` of row `h` is alive, zero if not.
    fn is_alive_num(&self, w: usize, h: usize) -> (n: usize)
        requires
            self.wf(),
            self@.contains(w as int, h as int),
        ensures
            n == self@.live(w as int, h as int),
    {
        if self.cell(self.cell_offset(w, h)) {
            1
        } else {
            0
        }
    }

    fn cell_offset(&self, w: usize, h: usize) -> (offset: usize)
        requires
            self.wf(),
            self@.contains(w as int, h as int),
        ensures
            offset == self@.offset(w as int, h as int),
            offset < self@.cells.len(),
    {
        proof {
            lemma_offset_in_range(self.width as int, self.height as int, w as int, h as int);
        }
        h * self.width + w
    }

    /// The state of a cell and the number of its live neighbours, each
    /// neighbouring coordinate taken around the torus.
    fn border_neighbour_count(&self, w: usize, h: usize) -> (counted: (bool, usize))
        requires
            self.wf(),
            self@.contains(w as int, h as int),
        ensures
            counted.0 == self@.alive_at(w as int, h as int),
            counted.1 == self@.neighbours(w as int, h as int),
    {
        let left = wrapped(w, -1, self.width);
        let right = wrapped(w, 1, self.width);
        let up = wrapped(h, -1, self.height);
        let down = wrapped(h, 1, self.height);
        let mut cnt = self.is_alive_num(left, up) + self.is_alive_num(w, up) + self.is_alive_num(
            right,
            up,
        );
        cnt += self.is_alive_num(left, h) + self.is_alive_num(right, h);
        cnt += self.is_alive_num(left, down) + self.is_alive_num(w, down) + self.is_alive_num(
            right,
            down,
        );
        (self.is_alive(w, h), cnt)
    }

    /// The state of a cell and the number of its live neighbours, for a
    /// cell that touches no edge: none of its neighbours lies across one.
    fn inner_neighbour_count(&self, w: usize, h: usize) -> (counted: (bool, usize))
        requires
            self.wf(),
            0 < w < self@.width - 1,
            0 < h < self@.height - 1,
        ensures
            counted.0 == self@.alive_at(w as int, h as int),
            counted.1 == self@.neighbours(w as int, h as int),
    {
        proof {
            lemma_wrap_neighbours(w as int, self.width as int);
            lemma_wrap_neighbours(h as int, self.height as int);
        }
        let mut cnt = self.is_alive_num(w - 1, h - 1) + self.is_alive_num(w, h - 1)
            + self.is_alive_num(w + 1, h - 1);
        cnt += self.is_alive_num(w - 1, h) + self.is_alive_num(w + 1, h);
        let center_alive = self.is_alive(w, h);
        cnt += self.is_alive_num(w - 1, h + 1) + self.is_alive_num(w, h + 1) + self.is_alive_num(
            w + 1,
            h + 1,
        );
        (center_alive, cnt)
    }

    /// Appends the changes of row `h`, every cell of it counted around the
    /// torus.
    fn scan_border_row(&self, h: usize, changes: &mut Vec<(usize, usize, bool)>)
        requires
            self.wf(),
            h < self@.height,
        ensures
            final(changes)@ == old(changes)@ + self@.changes_along(
                row_path(0, self@.width, h as int),
            ),
    {
        let ghost path = row_path(0, self@.width, h as int);
        let ghost before = changes@;
        let mut w: usize = 0;
        while w < self.width
            invariant
                self.wf(),
                h < self@.height,
                w <= self.width,
                path == row_path(0, self@.width, h as int),
                changes@ == before + self@.changes_along(path.take(w as int)),
            decreases self.width - w,
        {
            let (alive, n) = self.border_neighbour_count(w, h);
            let change = fate(alive, n);
            proof {
                assert(path.take(w as int + 1) =~= path.take(w as int).push((w, h)));
                lemma_changes_along_push(self@, path.take(w as int), (w, h));
            }
            if let Some(state) = change {
                changes.push((w, h, state));
            }
            w = w + 1;
        }
        assert(path.take(w as int) =~= path);
    }

    /// Appends the changes of column `w` between the top and the bottom
    /// row, every cell of it counted around the torus.
    fn scan_border_column(&self, w: usize, changes: &mut Vec<(usize, usize, bool)>)
        requires
            self.wf(),
            w < self@.width,
            self@.height > 0,
        ensures
            final(changes)@ == old(changes)@ + self@.changes_along(
                column_path(w as int, 1, self@.height - 1),
            ),
    {
        let ghost path = column_path(w as int, 1, self@.height - 1);
        let ghost before = changes@;
        let end: usize = self.height - 1;
        let mut h: usize = 1;
        while h < end
            invariant
                self.wf(),
                w < self@.width,
                end == self@.height - 1,
                1 <= h,
                h <= end || h == 1,
                path == column_path(w as int, 1, self@.height - 1),
                changes@ == before + self@.changes_along(path.take(h - 1)),
            decreases end - h,
        {
            let (alive, n) = self.border_neighbour_count(w, h);
            let change = fate(alive, n);
            proof {
                assert(path.take(h as int) =~= path.take(h - 1).push((w, h)));
                lemma_changes_along_push(self@, path.take(h - 1), (w, h));
            }
            if let Some(state) = change {
                changes.push((w, h, state));
            }
            h = h + 1;
        }
        assert(path.take(h - 1) =~= path);
    }

    /// Appends the changes of row `h` between the left and the right
    /// column. The row touches neither the top nor the bottom edge, so
    /// none of these cells has a neighbour across an edge.
    fn scan_inner_row(&self, h: usize, changes: &mut Vec<(usize, usize, bool)>)
        requires
            self.wf(),
            0 < h < self@.height - 1,
            self@.width > 0,
        ensures
            final(changes)@ == old(changes)@ + self@.changes_along(
                row_path(1, self@.width - 1, h as int),
            ),
    {
        let ghost path = row_path(1, self@.width - 1, h as int);
        let ghost before = changes@;
        let end: usize = self.width - 1;
        let mut w: usize = 1;
        while w < end
            invariant
                self.wf(),
                0 < h < self@.height - 1,
                end == self@.width - 1,
                1 <= w,
                w <= end || w == 1,
                path == row_path(1, self@.width - 1, h as int),
                changes@ == before + self@.changes_along(path.take(w - 1)),
            decreases end - w,
        {
            let (alive, n) = self.inner_neighbour_count(w, h);
            let change = fate(alive, n);
            proof {
                assert(path.take(w as int) =~= path.take(w - 1).push((w, h)));
                lemma_changes_along_push(self@, path.take(w - 1), (w, h));
            }
            if let Some(state) = change {
                changes.push((w, h, state));
            }
            w = w + 1;
        }
        assert(path.take(w - 1) =~= path);
    }

    /// The changes that the next generation makes, in scan order, computed
    /// without touching any cell: every cell is judged by the present
    /// state of its neighbours.
    fn pending_changes(&self) -> (changes: Vec<(usize, usize, bool)>)
        requires
            self.wf(),
        ensures
            changes@ == self@.changes(),
    {
        let mut changes: Vec<(usize, usize, bool)> = Vec::new();
        if self.width == 0 || self.height == 0 {
            return changes;
        }
        let ghost grid = self@;
        let ghost top = row_path(0, grid.width, 0);
        let ghost bottom = if grid.height > 1 {
            row_path(0, grid.width, grid.height - 1)
        } else {
            Seq::empty()
        };
        let ghost left = column_path(0, 1, grid.height - 1);
        let ghost right = if grid.width > 1 {
            column_path(grid.width - 1, 1, grid.height - 1)
        } else {
            Seq::empty()
        };
        // upper row
        self.scan_border_row(0, &mut changes);
        // lower row
        let last_row: usize = self.height - 1;
        if last_row > 0 {
            self.scan_border_row(last_row, &mut changes);
        }
        // left column
        self.scan_border_column(0, &mut changes);
        // right column
        let last_column: usize = self.width - 1;
        if last_column > 0 {
            self.scan_border_column(last_column, &mut changes);
        }
        let ghost border = top + bottom + left + right;
        proof {
            lemma_changes_along_concat(grid, Seq::empty(), top);
            lemma_changes_along_concat(grid, top, bottom);
            lemma_changes_along_concat(grid, top + bottom, left);
            lemma_changes_along_concat(grid, top + bottom + left, right);
        }
        // inner cells
        let mut h: usize = 1;
        while h < last_row
            invariant
                self.wf(),
                self@ == grid,
                grid.width > 0,
                last_row == grid.height - 1,
                1 <= h,
                h <= last_row || h == 1,
                changes@ == grid.changes_along(border + interior_path(grid.width, h as int)),
            decreases last_row - h,
        {
            self.scan_inner_row(h, &mut changes);
            proof {
                let done = border + interior_path(grid.width, h as int);
                let row = row_path(1, grid.width - 1, h as int);
                lemma_changes_along_concat(grid, done, row);
                assert(done + row =~= border + interior_path(grid.width, h as int + 1));
            }
            h = h + 1;
        }
        changes
    }

    fn cell(&self, offset: usize) -> (alive: bool)
        requires
            offset < self@.cells.len(),
        ensures
            alive == self@.cells[offset as int],
    {
        self.cells[offset]
    }
}

} // verus!
