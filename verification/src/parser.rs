//! Patterns as text.
//!
//! A pattern is written one row per line. `O` marks a live cell and `.` a
//! dead one; a row may stop early, and what it leaves out is dead. Lines at
//! the top that begin with `!` are comments. A line ends at a line feed,
//! and a carriage return just before that line feed belongs to the line
//! ending; the last line needs no line ending.

use vstd::prelude::*;
use crate::grid::{lemma_offset_in_range, lemma_offset_join, lemma_offset_split, Grid};
use crate::world::World;

verus! {

/// Marks a live cell.
pub const ALIVE_MARK: char = 'O';

/// Marks a dead cell.
pub const DEAD_MARK: char = '.';

/// Begins a comment line.
pub const COMMENT_MARK: char = '!';

/// Why a text is not a pattern that can be loaded.
#[derive(Debug, Clone, Copy, PartialEq, Eq)]
pub enum ParseError {
    /// A row holds something other than the two cell marks. `row` counts
    /// the rows of the pattern from one, comment lines left out; `col`
    /// counts the characters of the row from one.
    InvalidCharacter { row: usize, col: usize, found: char },
    /// The pattern has more cells than a world can hold.
    TooLarge,
}

/// How many characters come before the first line feed of `text`; all of
/// them if it has none.
pub open spec fn first_break(text: Seq<char>) -> nat
    decreases text.len(),
{
    if text.len() == 0 || text[0] == '\n' {
        0
    } else {
        1 + first_break(text.drop_first())
    }
}

/// A line without the carriage return that stood before its line feed.
pub open spec fn without_cr(line: Seq<char>) -> Seq<char> {
    if line.len() > 0 && line.last() == '\r' {
        line.drop_last()
    } else {
        line
    }
}

/// The lines of a text, without their line endings.
pub open spec fn lines(text: Seq<char>) -> Seq<Seq<char>>
    decreases text.len(),
{
    if text.len() == 0 {
        Seq::empty()
    } else {
        let k = first_break(text) as int;
        if k >= text.len() {
            seq![text]
        } else {
            seq![without_cr(text.take(k))] + lines(text.skip(k + 1))
        }
    }
}

/// Whether a line begins with the comment mark.
pub open spec fn is_comment(line: Seq<char>) -> bool {
    line.len() > 0 && line[0] == COMMENT_MARK
}

/// How many comment lines stand at the top.
pub open spec fn header_len(lines: Seq<Seq<char>>) -> nat
    decreases lines.len(),
{
    if lines.len() > 0 && is_comment(lines[0]) {
        1 + header_len(lines.drop_first())
    } else {
        0
    }
}

/// The rows of the pattern that a text holds: its lines after the comment
/// lines at the top.
pub open spec fn pattern_rows(text: Seq<char>) -> Seq<Seq<char>> {
    lines(text).skip(header_len(lines(text)) as int)
}

/// How many columns a row needs: it ends with its last live cell.
pub open spec fn row_width(row: Seq<char>) -> nat
    decreases row.len(),
{
    if row.len() == 0 {
        0
    } else if row.last() == ALIVE_MARK {
        row.len()
    } else {
        row_width(row.drop_last())
    }
}

/// How many columns the widest row needs.
pub open spec fn pattern_width(rows: Seq<Seq<char>>) -> nat
    decreases rows.len(),
{
    if rows.len() == 0 {
        0
    } else {
        let above = pattern_width(rows.drop_last());
        let here = row_width(rows.last());
        if here > above {
            here
        } else {
            above
        }
    }
}

/// Whether the pattern marks the cell in column `c` of row `r` as alive,
/// both counted from zero.
pub open spec fn marks_alive(rows: Seq<Seq<char>>, c: int, r: int) -> bool {
    0 <= r < rows.len() && 0 <= c < rows[r].len() && rows[r][c] == ALIVE_MARK
}

/// Whether a character marks a cell, live or dead.
pub open spec fn is_cell_mark(c: char) -> bool {
    c == ALIVE_MARK || c == DEAD_MARK
}

/// Whether character `c` of row `r` is read before character `col` of row
/// `row`.
pub open spec fn read_before(c: int, r: int, col: int, row: int) -> bool {
    r < row || (r == row && c < col)
}

/// Every character that is read before character `col` of row `row` is a
/// cell mark.
pub open spec fn marks_only_before(rows: Seq<Seq<char>>, col: int, row: int) -> bool {
    forall|c: int, r: int|
        0 <= r < rows.len() && 0 <= c < rows[r].len() && read_before(c, r, col, row)
            ==> is_cell_mark(#[trigger] rows[r][c])
}

/// Every character of every row is a cell mark.
pub open spec fn marks_only(rows: Seq<Seq<char>>) -> bool {
    marks_only_before(rows, 0, rows.len() as int)
}

/// The world that holds what has been read of a pattern before character
/// `col` of row `row`: the world is one cell larger than the pattern on
/// every side, and a cell of it lives where the pattern marks one.
pub open spec fn pattern_grid_before(rows: Seq<Seq<char>>, col: int, row: int) -> Grid {
    let width = pattern_width(rows) as int + 2;
    let height = rows.len() as int + 2;
    Grid {
        width,
        height,
        cells: Seq::new(
            (width * height) as nat,
            |i: int|
                {
                    let c = i % width - 1;
                    let r = i / width - 1;
                    marks_alive(rows, c, r) && read_before(c, r, col, row)
                },
        ),
    }
}

/// The world that a pattern describes: the pattern with a border of one
/// dead cell on every side.
pub open spec fn pattern_grid(rows: Seq<Seq<char>>) -> Grid {
    pattern_grid_before(rows, 0, rows.len() as int)
}

/// Whether a world can hold the pattern and its border.
pub open spec fn pattern_fits(rows: Seq<Seq<char>>) -> bool {
    (pattern_width(rows) + 2) * (rows.len() + 2) <= usize::MAX
}

/// The rows as sequences of characters.
pub open spec fn rows_view(rows: Seq<Vec<char>>) -> Seq<Seq<char>> {
    rows.map_values(|row: Vec<char>| row@)
}

/// Where nothing but the line feed at `k` stops the reading, the first
/// break is at `k`.
pub proof fn lemma_first_break(text: Seq<char>, k: int)
    requires
        0 <= k <= text.len(),
        forall|j: int| 0 <= j < k ==> text[j] != '\n',
        k < text.len() ==> text[k] == '\n',
    ensures
        first_break(text) == k,
    decreases k,
{
    if k > 0 {
        lemma_first_break(text.drop_first(), k - 1);
    }
}

/// Splits a text into its lines.
pub fn split_lines(text: &str) -> (rows: Vec<Vec<char>>)
    ensures
        rows_view(rows@) == lines(text@),
{
    let mut rows: Vec<Vec<char>> = Vec::new();
    let mut line: Vec<char> = Vec::new();
    let ghost mut start: int = 0;
    proof {
        assert(text@.skip(0) =~= text@);
    }
    for c in it: text.chars()
        invariant
            it.seq() == text@,
            0 <= start <= it.index(),
            line@ == text@.subrange(start, it.index() as int),
            forall|j: int| start <= j < it.index() ==> text@[j] != '\n',
            lines(text@) == rows_view(rows@) + lines(text@.skip(start)),
    {
        let ghost at = it.index() as int;
        if c == '\n' {
            proof {
                let rest = text@.skip(start);
                lemma_first_break(rest, at - start);
                assert(rest.take(at - start) =~= line@);
                assert(rest.skip(at - start + 1) =~= text@.skip(at + 1));
            }
            let n = line.len();
            if n > 0 && line[n - 1] == '\r' {
                line.pop();
            }
            rows.push(line);
            line = Vec::new();
            proof {
                start = at + 1;
            }
        } else {
            line.push(c);
        }
    }
    proof {
        let rest = text@.skip(start);
        lemma_first_break(rest, rest.len() as int);
    }
    if line.len() > 0 {
        rows.push(line);
    }
    rows
}

/// The comment lines are the lines before the first that is none.
pub proof fn lemma_header_len(lines: Seq<Seq<char>>, n: int)
    requires
        0 <= n <= lines.len(),
        forall|j: int| 0 <= j < n ==> is_comment(#[trigger] lines[j]),
        n < lines.len() ==> !is_comment(lines[n]),
    ensures
        header_len(lines) == n,
    decreases n,
{
    if n > 0 {
        let rest = lines.drop_first();
        assert forall|j: int| 0 <= j < n - 1 implies is_comment(#[trigger] rest[j]) by {
            assert(rest[j] == lines[j + 1]);
        }
        lemma_header_len(rest, n - 1);
    }
}

/// A live cell lies within the width of its row.
pub proof fn lemma_alive_mark_within_row(row: Seq<char>, j: int)
    requires
        0 <= j < row.len(),
        row[j] == ALIVE_MARK,
    ensures
        j < row_width(row) <= row.len(),
    decreases row.len(),
{
    if row.last() != ALIVE_MARK {
        lemma_alive_mark_within_row(row.drop_last(), j);
    }
}

/// No row is wider than the pattern.
pub proof fn lemma_row_within_pattern(rows: Seq<Seq<char>>, i: int)
    requires
        0 <= i < rows.len(),
    ensures
        row_width(rows[i]) <= pattern_width(rows),
    decreases rows.len(),
{
    if i < rows.len() - 1 {
        lemma_row_within_pattern(rows.drop_last(), i);
    }
}

/// Before anything is read the world is dead.
pub proof fn lemma_pattern_start(rows: Seq<Seq<char>>)
    ensures
        pattern_grid_before(rows, 0, 0) == Grid::dead(
            pattern_width(rows) as int + 2,
            rows.len() as int + 2,
        ),
{
    let grid = pattern_grid_before(rows, 0, 0);
    let dead = Grid::dead(pattern_width(rows) as int + 2, rows.len() as int + 2);
    assert(grid.cells =~= dead.cells);
}

/// Reading one character brings its cell to life if it is the mark of a
/// live cell, and changes nothing if not.
pub proof fn lemma_pattern_step(rows: Seq<Seq<char>>, col: int, row: int)
    requires
        0 <= row < rows.len(),
        0 <= col < rows[row].len(),
    ensures
        rows[row][col] == ALIVE_MARK ==> pattern_grid_before(rows, col, row).contains(
            col + 1,
            row + 1,
        ),
        pattern_grid_before(rows, col + 1, row) == if rows[row][col] == ALIVE_MARK {
            pattern_grid_before(rows, col, row).with_cell(col + 1, row + 1, true)
        } else {
            pattern_grid_before(rows, col, row)
        },
{
    let width = pattern_width(rows) as int + 2;
    let height = rows.len() as int + 2;
    let before = pattern_grid_before(rows, col, row);
    let after = pattern_grid_before(rows, col + 1, row);
    if rows[row][col] == ALIVE_MARK {
        lemma_alive_mark_within_row(rows[row], col);
        lemma_row_within_pattern(rows, row);
        lemma_offset_in_range(width, height, col + 1, row + 1);
        lemma_offset_split(width, col + 1, row + 1);
        let written = before.with_cell(col + 1, row + 1, true);
        assert forall|i: int| 0 <= i < after.cells.len() implies after.cells[i]
            == written.cells[i] by {
            lemma_offset_join(width, height, i);
        }
        assert(after.cells =~= written.cells);
    } else {
        assert(after.cells =~= before.cells);
    }
}

/// After the last character of a row comes the first of the next.
pub proof fn lemma_pattern_next_row(rows: Seq<Seq<char>>, row: int)
    requires
        0 <= row < rows.len(),
    ensures
        pattern_grid_before(rows, rows[row].len() as int, row) == pattern_grid_before(
            rows,
            0,
            row + 1,
        ),
{
    let here = pattern_grid_before(rows, rows[row].len() as int, row);
    let next = pattern_grid_before(rows, 0, row + 1);
    assert(here.cells =~= next.cells);
}

/// Counts the comment lines at the top.
fn count_header(rows: &Vec<Vec<char>>) -> (n: usize)
    ensures
        n == header_len(rows_view(rows@)),
        n <= rows@.len(),
{
    let ghost lines = rows_view(rows@);
    let mut n: usize = 0;
    while n < rows.len()
        invariant_except_break
            n <= rows@.len(),
        invariant
            lines == rows_view(rows@),
            forall|j: int| 0 <= j < n ==> is_comment(#[trigger] lines[j]),
        ensures
            n <= rows@.len(),
            n < rows@.len() ==> !is_comment(lines[n as int]),
        decreases rows.len() - n,
    {
        let row = &rows[n];
        if row.len() == 0 || row[0] != COMMENT_MARK {
            break ;
        }
        n = n + 1;
    }
    proof {
        lemma_header_len(lines, n as int);
    }
    n
}

/// How many columns a row needs.
fn measure_row(row: &Vec<char>) -> (width: usize)
    ensures
        width == row_width(row@),
{
    let mut width: usize = 0;
    let mut j: usize = 0;
    while j < row.len()
        invariant
            j <= row@.len(),
            width == row_width(row@.take(j as int)),
            width <= j,
        decreases row.len() - j,
    {
        proof {
            let longer = row@.take(j as int + 1);
            assert(longer.drop_last() =~= row@.take(j as int));
        }
        if row[j] == ALIVE_MARK {
            width = j + 1;
        }
        j = j + 1;
    }
    assert(row@.take(j as int) =~= row@);
    width
}

/// Width and height of the pattern in the rows from `from` on.
fn measure_rows(rows: &Vec<Vec<char>>, from: usize) -> (dim: (usize, usize))
    requires
        from <= rows@.len(),
    ensures
        dim.0 == pattern_width(rows_view(rows@).skip(from as int)),
        dim.1 == rows@.len() - from,
{
    let ghost body = rows_view(rows@).skip(from as int);
    let mut width: usize = 0;
    let mut i: usize = from;
    while i < rows.len()
        invariant
            from <= i <= rows@.len(),
            body == rows_view(rows@).skip(from as int),
            width == pattern_width(body.take(i - from)),
        decreases rows.len() - i,
    {
        proof {
            let longer = body.take(i - from + 1);
            assert(longer.drop_last() =~= body.take(i - from));
        }
        let here = measure_row(&rows[i]);
        if here > width {
            width = here;
        }
        i = i + 1;
    }
    assert(body.take(i - from) =~= body);
    (width, rows.len() - from)
}

/// Width and height of the pattern that a text holds.
pub fn cells_dimension(world: &str) -> (dim: (usize, usize))
    ensures
        dim.0 == pattern_width(pattern_rows(world@)),
        dim.1 == pattern_rows(world@).len(),
{
    let rows = split_lines(world);
    let from = count_header(&rows);
    measure_rows(&rows, from)
}

/// Builds the world that a text describes: as large as the pattern with a
/// border of one dead cell on every side, in its generation zero.
///
/// A pattern too large for a world is refused before its rows are read.
/// Otherwise the first character, in reading order, that is no cell mark
/// is reported.
pub fn cells_parse(world: &str) -> (result: Result<World, ParseError>)
    ensures
        result is Ok <==> pattern_fits(pattern_rows(world@)) && marks_only(pattern_rows(world@)),
        result matches Ok(built) ==> {
            &&& built.wf()
            &&& built@ == pattern_grid(pattern_rows(world@))
            &&& built.age() == 0
        },
        result matches Err(e) ==> (e == ParseError::TooLarge <==> !pattern_fits(
            pattern_rows(world@),
        )),
        result matches Err(ParseError::InvalidCharacter { row, col, found }) ==> {
            let rows = pattern_rows(world@);
            &&& 1 <= row <= rows.len()
            &&& 1 <= col <= rows[row - 1].len()
            &&& found == rows[row - 1][col - 1]
            &&& !is_cell_mark(found)
            &&& marks_only_before(rows, col - 1, row - 1)
        },
{
    let lines = split_lines(world);
    let from = count_header(&lines);
    let dim = measure_rows(&lines, from);
    let ghost rows = pattern_rows(world@);
    let size = match (dim.0.checked_add(2), dim.1.checked_add(2)) {
        (Some(width), Some(height)) => match width.checked_mul(height) {
            Some(_) => Some((width, height)),
            None => None,
        },
        _ => None,
    };
    let (width, height) = match size {
        Some(size) => size,
        None => {
            assert(!pattern_fits(rows)) by (nonlinear_arith)
                requires
                    dim.0 == pattern_width(rows),
                    dim.1 == rows.len(),
                    dim.0 + 2 > usize::MAX || dim.1 + 2 > usize::MAX || (dim.0 + 2) * (dim.1 + 2)
                        > usize::MAX,
            ;
            return Err(ParseError::TooLarge);
        },
    };
    let mut built = World::empty(width, height);
    proof {
        lemma_pattern_start(rows);
    }
    let mut i: usize = 0;
    while i < dim.1
        invariant
            rows == pattern_rows(world@),
            rows == rows_view(lines@).skip(from as int),
            from + dim.1 == lines.len(),
            dim.1 == rows.len(),
            i <= dim.1,
            pattern_fits(rows),
            built.wf(),
            built.age() == 0,
            built@ == pattern_grid_before(rows, 0, i as int),
            marks_only_before(rows, 0, i as int),
        decreases dim.1 - i,
    {
        let line = &lines[from + i];
        let mut j: usize = 0;
        while j < line.len()
            invariant
                rows == pattern_rows(world@),
                dim.1 == rows.len(),
                i < dim.1,
                line@ == rows[i as int],
                j <= line@.len(),
                pattern_fits(rows),
                built.wf(),
                built.age() == 0,
                built@ == pattern_grid_before(rows, j as int, i as int),
                marks_only_before(rows, j as int, i as int),
            decreases line.len() - j,
        {
            let c = line[j];
            proof {
                lemma_pattern_step(rows, j as int, i as int);
            }
            if c == ALIVE_MARK {
                built.set_alive(j + 1, i + 1, true);
            } else if c != DEAD_MARK {
                return Err(ParseError::InvalidCharacter { row: i + 1, col: j + 1, found: c });
            }
            j = j + 1;
        }
        proof {
            lemma_pattern_next_row(rows, i as int);
        }
        i = i + 1;
    }
    Ok(built)
}

} // verus!
