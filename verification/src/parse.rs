//! The text form of a puzzle: what a well-formed text is, which puzzle it
//! describes, and the parser.
use vstd::prelude::*;
use vstd::arithmetic::div_mod::{lemma_fundamental_div_mod_converse, lemma_mod_multiples_basic};
use vstd::string::StringSliceAdditionalSpecFns;
use crate::grid::{lemma_index_in_range, lemma_index_unique, Coord, Puzzle, MAX_ELEVATION};

verus! {

/// The line terminator.
pub const NEWLINE: u8 = 10;

/// The letter `S`, which marks the start.
pub const START_MARK: u8 = 83;

/// The letter `E`, which marks the end.
pub const END_MARK: u8 = 69;

/// The letter `a`, the lowest elevation.
pub const LOWEST: u8 = 97;

/// The letter `z`, the highest elevation.
pub const HIGHEST: u8 = 122;

/// Why a text could not be loaded.
#[derive(Clone, Copy, Debug, PartialEq, Eq, Structural)]
pub enum LoadError {
    /// The text is not a rectangle of lower-case letters with exactly one
    /// start mark and exactly one end mark.
    InvalidFormat,
}

/// The text without the single line terminator that may end it.
pub open spec fn body(text: Seq<u8>) -> Seq<u8> {
    if text.len() > 0 && text.last() == NEWLINE {
        text.drop_last()
    } else {
        text
    }
}

/// Whether a byte stands for a cell: a lower-case letter or one of the two
/// marks.
pub open spec fn is_cell(b: u8) -> bool {
    LOWEST <= b <= HIGHEST || b == START_MARK || b == END_MARK
}

/// The elevation that a cell's byte stands for: the start lies lowest, the
/// end lies highest, a letter lies as high as its place in the alphabet.
pub open spec fn elevation_of(b: u8) -> u8 {
    if b == START_MARK {
        0
    } else if b == END_MARK {
        MAX_ELEVATION
    } else {
        (b - LOWEST) as u8
    }
}

/// The place in the text of cell `c` of a table with `cols` columns: each
/// line takes `cols` bytes and one terminator.
pub open spec fn place(c: Coord, cols: int) -> int {
    c.row * (cols + 1) + c.col
}

/// Whether the byte at place `i` is what a table with `cols` columns has
/// there: a line terminator after every `cols` cells, a cell elsewhere.
pub open spec fn fits(body: Seq<u8>, cols: int, i: int) -> bool {
    if i % (cols + 1) == cols {
        body[i] == NEWLINE
    } else {
        is_cell(body[i])
    }
}

/// `body` is `rows` lines of `cols` cells each, with one line terminator
/// between a line and the next.
pub open spec fn is_table(body: Seq<u8>, rows: int, cols: int) -> bool {
    &&& rows >= 1
    &&& cols >= 1
    &&& body.len() + 1 == rows * (cols + 1)
    &&& forall|i: int| 0 <= i < body.len() ==> #[trigger] fits(body, cols, i)
}

/// The byte `mark` occurs among the first `upto` bytes only at place `at`.
pub open spec fn only_at(body: Seq<u8>, mark: u8, at: int, upto: int) -> bool {
    &&& 0 <= at < upto
    &&& body[at] == mark
    &&& forall|j: int| 0 <= j < upto && #[trigger] body[j] == mark ==> j == at
}

/// The byte `mark` occurs in `body` exactly once.
pub open spec fn has_one(body: Seq<u8>, mark: u8) -> bool {
    exists|at: int| only_at(body, mark, at, body.len() as int)
}

/// A well-formed text is a table of at least one line and at least one
/// column that holds exactly one start mark and exactly one end mark.  A
/// single line terminator may follow the last line.
pub open spec fn well_formed(text: Seq<u8>) -> bool {
    &&& exists|rows: int, cols: int| is_table(body(text), rows, cols)
    &&& has_one(body(text), START_MARK)
    &&& has_one(body(text), END_MARK)
}

/// The puzzle `p` is what the text describes: the table's size, the
/// elevation of every cell, and the places of the two marks.
pub open spec fn describes(text: Seq<u8>, p: &Puzzle) -> bool {
    let b = body(text);
    &&& p.wf()
    &&& is_table(b, p.rows() as int, p.cols() as int)
    &&& forall|c: Coord|
        p.contains(c) ==> #[trigger] p.elevation(c) == elevation_of(b[place(c, p.cols() as int)])
    &&& only_at(b, START_MARK, place(p.start(), p.cols() as int), b.len() as int)
    &&& only_at(b, END_MARK, place(p.end(), p.cols() as int), b.len() as int)
}

/// The first line of `body` has `cols` bytes.
spec fn first_line(body: Seq<u8>, cols: int) -> bool {
    &&& 0 <= cols <= body.len()
    &&& forall|k: int| 0 <= k < cols ==> #[trigger] body[k] != NEWLINE
    &&& cols < body.len() ==> body[cols] == NEWLINE
}

/// The place of a cell, divided by the length of a line with its
/// terminator, leaves the cell's column.
proof fn lemma_place_mod(row: int, col: int, cols: int)
    requires
        0 <= row,
        0 <= col <= cols,
    ensures
        (row * (cols + 1) + col) % (cols + 1) == col,
{
    lemma_fundamental_div_mod_converse(row * (cols + 1) + col, cols + 1, row, col);
}

/// A table has as many columns as its first line has bytes.
proof fn lemma_table_cols(body: Seq<u8>, rows: int, cols: int, width: int)
    requires
        is_table(body, rows, cols),
        first_line(body, width),
    ensures
        cols == width,
{
    assert(body.len() >= cols) by (nonlinear_arith)
        requires
            body.len() + 1 == rows * (cols + 1),
            rows >= 1,
            cols >= 1,
    ;
    if cols < width {
        lemma_place_mod(0, cols, cols);
        assert(fits(body, cols, cols));
        assert(body[cols] != NEWLINE);
    } else if cols > width {
        lemma_place_mod(0, width, cols);
        assert(fits(body, cols, width));
    }
}

/// A text is a table of one size only.
pub proof fn lemma_table_size(body: Seq<u8>, rows: int, cols: int, rows2: int, cols2: int)
    requires
        is_table(body, rows, cols),
        is_table(body, rows2, cols2),
    ensures
        rows == rows2,
        cols == cols2,
{
    lemma_no_wider_table(body, rows, cols, rows2, cols2);
    lemma_no_wider_table(body, rows2, cols2, rows, cols);
    assert(rows == rows2) by (nonlinear_arith)
        requires
            rows * (cols + 1) == rows2 * (cols + 1),
            cols >= 1,
    ;
}

/// A text that is a table is no table with more columns: where the first
/// line of the table ends, a wider one would go on.
proof fn lemma_no_wider_table(body: Seq<u8>, rows: int, cols: int, rows2: int, cols2: int)
    requires
        is_table(body, rows, cols),
        is_table(body, rows2, cols2),
    ensures
        cols2 <= cols,
{
    if cols < cols2 {
        assert(body.len() >= cols2) by (nonlinear_arith)
            requires
                body.len() + 1 == rows2 * (cols2 + 1),
                rows2 >= 1,
                cols2 >= 1,
        ;
        lemma_place_mod(0, cols, cols);
        lemma_place_mod(0, cols, cols2);
        assert(fits(body, cols, cols));
        assert(fits(body, cols2, cols));
    }
}

/// A text whose byte at some place does not fit its first line's width is
/// no table.
proof fn lemma_misfit(body: Seq<u8>, width: int, i: int)
    requires
        first_line(body, width),
        0 <= i < body.len(),
        !fits(body, width, i),
    ensures
        forall|rows: int, cols: int| !is_table(body, rows, cols),
{
    assert forall|rows: int, cols: int| !is_table(body, rows, cols) by {
        if is_table(body, rows, cols) {
            lemma_table_cols(body, rows, cols, width);
            assert(fits(body, cols, i));
        }
    }
}

/// A text whose last line is shorter than its first is no table.
proof fn lemma_short_last_line(body: Seq<u8>, width: int, row: int, col: int)
    requires
        first_line(body, width),
        0 <= row,
        0 <= col < width,
        body.len() == row * (width + 1) + col,
    ensures
        forall|rows: int, cols: int| !is_table(body, rows, cols),
{
    assert forall|rows: int, cols: int| !is_table(body, rows, cols) by {
        if is_table(body, rows, cols) {
            lemma_table_cols(body, rows, cols, width);
            lemma_mod_multiples_basic(rows, width + 1);
            lemma_fundamental_div_mod_converse(body.len() as int + 1, width + 1, row, col + 1);
        }
    }
}

/// A text without a first line is no table.
proof fn lemma_empty_first_line(body: Seq<u8>)
    requires
        first_line(body, 0),
    ensures
        forall|rows: int, cols: int| !is_table(body, rows, cols),
{
    assert forall|rows: int, cols: int| !is_table(body, rows, cols) by {
        if is_table(body, rows, cols) {
            lemma_table_cols(body, rows, cols, 0);
        }
    }
}

/// What the parser knows of a mark after the first `upto` bytes: where it
/// stands if it was met, and that it was met at most once.
spec fn mark_so_far(
    body: Seq<u8>,
    mark: u8,
    met: Option<Coord>,
    cols: int,
    row: int,
    upto: int,
) -> bool {
    match met {
        Some(c) => c.row <= row && c.col < cols && only_at(body, mark, place(c, cols), upto),
        None => forall|j: int| 0 <= j < upto ==> #[trigger] body[j] != mark,
    }
}

/// Position of cell `c` in a table stored row by row without terminators.
spec fn cell_index(c: Coord, cols: int) -> int {
    c.row * cols + c.col
}

/// The elevations stored so far are those of the cells read so far.
spec fn stored(heightmap: Seq<u8>, body: Seq<u8>, cols: int) -> bool {
    &&& forall|k: int| 0 <= k < heightmap.len() ==> #[trigger] heightmap[k] <= MAX_ELEVATION
    &&& forall|c: Coord|
        c.col < cols && cell_index(c, cols) < heightmap.len() ==> heightmap[cell_index(c, cols)]
            == elevation_of(body[#[trigger] place(c, cols)])
}

/// Storing the elevation of the cell just read keeps what is stored in
/// step with what was read.
proof fn lemma_store(heightmap: Seq<u8>, body: Seq<u8>, cols: int, row: int, col: int, e: u8)
    requires
        stored(heightmap, body, cols),
        0 <= row <= usize::MAX,
        0 <= col < cols,
        heightmap.len() == row * cols + col,
        0 <= row * (cols + 1) + col < body.len(),
        e == elevation_of(body[row * (cols + 1) + col]),
        e <= MAX_ELEVATION,
    ensures
        stored(heightmap.push(e), body, cols),
{
    let grown = heightmap.push(e);
    assert forall|c: Coord|
        c.col < cols && cell_index(c, cols) < grown.len() implies grown[cell_index(c, cols)]
        == elevation_of(body[#[trigger] place(c, cols)]) by {
        assert(0 <= c.row * cols) by (nonlinear_arith)
            requires
                c.row >= 0,
                cols >= 0,
        ;
        if cell_index(c, cols) < heightmap.len() {
            assert(grown[cell_index(c, cols)] == heightmap[cell_index(c, cols)]);
        } else {
            lemma_index_unique(c.row as int, c.col as int, row, col, cols);
        }
    }
}

/// Reads a puzzle from its text: one line for each row, a lower-case letter
/// for each cell's elevation, `S` for the start and `E` for the end.  The
/// start lies as low as `a`, the end as high as `z`.  Every other text is
/// refused.
pub fn load(text: &str) -> (loaded: Result<Puzzle, LoadError>)
    ensures
        loaded is Ok <==> well_formed(text.spec_bytes()),
        loaded matches Ok(p) ==> describes(text.spec_bytes(), &p),
        loaded matches Err(e) ==> e == LoadError::InvalidFormat,
{
    let bytes = text.as_bytes();
    let mut n: usize = bytes.len();
    if n > 0 && bytes[n - 1] == NEWLINE {
        n = n - 1;
    }
    let ghost b = body(bytes@);
    assert(b == bytes@.take(n as int));
    let mut cols: usize = 0;
    while cols < n && bytes[cols] != NEWLINE
        invariant
            cols <= n <= bytes@.len(),
            b == bytes@.take(n as int),
            forall|k: int| 0 <= k < cols ==> #[trigger] b[k] != NEWLINE,
        decreases n - cols,
    {
        cols += 1;
    }
    assert(first_line(b, cols as int));
    if cols == 0 {
        proof {
            lemma_empty_first_line(b);
        }
        return Err(LoadError::InvalidFormat);
    }
    let mut heightmap: Vec<u8> = Vec::new();
    let mut start: Option<Coord> = None;
    let mut end: Option<Coord> = None;
    let mut i: usize = 0;
    let mut row: usize = 0;
    let mut col: usize = 0;
    while i < n
        invariant
            1 <= cols <= n <= bytes@.len(),
            b == bytes@.take(n as int),
            b == body(text.spec_bytes()),
            first_line(b, cols as int),
            i <= n,
            i == row * (cols + 1) + col,
            col <= cols,
            heightmap@.len() == row * cols + col,
            forall|j: int| 0 <= j < i ==> #[trigger] fits(b, cols as int, j),
            stored(heightmap@, b, cols as int),
            mark_so_far(b, START_MARK, start, cols as int, row as int, i as int),
            mark_so_far(b, END_MARK, end, cols as int, row as int, i as int),
        decreases n - i,
    {
        let byte = bytes[i];
        assert(byte == b[i as int]);
        proof {
            lemma_place_mod(row as int, col as int, cols as int);
            assert(row <= i) by (nonlinear_arith)
                requires
                    i == row * (cols + 1) + col,
                    cols >= 1,
                    col >= 0,
                    row >= 0,
            ;
        }
        if col == cols {
            if byte != NEWLINE {
                proof {
                    lemma_misfit(b, cols as int, i as int);
                }
                return Err(LoadError::InvalidFormat);
            }
            proof {
                assert((row + 1) * (cols + 1) + 0 == i + 1 && (row + 1) * cols + 0 == row * cols
                    + col) by (nonlinear_arith)
                    requires
                        i == row * (cols + 1) + col,
                        col == cols,
                ;
            }
            row += 1;
            col = 0;
        } else {
            let here = Coord { row, col };
            assert(place(here, cols as int) == i);
            if byte == START_MARK {
                if start.is_some() {
                    proof {
                        lemma_twice(b, START_MARK, place(start->0, cols as int), i as int);
                    }
                    return Err(LoadError::InvalidFormat);
                }
                start = Some(here);
                proof {
                    lemma_store(heightmap@, b, cols as int, row as int, col as int, 0);
                }
                heightmap.push(0);
            } else if byte == END_MARK {
                if end.is_some() {
                    proof {
                        lemma_twice(b, END_MARK, place(end->0, cols as int), i as int);
                    }
                    return Err(LoadError::InvalidFormat);
                }
                end = Some(here);
                proof {
                    lemma_store(heightmap@, b, cols as int, row as int, col as int, MAX_ELEVATION);
                }
                heightmap.push(MAX_ELEVATION);
            } else if LOWEST <= byte && byte <= HIGHEST {
                proof {
                    lemma_store(
                        heightmap@,
                        b,
                        cols as int,
                        row as int,
                        col as int,
                        (byte - LOWEST) as u8,
                    );
                }
                heightmap.push(byte - LOWEST);
            } else {
                proof {
                    lemma_misfit(b, cols as int, i as int);
                }
                return Err(LoadError::InvalidFormat);
            }
            col += 1;
        }
        i += 1;
    }
    if col != cols {
        proof {
            lemma_short_last_line(b, cols as int, row as int, col as int);
        }
        return Err(LoadError::InvalidFormat);
    }
    proof {
        assert(b.len() + 1 == (row + 1) * (cols + 1) && heightmap@.len() == (row + 1) * cols && row
            < b.len()) by (nonlinear_arith)
            requires
                b.len() == row * (cols + 1) + col,
                heightmap@.len() == row * cols + col,
                col == cols,
                cols >= 1,
                row >= 0,
        ;
        assert(is_table(b, row + 1, cols as int));
    }
    match (start, end) {
        (Some(s), Some(e)) => {
            proof {
                lemma_index_in_range(s.row as int, s.col as int, row + 1, cols as int);
                lemma_index_in_range(e.row as int, e.col as int, row + 1, cols as int);
                assert(b[place(s, cols as int)] == START_MARK);
                assert(b[place(e, cols as int)] == END_MARK);
                assert(cell_index(s, cols as int) == s.row * cols + s.col);
                assert(cell_index(e, cols as int) == e.row * cols + e.col);
            }
            let p = Puzzle::assemble(heightmap, row + 1, cols, s, e);
            proof {
                assert forall|c: Coord| p.contains(c) implies #[trigger] p.elevation(c)
                    == elevation_of(b[place(c, p.cols() as int)]) by {
                    p.lemma_wf();
                    assert(cell_index(c, cols as int) == p.spec_index_of(c));
                }
            }
            Ok(p)
        },
        (None, _) => {
            proof {
                assert forall|at: int| !only_at(b, START_MARK, at, b.len() as int) by {
                    if 0 <= at < b.len() {
                        assert(b[at] != START_MARK);
                    }
                }
            }
            Err(LoadError::InvalidFormat)
        },
        (_, None) => {
            proof {
                assert forall|at: int| !only_at(b, END_MARK, at, b.len() as int) by {
                    if 0 <= at < b.len() {
                        assert(b[at] != END_MARK);
                    }
                }
            }
            Err(LoadError::InvalidFormat)
        },
    }
}

/// A mark that occurs at two places does not occur exactly once.
proof fn lemma_twice(body: Seq<u8>, mark: u8, first: int, second: int)
    requires
        0 <= first < second < body.len(),
        body[first] == mark,
        body[second] == mark,
    ensures
        !has_one(body, mark),
{
    assert forall|at: int| !only_at(body, mark, at, body.len() as int) by {
        if only_at(body, mark, at, body.len() as int) {
            assert(body[first] == mark);
            assert(body[second] == mark);
        }
    }
}

} // verus!
