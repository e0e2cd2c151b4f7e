//! The elevation grid: coordinates, the table of elevations and the two
//! marked cells.
use vstd::prelude::*;
use vstd::set_lib::{lemma_int_range, lemma_len_subset, set_int_range};

verus! {

/// The elevation of the highest cell, that of the letter `z`.
pub const MAX_ELEVATION: u8 = 25;

/// A cell of the grid, counted from the top-left corner.
#[derive(Clone, Copy, Debug, PartialEq, Eq, Structural)]
pub struct Coord {
    pub row: usize,
    pub col: usize,
}

/// Two cells are adjacent when they share an edge.
pub open spec fn adjacent(a: Coord, b: Coord) -> bool {
    ||| a.col == b.col && (a.row + 1 == b.row || b.row + 1 == a.row)
    ||| a.row == b.row && (a.col + 1 == b.col || b.col + 1 == a.col)
}

/// A rectangular table of elevations, stored row by row, with the cell where
/// the climb starts and the cell where it ends.
#[derive(Debug)]
pub struct Puzzle {
    heightmap: Vec<u8>,
    rows: usize,
    cols: usize,
    start: Coord,
    end: Coord,
}

impl Puzzle {
    /// Number of rows.
    pub closed spec fn spec_rows(&self) -> usize {
        self.rows
    }

    /// Number of columns.
    pub closed spec fn spec_cols(&self) -> usize {
        self.cols
    }

    /// The cell where the climb starts.
    pub closed spec fn spec_start(&self) -> Coord {
        self.start
    }

    /// The cell where the climb ends.
    pub closed spec fn spec_end(&self) -> Coord {
        self.end
    }

    /// Whether `c` lies inside the grid.
    pub open spec fn spec_contains(&self, c: Coord) -> bool {
        c.row < self.rows() && c.col < self.cols()
    }

    /// Position of `c` in a table stored row by row.
    pub open spec fn spec_index_of(&self, c: Coord) -> int {
        c.row * self.cols() + c.col
    }

    /// Number of cells.
    pub open spec fn area(&self) -> int {
        self.rows() * self.cols()
    }

    /// The elevation of cell `c`; meaningful for cells inside the grid.
    pub closed spec fn spec_elevation(&self, c: Coord) -> u8 {
        self.heightmap@[self.spec_index_of(c)]
    }

    /// The grid is a non-empty rectangle of elevations up to
    /// [`MAX_ELEVATION`]; the start and the end are two cells of it, the
    /// start at the lowest elevation and the end at the highest.
    pub closed spec fn wf(&self) -> bool {
        &&& self.rows >= 1
        &&& self.cols >= 1
        &&& self.heightmap@.len() == self.rows * self.cols
        &&& forall|i: int| 0 <= i < self.heightmap@.len() ==> self.heightmap@[i] <= MAX_ELEVATION
        &&& self.spec_contains(self.start)
        &&& self.spec_contains(self.end)
        &&& self.start != self.end
        &&& self.spec_elevation(self.start) == 0
        &&& self.spec_elevation(self.end) == MAX_ELEVATION
    }

    /// What well-formedness means in terms of the public accessors.
    pub proof fn lemma_wf(&self)
        requires
            self.wf(),
        ensures
            self.rows() >= 1,
            self.cols() >= 1,
            1 <= self.area() <= usize::MAX,
            self.contains(self.start()),
            self.contains(self.end()),
            self.start() != self.end(),
            self.elevation(self.start()) == 0,
            self.elevation(self.end()) == MAX_ELEVATION,
            forall|c: Coord| self.contains(c) ==> #[trigger] self.elevation(c) <= MAX_ELEVATION,
            forall|c: Coord|
                self.contains(c) ==> 0 <= #[trigger] self.spec_index_of(c) < self.area(),
    {
        assert(self.heightmap.len() == self.rows * self.cols);
        lemma_index_in_range(0, 0, self.rows as int, self.cols as int);
        assert forall|c: Coord| self.contains(c) implies 0 <= #[trigger] self.spec_index_of(c)
            < self.area() by {
            lemma_index_in_range(c.row as int, c.col as int, self.rows as int, self.cols as int);
        }
    }

    /// Distinct cells of the grid have distinct positions in the table.
    pub proof fn lemma_index_injective(&self, a: Coord, b: Coord)
        requires
            self.contains(a),
            self.contains(b),
            self.spec_index_of(a) == self.spec_index_of(b),
        ensures
            a == b,
    {
        lemma_index_unique(
            a.row as int,
            a.col as int,
            b.row as int,
            b.col as int,
            self.cols() as int,
        );
    }

    /// Distinct cells of the grid are no more than the grid has cells.
    pub proof fn lemma_distinct_cells_fit(&self, cells: Seq<Coord>)
        requires
            self.wf(),
            forall|i: int| 0 <= i < cells.len() ==> self.contains(#[trigger] cells[i]),
            forall|i: int, j: int| 0 <= i < j < cells.len() ==> cells[i] != cells[j],
        ensures
            cells.len() <= self.area(),
    {
        self.lemma_wf();
        let places = Seq::new(cells.len(), |i: int| self.spec_index_of(cells[i]));
        assert forall|i: int, j: int|
            0 <= i < places.len() && 0 <= j < places.len() && i != j implies places[i]
            != places[j] by {
            if places[i] == places[j] {
                self.lemma_index_injective(cells[i], cells[j]);
            }
        }
        places.unique_seq_to_set();
        lemma_int_range(0, self.area());
        lemma_len_subset(places.to_set(), set_int_range(0, self.area()));
    }

    /// An empty puzzle, to be filled in by `configure`.  It has no cells, so
    /// it is not well formed and nothing can be searched in it.
    pub fn new() -> (p: Puzzle)
        ensures
            p.rows() == 0,
            p.cols() == 0,
            p.start() == (Coord { row: 0, col: 0 }),
            p.end() == (Coord { row: 0, col: 0 }),
            !p.wf(),
    {
        Puzzle {
            heightmap: Vec::new(),
            rows: 0,
            cols: 0,
            start: Coord { row: 0, col: 0 },
            end: Coord { row: 0, col: 0 },
        }
    }

    /// Builds a puzzle from a table stored row by row.
    pub(crate) fn assemble(
        heightmap: Vec<u8>,
        rows: usize,
        cols: usize,
        start: Coord,
        end: Coord,
    ) -> (p: Puzzle)
        requires
            rows >= 1,
            cols >= 1,
            heightmap@.len() == rows * cols,
            forall|i: int| 0 <= i < heightmap@.len() ==> heightmap@[i] <= MAX_ELEVATION,
            start.row < rows && start.col < cols,
            end.row < rows && end.col < cols,
            start != end,
            heightmap@[start.row * cols + start.col] == 0,
            heightmap@[end.row * cols + end.col] == MAX_ELEVATION,
        ensures
            p.wf(),
            p.rows() == rows,
            p.cols() == cols,
            p.start() == start,
            p.end() == end,
            forall|c: Coord| #[trigger] p.elevation(c) == heightmap@[p.spec_index_of(c)],
    {
        Puzzle { heightmap, rows, cols, start, end }
    }

    /// Number of rows.
    #[verifier::when_used_as_spec(spec_rows)]
    pub fn rows(&self) -> (n: usize)
        ensures
            n == self.rows(),
    {
        self.rows
    }

    /// Number of columns.
    #[verifier::when_used_as_spec(spec_cols)]
    pub fn cols(&self) -> (n: usize)
        ensures
            n == self.cols(),
    {
        self.cols
    }

    /// The cell where the climb starts.
    #[verifier::when_used_as_spec(spec_start)]
    pub fn start(&self) -> (c: Coord)
        ensures
            c == self.start(),
    {
        self.start
    }

    /// The cell where the climb ends.
    #[verifier::when_used_as_spec(spec_end)]
    pub fn end(&self) -> (c: Coord)
        ensures
            c == self.end(),
    {
        self.end
    }

    /// Whether `c` lies inside the grid.
    #[verifier::when_used_as_spec(spec_contains)]
    pub fn contains(&self, c: Coord) -> (inside: bool)
        ensures
            inside == self.contains(c),
    {
        c.row < self.rows && c.col < self.cols
    }

    /// Position of `c` in a table stored row by row.
    pub fn index_of(&self, c: Coord) -> (i: usize)
        requires
            self.wf(),
            self.contains(c),
        ensures
            i == self.spec_index_of(c),
            i < self.area(),
    {
        proof {
            lemma_index_in_range(c.row as int, c.col as int, self.rows as int, self.cols as int);
            assert(self.heightmap.len() == self.rows * self.cols);
        }
        c.row * self.cols + c.col
    }

    /// The elevation of a cell of the grid.
    #[verifier::when_used_as_spec(spec_elevation)]
    pub fn elevation(&self, c: Coord) -> (e: u8)
        requires
            self.wf(),
            self.contains(c),
        ensures
            e == self.elevation(c),
            e <= MAX_ELEVATION,
    {
        let i: usize = self.index_of(c);
        self.heightmap[i]
    }

    /// The cells next to `pos`, in the order in which a search tries them:
    /// below, above, right, left.
    pub open spec fn spec_neighbors(&self, pos: Coord) -> Seq<Coord> {
        let below = if pos.row + 1 < self.rows() {
            seq![Coord { row: (pos.row + 1) as usize, col: pos.col }]
        } else {
            seq![]
        };
        let above = if pos.row > 0 {
            seq![Coord { row: (pos.row - 1) as usize, col: pos.col }]
        } else {
            seq![]
        };
        let right = if pos.col + 1 < self.cols() {
            seq![Coord { row: pos.row, col: (pos.col + 1) as usize }]
        } else {
            seq![]
        };
        let left = if pos.col > 0 {
            seq![Coord { row: pos.row, col: (pos.col - 1) as usize }]
        } else {
            seq![]
        };
        below + above + right + left
    }

    /// The neighbours of a cell are exactly the adjacent cells of the grid.
    pub proof fn lemma_neighbors(&self, pos: Coord, c: Coord)
        requires
            self.contains(pos),
        ensures
            self.spec_neighbors(pos).contains(c) <==> self.contains(c) && adjacent(pos, c),
            self.spec_neighbors(pos).len() <= 4,
    {
        let all = self.spec_neighbors(pos);
        let below: int = if pos.row + 1 < self.rows() { 1 } else { 0 };
        let above: int = if pos.row > 0 { 1 } else { 0 };
        let right: int = if pos.col + 1 < self.cols() { 1 } else { 0 };
        if self.contains(c) && adjacent(pos, c) {
            if c.row == pos.row + 1 {
                assert(all[0] == c);
            } else if c.row + 1 == pos.row {
                assert(all[below] == c);
            } else if c.col == pos.col + 1 {
                assert(all[below + above] == c);
            } else {
                assert(all[below + above + right] == c);
            }
        }
    }

    /// The cells next to `pos` that lie inside the grid.
    pub fn neighbors(&self, pos: Coord) -> (cells: Vec<Coord>)
        requires
            self.wf(),
            self.contains(pos),
        ensures
            cells@ == self.spec_neighbors(pos),
    {
        let mut cells: Vec<Coord> = Vec::new();
        if pos.row + 1 < self.rows {
            cells.push(Coord { row: pos.row + 1, col: pos.col });
        }
        if pos.row > 0 {
            cells.push(Coord { row: pos.row - 1, col: pos.col });
        }
        if pos.col + 1 < self.cols {
            cells.push(Coord { row: pos.row, col: pos.col + 1 });
        }
        if pos.col > 0 {
            cells.push(Coord { row: pos.row, col: pos.col - 1 });
        }
        cells
    }
}

/// A cell inside a `rows` by `cols` table has a position below `rows * cols`.
pub proof fn lemma_index_in_range(row: int, col: int, rows: int, cols: int)
    requires
        0 <= row < rows,
        0 <= col < cols,
    ensures
        0 <= row * cols,
        0 <= row * cols + col < rows * cols,
{
    assert(0 <= row * cols && row * cols + col < rows * cols) by (nonlinear_arith)
        requires
            0 <= row < rows,
            0 <= col < cols,
    ;
}

/// Row and column are determined by the position in the table.
pub proof fn lemma_index_unique(r1: int, c1: int, r2: int, c2: int, cols: int)
    requires
        0 <= c1 < cols,
        0 <= c2 < cols,
        0 <= r1,
        0 <= r2,
        r1 * cols + c1 == r2 * cols + c2,
    ensures
        r1 == r2,
        c1 == c2,
{
    assert(r1 == r2) by (nonlinear_arith)
        requires
            0 <= c1 < cols,
            0 <= c2 < cols,
            0 <= r1,
            0 <= r2,
            r1 * cols + c1 == r2 * cols + c2,
    ;
}

} // verus!
