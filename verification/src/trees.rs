//! Trees in a line: which can be seen from outside, and how far one sees
//! from a tree.
use vstd::prelude::*;
use vstd::string::StringSliceAdditionalSpecFns;
use crate::text::{is_digit, lines, rows as byte_rows, split_lines, Malformed, ZERO};

verus! {

/// Every tree before `index` is lower than the tree at `index`.
pub open spec fn clear_before(line: Seq<u32>, index: int) -> bool {
    forall|i: int| 0 <= i < index ==> line[i] < line[index]
}

/// Every tree after `index` is lower than the tree at `index`.
pub open spec fn clear_after(line: Seq<u32>, index: int) -> bool {
    forall|j: int| index < j < line.len() ==> line[j] < line[index]
}

/// How many trees one sees from the tree at `index` looking towards the
/// start of the line, from the tree `i` places before it on: every tree up
/// to and with the first that is as high as the tree at `index`.
pub open spec fn look_back(line: Seq<u32>, index: int, i: int) -> int
    decreases index - i + 1,
{
    if i < 1 || i > index {
        0
    } else if line[index - i] >= line[index] {
        1
    } else {
        1 + look_back(line, index, i + 1)
    }
}

/// How many trees one sees from the tree at `index` looking towards the
/// end of the line, from the tree at `j` on.
pub open spec fn look_ahead(line: Seq<u32>, index: int, j: int) -> int
    decreases line.len() - j,
{
    if j < 0 || j >= line.len() {
        0
    } else if line[j] >= line[index] {
        1
    } else {
        1 + look_ahead(line, index, j + 1)
    }
}

/// How many trees one sees looking towards the start of the line.
pub open spec fn seen_before(line: Seq<u32>, index: int) -> int {
    look_back(line, index, 1)
}

/// How many trees one sees looking towards the end of the line.
pub open spec fn seen_after(line: Seq<u32>, index: int) -> int {
    look_ahead(line, index, index + 1)
}

/// One sees no more trees than stand on that side.
pub proof fn lemma_look_back_bound(line: Seq<u32>, index: int, i: int)
    requires
        1 <= i <= index + 1,
    ensures
        0 <= look_back(line, index, i) <= index - i + 1,
    decreases index - i + 1,
{
    if i <= index && line[index - i] < line[index] {
        lemma_look_back_bound(line, index, i + 1);
    }
}

/// One sees no more trees than stand on that side.
pub proof fn lemma_look_ahead_bound(line: Seq<u32>, index: int, j: int)
    requires
        0 <= j <= line.len(),
    ensures
        0 <= look_ahead(line, index, j) <= line.len() - j,
    decreases line.len() - j,
{
    if j < line.len() && line[j] < line[index] {
        lemma_look_ahead_bound(line, index, j + 1);
    }
}

/// Whether the tree at `index` can be seen from one of the two ends of the
/// line: every tree on one side of it is lower.
pub fn is_visible(index: usize, line: &[u32]) -> (visible: bool)
    requires
        index < line@.len(),
    ensures
        visible == ((forall|i: int| 0 <= i < index ==> line@[i] < line@[index as int]) || (forall|
            j: int,
        | index < j < line@.len() ==> line@[j] < line@[index as int])),
{
    let mut before: bool = true;
    let mut i: usize = 0;
    while i < index
        invariant
            i <= index < line@.len(),
            before == (forall|k: int| 0 <= k < i ==> line@[k] < line@[index as int]),
        decreases index - i,
    {
        if line[i] >= line[index] {
            before = false;
        }
        i += 1;
    }
    if before {
        return true;
    }
    let mut after: bool = true;
    assert(line.len() == line@.len());
    let mut j: usize = index + 1;
    while j < line.len()
        invariant
            index < j <= line@.len(),
            after == (forall|k: int| index < k < j ==> line@[k] < line@[index as int]),
        decreases line@.len() - j,
    {
        if line[j] >= line[index] {
            after = false;
        }
        j += 1;
    }
    after
}

/// The scenic score of the tree at `index` along one line: the number of
/// trees seen towards the start times the number seen towards the end.
pub fn scenic(index: usize, line: &[u32]) -> (score: u32)
    requires
        index < line@.len(),
        index * (line@.len() - 1 - index) <= u32::MAX,
    ensures
        score == seen_before(line@, index as int) * seen_after(line@, index as int),
{
    let mut begin_score: usize = 0;
    let mut i: usize = 1;
    let mut open: bool = true;
    while open && i <= index
        invariant
            index < line@.len(),
            1 <= i <= index + 1,
            open ==> begin_score == i - 1,
            !open ==> begin_score == i && i <= index,
            open ==> seen_before(line@, index as int) == begin_score + look_back(
                line@,
                index as int,
                i as int,
            ),
            !open ==> seen_before(line@, index as int) == begin_score,
        decreases index + 1 - i + (if open { 1int } else { 0int }),
    {
        begin_score += 1;
        if line[index - i] >= line[index] {
            open = false;
        } else {
            i += 1;
        }
    }
    let mut end_score: usize = 0;
    assert(line.len() == line@.len());
    let mut j: usize = index + 1;
    open = true;
    while open && j < line.len()
        invariant
            index < j <= line@.len(),
            open ==> end_score == j - index - 1,
            !open ==> end_score == j - index && j < line@.len(),
            open ==> seen_after(line@, index as int) == end_score + look_ahead(
                line@,
                index as int,
                j as int,
            ),
            !open ==> seen_after(line@, index as int) == end_score,
        decreases line@.len() - j + (if open { 1int } else { 0int }),
    {
        end_score += 1;
        if line[j] >= line[index] {
            open = false;
        } else {
            j += 1;
        }
    }
    proof {
        assert(begin_score <= index);
        assert(end_score <= line@.len() - 1 - index);
        assert(begin_score * end_score <= index * (line@.len() - 1 - index)) by (nonlinear_arith)
            requires
                0 <= begin_score <= index,
                0 <= end_score <= line@.len() - 1 - index,
        ;
    }
    (begin_score * end_score) as u32
}

/// The heights of the trees, row by row and column by column.
pub struct Puzzle {
    pub rows: Vec<Vec<u32>>,
    pub columns: Vec<Vec<u32>>,
}

/// The lines of trees as rows of heights.
pub open spec fn grid(lines: Seq<Vec<u32>>) -> Seq<Seq<u32>> {
    Seq::new(lines.len(), |i: int| lines[i]@)
}

/// Whether a tree stands in row `r` and column `c`.
pub open spec fn stands(rows: Seq<Seq<u32>>, r: int, c: int) -> bool {
    0 <= r < rows.len() && 0 <= c < rows[r].len()
}

/// Every tree of every row has a column, and the column reaches its row.
pub open spec fn fit(rows: Seq<Seq<u32>>, columns: Seq<Seq<u32>>) -> bool {
    forall|r: int, c: int| #[trigger]
        stands(rows, r, c) ==> c < columns.len() && r < columns[c].len()
}

/// Whether the tree in row `r` and column `c` can be seen from an edge of
/// the forest, along its row or along its column.
pub open spec fn visible(rows: Seq<Seq<u32>>, columns: Seq<Seq<u32>>, r: int, c: int) -> bool {
    clear_before(rows[r], c) || clear_after(rows[r], c) || clear_before(columns[c], r)
        || clear_after(columns[c], r)
}

/// How many of the first `upto` trees of row `r` can be seen.
pub open spec fn visible_in_row(
    rows: Seq<Seq<u32>>,
    columns: Seq<Seq<u32>>,
    r: int,
    upto: int,
) -> int
    decreases upto,
{
    if upto <= 0 {
        0
    } else if visible(rows, columns, r, upto - 1) {
        visible_in_row(rows, columns, r, upto - 1) + 1
    } else {
        visible_in_row(rows, columns, r, upto - 1)
    }
}

/// How many trees of the first `upto` rows can be seen.
pub open spec fn visible_trees(rows: Seq<Seq<u32>>, columns: Seq<Seq<u32>>, upto: int) -> int
    decreases upto,
{
    if upto <= 0 {
        0
    } else {
        visible_trees(rows, columns, upto - 1) + visible_in_row(
            rows,
            columns,
            upto - 1,
            rows[upto - 1].len() as int,
        )
    }
}

/// The counts of visible trees are not negative and grow with every tree
/// counted.
pub proof fn lemma_visible_in_row(
    rows: Seq<Seq<u32>>,
    columns: Seq<Seq<u32>>,
    r: int,
    upto: int,
    more: int,
)
    requires
        0 <= upto <= more,
    ensures
        0 <= visible_in_row(rows, columns, r, upto) <= visible_in_row(rows, columns, r, more),
    decreases more,
{
    if upto < more {
        lemma_visible_in_row(rows, columns, r, upto, more - 1);
    } else if upto > 0 {
        lemma_visible_in_row(rows, columns, r, upto - 1, upto - 1);
    }
}

/// The counts of visible trees grow with every row counted.
pub proof fn lemma_visible_trees(rows: Seq<Seq<u32>>, columns: Seq<Seq<u32>>, upto: int, more: int)
    requires
        0 <= upto <= more,
    ensures
        0 <= visible_trees(rows, columns, upto) <= visible_trees(rows, columns, more),
    decreases more,
{
    if upto < more {
        lemma_visible_trees(rows, columns, upto, more - 1);
        lemma_visible_in_row(rows, columns, more - 1, 0, rows[more - 1].len() as int);
    } else if upto > 0 {
        lemma_visible_trees(rows, columns, upto - 1, upto - 1);
        lemma_visible_in_row(rows, columns, upto - 1, 0, rows[upto - 1].len() as int);
    }
}

/// The scenic score of the tree in row `r` and column `c`: its score along
/// its row times its score along its column.
pub open spec fn score(rows: Seq<Seq<u32>>, columns: Seq<Seq<u32>>, r: int, c: int) -> int {
    (seen_before(rows[r], c) * seen_after(rows[r], c)) * (seen_before(columns[c], r) * seen_after(
        columns[c],
        r,
    ))
}

/// The best score among the trees of row `r` from the second up to the one
/// before `upto`.
pub open spec fn best_in_row(rows: Seq<Seq<u32>>, columns: Seq<Seq<u32>>, r: int, upto: int) -> int
    decreases upto,
{
    if upto <= 1 {
        0
    } else if score(rows, columns, r, upto - 1) > best_in_row(rows, columns, r, upto - 1) {
        score(rows, columns, r, upto - 1)
    } else {
        best_in_row(rows, columns, r, upto - 1)
    }
}

/// The best score among the inner trees of the rows from the second up to
/// the one before `upto`.  The trees at the edges are left out.
pub open spec fn best_score(rows: Seq<Seq<u32>>, columns: Seq<Seq<u32>>, upto: int) -> int
    decreases upto,
{
    if upto <= 1 {
        0
    } else {
        let before = best_score(rows, columns, upto - 1);
        let here = best_in_row(rows, columns, upto - 1, rows[upto - 1].len() - 1);
        if here > before {
            here
        } else {
            before
        }
    }
}

/// Every inner row has a tree, and every score of an inner tree, along a
/// line and in all, fits into 32 bits.
pub open spec fn scores_fit(rows: Seq<Seq<u32>>, columns: Seq<Seq<u32>>) -> bool {
    &&& rows.len() >= 1
    &&& forall|r: int| 1 <= r < rows.len() - 1 ==> (#[trigger] rows[r]).len() >= 1
    &&& forall|r: int, c: int|
        1 <= r < rows.len() - 1 && 1 <= c < rows[r].len() - 1 ==> {
            &&& c * (rows[r].len() - 1 - c) <= u32::MAX
            &&& r * (columns[c].len() - 1 - r) <= u32::MAX
            &&& 0 <= #[trigger] score(rows, columns, r, c) <= u32::MAX
        }
}

/// The forest that the lines stand for: at least one line, all lines of
/// one length of at least one, and a digit for the height of each tree.
pub open spec fn is_forest(lines: Seq<Seq<u8>>) -> bool {
    &&& lines.len() >= 1
    &&& lines[0].len() >= 1
    &&& forall|r: int| 0 <= r < lines.len() ==> (#[trigger] lines[r]).len() == lines[0].len()
    &&& forall|r: int, c: int|
        0 <= r < lines.len() && 0 <= c < lines[r].len() ==> is_digit(#[trigger] lines[r][c])
}

/// The puzzle holds the forest of the lines: its rows are the lines, its
/// columns the same heights read downwards.
pub open spec fn holds(lines: Seq<Seq<u8>>, rows: Seq<Seq<u32>>, columns: Seq<Seq<u32>>) -> bool {
    &&& rows.len() == lines.len()
    &&& columns.len() == lines[0].len()
    &&& forall|r: int| 0 <= r < rows.len() ==> (#[trigger] rows[r]).len() == lines[0].len()
    &&& forall|c: int| 0 <= c < columns.len() ==> (#[trigger] columns[c]).len() == lines.len()
    &&& forall|r: int, c: int|
        0 <= r < lines.len() && 0 <= c < lines[0].len() ==> rows[r][c] == #[trigger] lines[r][c]
            - ZERO && columns[c][r] == rows[r][c]
}

impl Puzzle {
    /// No tree yet.
    pub fn new() -> (p: Puzzle)
        ensures
            p.rows@.len() == 0,
            p.columns@.len() == 0,
    {
        Puzzle { rows: Vec::new(), columns: Vec::new() }
    }

    /// Reads the forest from its text, one row of digits on each line.  A
    /// text that holds anything else is refused and leaves the puzzle as it
    /// was.
    pub fn configure(&mut self, text: &str) -> (done: Result<(), Malformed>)
        ensures
            match done {
                Ok(_) => is_forest(lines(text.spec_bytes())) && holds(
                    lines(text.spec_bytes()),
                    grid(final(self).rows@),
                    grid(final(self).columns@),
                ) && fit(grid(final(self).rows@), grid(final(self).columns@)),
                Err(e) => !is_forest(lines(text.spec_bytes())) && *final(self) == *old(self) && e
                    == Malformed::InvalidFormat,
            },
    {
        let found = split_lines(text.as_bytes());
        let ghost all = lines(text.spec_bytes());
        let height: usize = found.len();
        assert(all[0] == found@[0]@);
        let width: usize = found[0].len();
        if width == 0 {
            return Err(Malformed::InvalidFormat);
        }
        let mut rows: Vec<Vec<u32>> = Vec::new();
        let mut r: usize = 0;
        while r < height
            invariant
                r <= height == found@.len(),
                height == all.len(),
                byte_rows(found@) == all,
                all == lines(text.spec_bytes()),
                *self == *old(self),
                width == all[0].len(),
                width >= 1,
                rows@.len() == r,
                forall|k: int| 0 <= k < r ==> (#[trigger] all[k]).len() == width,
                forall|k: int| 0 <= k < r ==> (#[trigger] rows@[k])@.len() == width,
                forall|k: int, c: int|
                    0 <= k < r && 0 <= c < width ==> is_digit(#[trigger] all[k][c]) && rows@[k]@[c]
                        == all[k][c] - ZERO,
            decreases height - r,
        {
            let line = &found[r];
            assert(all[r as int] == line@);
            if line.len() != width {
                return Err(Malformed::InvalidFormat);
            }
            let mut row: Vec<u32> = Vec::new();
            let mut c: usize = 0;
            while c < width
                invariant
                    c <= width == line@.len(),
                    r < height == all.len(),
                    all == lines(text.spec_bytes()),
                    *self == *old(self),
                    all[r as int] == line@,
                    row@.len() == c,
                    forall|k: int|
                        0 <= k < c ==> is_digit(#[trigger] line@[k]) && row@[k] == line@[k] - ZERO,
                decreases width - c,
            {
                let b: u8 = line[c];
                if b < 48 || b > 57 {
                    assert(!is_digit(all[r as int][c as int]));
                    return Err(Malformed::InvalidFormat);
                }
                row.push((b - 48) as u32);
                c += 1;
            }
            rows.push(row);
            r += 1;
        }
        let mut columns: Vec<Vec<u32>> = Vec::new();
        let mut c: usize = 0;
        while c < width
            invariant
                c <= width,
                height == rows@.len(),
                forall|k: int| 0 <= k < height ==> (#[trigger] rows@[k])@.len() == width,
                columns@.len() == c,
                forall|k: int| 0 <= k < c ==> (#[trigger] columns@[k])@.len() == height,
                forall|k: int, j: int|
                    0 <= k < c && 0 <= j < height ==> (#[trigger] columns@[k])@[j] == (
                    #[trigger] rows@[j])@[k],
            decreases width - c,
        {
            let mut column: Vec<u32> = Vec::new();
            let mut j: usize = 0;
            while j < height
                invariant
                    j <= height == rows@.len(),
                    c < width,
                    forall|k: int| 0 <= k < height ==> (#[trigger] rows@[k])@.len() == width,
                    column@.len() == j,
                    forall|k: int| 0 <= k < j ==> column@[k] == (#[trigger] rows@[k])@[c as int],
                decreases height - j,
            {
                column.push(rows[j][c]);
                j += 1;
            }
            columns.push(column);
            c += 1;
        }
        proof {
            let g = grid(rows@);
            let h = grid(columns@);
            assert forall|a: int, b: int| 0 <= a < all.len() && 0 <= b < all[0].len()
                implies g[a][b]
                == #[trigger] all[a][b] - ZERO && h[b][a] == g[a][b] by {
                assert(rows@[a]@[b] == all[a][b] - ZERO);
                assert(columns@[b]@[a] == rows@[a]@[b]);
            }
            assert forall|a: int| 0 <= a < g.len()
                implies (#[trigger] g[a]).len() == all[0].len() by {
                assert(rows@[a]@.len() == width);
            }
            assert forall|b: int| 0 <= b < h.len() implies (#[trigger] h[b]).len() == all.len() by {
                assert(columns@[b]@.len() == height);
            }
            assert(holds(all, g, h));
            assert forall|a: int, b: int| #[trigger] stands(g, a, b) implies b < h.len() && a
                < h[b].len() by {
                assert(rows@[a]@.len() == width);
                assert(columns@[b]@.len() == height);
            }
        }
        self.rows = rows;
        self.columns = columns;
        Ok(())
    }

    /// The number of trees that can be seen from outside the forest.
    pub fn part1(&self) -> (count: usize)
        requires
            fit(grid(self.rows@), grid(self.columns@)),
            visible_trees(grid(self.rows@), grid(self.columns@), self.rows@.len() as int)
                <= usize::MAX,
        ensures
            count == visible_trees(grid(self.rows@), grid(self.columns@), self.rows@.len() as int),
    {
        let ghost rows = grid(self.rows@);
        let ghost columns = grid(self.columns@);
        let height: usize = self.rows.len();
        let mut count: usize = 0;
        let mut r: usize = 0;
        while r < height
            invariant
                r <= height == self.rows@.len(),
                rows == grid(self.rows@),
                columns == grid(self.columns@),
                fit(rows, columns),
                visible_trees(rows, columns, height as int) <= usize::MAX,
                count == visible_trees(rows, columns, r as int),
            decreases height - r,
        {
            let width: usize = self.rows[r].len();
            let ghost before = count;
            assert(rows[r as int] == self.rows@[r as int]@);
            proof {
                lemma_visible_trees(rows, columns, r + 1, height as int);
            }
            let mut c: usize = 0;
            while c < width
                invariant
                    c <= width,
                    r < height == self.rows@.len(),
                    rows == grid(self.rows@),
                    columns == grid(self.columns@),
                    width == rows[r as int].len(),
                    fit(rows, columns),
                    before + visible_in_row(rows, columns, r as int, width as int) <= usize::MAX,
                    count == before + visible_in_row(rows, columns, r as int, c as int),
                decreases width - c,
            {
                proof {
                    assert(rows[r as int] == self.rows@[r as int]@);
                    assert(stands(rows, r as int, c as int));
                    assert(columns[c as int] == self.columns@[c as int]@);
                    lemma_visible_in_row(rows, columns, r as int, c + 1, width as int);
                }
                if is_visible(c, self.rows[r].as_slice()) || is_visible(
                    r,
                    self.columns[c].as_slice(),
                ) {
                    count += 1;
                }
                c += 1;
            }
            r += 1;
        }
        count
    }

    /// The best scenic score of a tree that does not stand at an edge.
    pub fn part2(&self) -> (best: u32)
        requires
            fit(grid(self.rows@), grid(self.columns@)),
            scores_fit(grid(self.rows@), grid(self.columns@)),
        ensures
            best == best_score(
                grid(self.rows@),
                grid(self.columns@),
                self.rows@.len() - 1,
            ),
    {
        let ghost rows = grid(self.rows@);
        let ghost columns = grid(self.columns@);
        let height: usize = self.rows.len();
        let mut scenic_max: u32 = 0;
        let mut r: usize = 1;
        while r < height - 1
            invariant
                1 <= r,
                r <= height - 1 || r == 1,
                height == self.rows@.len(),
                height >= 1,
                rows == grid(self.rows@),
                columns == grid(self.columns@),
                fit(rows, columns),
                scores_fit(rows, columns),
                scenic_max == best_score(rows, columns, r as int),
            decreases height - r,
        {
            assert(rows[r as int] == self.rows@[r as int]@);
            assert(rows[r as int].len() >= 1);
            let width: usize = self.rows[r].len();
            let mut row_max: u32 = 0;
            let mut c: usize = 1;
            while c < width - 1
                invariant
                    1 <= c,
                    c <= width - 1 || c == 1,
                    1 <= r < height - 1,
                    height == self.rows@.len(),
                    rows == grid(self.rows@),
                    columns == grid(self.columns@),
                    width == rows[r as int].len(),
                    width >= 1,
                    fit(rows, columns),
                    scores_fit(rows, columns),
                    row_max == best_in_row(rows, columns, r as int, c as int),
                decreases width - c,
            {
                proof {
                    assert(rows[r as int] == self.rows@[r as int]@);
                    assert(stands(rows, r as int, c as int));
                    assert(columns[c as int] == self.columns@[c as int]@);
                    assert(0 <= score(rows, columns, r as int, c as int) <= u32::MAX);
                }
                let along_row: u32 = scenic(c, self.rows[r].as_slice());
                let along_column: u32 = scenic(r, self.columns[c].as_slice());
                let here: u32 = along_row * along_column;
                if here > row_max {
                    row_max = here;
                }
                c += 1;
            }
            if row_max > scenic_max {
                scenic_max = row_max;
            }
            r += 1;
        }
        scenic_max
    }
}

} // verus!
