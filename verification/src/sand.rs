//! Sand that falls through a cave, one cell at a time.
use vstd::prelude::*;
use vstd::string::StringSliceAdditionalSpecFns;
use crate::stacks::{copy_of, piles};
use crate::text::{
    digits_end, has_word, is_number, lemma_value_digits, lines, read_number, rows, skip_digits,
    split_lines, value_of, word_at, Malformed,
};

verus! {

/// Air, where sand can go.
pub const AIR: char = '.';

/// Rock.
pub const ROCK: char = '#';

/// Sand that has come to rest.
pub const SAND: char = 'o';

/// The column where sand enters the cave.
pub const SOURCE_X: usize = 500;

/// Whether the cell in column `x` of row `y` is free.
pub open spec fn free(cave: Seq<Vec<char>>, x: int, y: int) -> bool {
    cave[y]@[x] == AIR
}

/// None of the three cells below `pos` is free.  A position is a column and
/// a row.
pub open spec fn no_free_cell_below(cave: Seq<Vec<char>>, pos: (usize, usize)) -> bool {
    &&& !free(cave, pos.0 as int, pos.1 + 1)
    &&& !free(cave, pos.0 - 1, pos.1 + 1)
    &&& !free(cave, pos.0 + 1, pos.1 + 1)
}

/// The cell below `pos` to which sand falls: straight down, else down and
/// left, else down and right.
pub open spec fn first_free_below(cave: Seq<Vec<char>>, pos: (usize, usize)) -> (usize, usize) {
    if free(cave, pos.0 as int, pos.1 + 1) {
        (pos.0, (pos.1 + 1) as usize)
    } else if free(cave, pos.0 - 1, pos.1 + 1) {
        ((pos.0 - 1) as usize, (pos.1 + 1) as usize)
    } else {
        ((pos.0 + 1) as usize, (pos.1 + 1) as usize)
    }
}

/// `after` is `before` with sand at rest at `pos` and nothing else changed.
pub open spec fn with_sand(
    before: Seq<Vec<char>>,
    after: Seq<Vec<char>>,
    pos: (usize, usize),
) -> bool {
    &&& after.len() == before.len()
    &&& after[pos.1 as int]@ == before[pos.1 as int]@.update(pos.0 as int, SAND)
    &&& forall|y: int| 0 <= y < before.len() && y != pos.1 ==> #[trigger] after[y]@ == before[y]@
}

/// Lets a unit of sand fall by one cell.  Where none of the three cells
/// below it is free, the sand comes to rest where it is, a new unit enters
/// at the source, and the result is `true`.
pub fn move_sand(cave: &mut Vec<Vec<char>>, sand_position: &mut (usize, usize)) -> (blocked: bool)
    requires
        old(sand_position).1 + 1 < old(cave)@.len(),
        old(sand_position).0 >= 1,
        old(sand_position).0 + 1 < old(cave)@[old(sand_position).1 + 1]@.len(),
        old(sand_position).0 < old(cave)@[old(sand_position).1 as int]@.len(),
    ensures
        blocked == no_free_cell_below(old(cave)@, *old(sand_position)),
        !blocked ==> final(cave)@ == old(cave)@ && *final(sand_position) == first_free_below(
            old(cave)@,
            *old(sand_position),
        ),
        blocked ==> *final(sand_position) == (SOURCE_X, 0usize) && with_sand(
            old(cave)@,
            final(cave)@,
            *old(sand_position),
        ),
{
    let x: usize = sand_position.0;
    let y: usize = sand_position.1;
    let mut blocked: bool = false;
    assert(cave.len() == cave@.len());
    assert(cave[y + 1].len() == cave@[y + 1]@.len());
    if cave[y + 1][x] == AIR {
        *sand_position = (x, y + 1);
    } else if cave[y + 1][x - 1] == AIR {
        *sand_position = (x - 1, y + 1);
    } else if cave[y + 1][x + 1] == AIR {
        *sand_position = (x + 1, y + 1);
    } else {
        blocked = true;
        cave[y][x] = SAND;
        *sand_position = (SOURCE_X, 0);
    }
    blocked
}

/// The row below which sand falls for ever.
pub const ABYSS: usize = 999;

/// The cave, row by row, and the row of its floor.
pub struct Puzzle {
    pub cave: Vec<Vec<char>>,
    pub floor: usize,
}

/// Sand on its way: the cave, where the falling unit is, and how many
/// units have come to rest.
pub struct Fall {
    pub cave: Seq<Seq<char>>,
    pub pos: (usize, usize),
    pub rested: int,
}

/// Whether the falling unit can take a step: the three cells below it and
/// its own cell lie inside the cave, and one more unit can be counted.
pub open spec fn can_fall(fall: Fall) -> bool {
    &&& fall.pos.1 + 1 < fall.cave.len()
    &&& fall.pos.0 >= 1
    &&& fall.pos.0 + 1 < fall.cave[fall.pos.1 + 1].len()
    &&& fall.pos.0 < fall.cave[fall.pos.1 as int].len()
    &&& fall.rested < u32::MAX
}

/// Whether the cell in column `x` of row `y` is air.
pub open spec fn open_at(cave: Seq<Seq<char>>, x: int, y: int) -> bool {
    cave[y][x] == AIR
}

/// One step of the falling unit: straight down, else down and left, else
/// down and right; where none of the three cells is air it comes to rest
/// and the next unit enters at the source.
pub open spec fn fall_one(fall: Fall) -> Fall {
    let (x, y) = fall.pos;
    if open_at(fall.cave, x as int, y + 1) {
        Fall { cave: fall.cave, pos: (x, (y + 1) as usize), rested: fall.rested }
    } else if open_at(fall.cave, x - 1, y + 1) {
        Fall { cave: fall.cave, pos: ((x - 1) as usize, (y + 1) as usize), rested: fall.rested }
    } else if open_at(fall.cave, x + 1, y + 1) {
        Fall { cave: fall.cave, pos: ((x + 1) as usize, (y + 1) as usize), rested: fall.rested }
    } else {
        Fall {
            cave: fall.cave.update(y as int, fall.cave[y as int].update(x as int, SAND)),
            pos: (SOURCE_X, 0usize),
            rested: fall.rested + 1,
        }
    }
}

/// The fall after `steps` steps.
pub open spec fn fallen(start: Fall, steps: nat) -> Fall
    decreases steps,
{
    if steps == 0 {
        start
    } else {
        fall_one(fallen(start, (steps - 1) as nat))
    }
}

/// Whether the falling unit has reached the abyss.
pub open spec fn in_abyss(fall: Fall) -> bool {
    fall.pos.1 >= ABYSS
}

/// Whether sand has come to rest at the source.
pub open spec fn source_blocked(fall: Fall) -> bool {
    fall.cave.len() > 0 && fall.cave[0].len() > SOURCE_X && fall.cave[0][SOURCE_X as int] == SAND
}

/// After `steps` steps, and not before, the first unit reaches the abyss;
/// up to then every step can be taken.
pub open spec fn pours_out(start: Fall, steps: nat) -> bool {
    &&& in_abyss(fallen(start, steps))
    &&& forall|k: nat| k < steps ==> !in_abyss(#[trigger] fallen(start, k)) && can_fall(
        fallen(start, k),
    )
}

/// After `steps` steps, and not before, sand rests at the source; up to
/// then every step can be taken and the source lies inside the cave.
pub open spec fn fills_up(start: Fall, steps: nat) -> bool {
    &&& source_blocked(fallen(start, steps))
    &&& forall|k: nat|
        k < steps ==> {
            let fall = #[trigger] fallen(start, k);
            &&& !source_blocked(fall)
            &&& can_fall(fall)
            &&& fall.cave.len() > 0
            &&& fall.cave[0].len() > SOURCE_X
        }
}

/// The cave with rock all along the row of the floor, a thousand cells
/// wide.
pub open spec fn floored(cave: Seq<Seq<char>>, floor: int, upto: int) -> Seq<Seq<char>> {
    cave.update(
        floor,
        Seq::new(
            cave[floor].len(),
            |x: int|
                if x < upto {
                    ROCK
                } else {
                    cave[floor][x]
                },
        ),
    )
}

/// The fall when the first unit enters.
pub open spec fn first_unit(cave: Seq<Seq<char>>) -> Fall {
    Fall { cave, pos: (SOURCE_X, 0usize), rested: 0 }
}

/// The number of rows of a cave, and of the cells of each row.
pub const SIDE: usize = 1000;

/// A point of a path of rock: its column and its row.
pub type Point = (usize, usize);

/// The arrow between two points of a path, with a blank on each side.
pub open spec fn word_arrow() -> Seq<u8> {
    seq![32u8, 45u8, 62u8, 32u8]
}

/// The points that stand in a line from `from` on: a column, a comma and a
/// row for each, both inside the cave, and an arrow between two points.
pub open spec fn points_from(line: Seq<u8>, from: int) -> Option<Seq<Point>>
    decreases line.len() - from,
{
    let x_end = digits_end(line, from);
    let y_end = digits_end(line, x_end + 1);
    let xs = line.subrange(from, x_end);
    let ys = line.subrange(x_end + 1, y_end);
    if from < 0 || x_end < from || x_end >= line.len() || line[x_end] != 44 || y_end <= x_end
        || y_end > line.len() || !is_number(xs) || !is_number(ys) || value_of(xs) >= SIDE
        || value_of(ys) >= SIDE {
        None
    } else if y_end == line.len() {
        Some(seq![(value_of(xs) as usize, value_of(ys) as usize)])
    } else if word_at(line, y_end, word_arrow()) {
        match points_from(line, y_end + 4) {
            Some(rest) => Some(seq![(value_of(xs) as usize, value_of(ys) as usize)] + rest),
            None => None,
        }
    } else {
        None
    }
}

/// The paths of rock that the lines stand for, one on each line.
pub open spec fn paths_of(lines: Seq<Seq<u8>>) -> Option<Seq<Seq<Point>>> {
    if forall|i: int| 0 <= i < lines.len() ==> points_from(lines[i], 0) is Some {
        Some(Seq::new(lines.len(), |i: int| points_from(lines[i], 0)->0))
    } else {
        None
    }
}

/// The paths as rows of points.
pub open spec fn tracks(paths: Seq<Vec<Point>>) -> Seq<Seq<Point>> {
    Seq::new(paths.len(), |i: int| paths[i]@)
}

/// Whether `v` lies between `a` and `b`, whichever is smaller.
pub open spec fn between(a: usize, b: usize, v: int) -> bool {
    (a <= v <= b) || (b <= v <= a)
}

/// Whether rock lies at column `x` of row `y` for the step of a path from
/// `from` to `to`: down or up the column of `from`, and along its row.
pub open spec fn on_segment(from: Point, to: Point, x: int, y: int) -> bool {
    (x == from.0 && between(from.1, to.1, y)) || (y == from.1 && between(from.0, to.0, x))
}

/// Whether the step from point `b` of path `a` comes before step `i` of
/// path `l`.
pub open spec fn step_before(paths: Seq<Seq<Point>>, l: int, i: int, a: int, b: int) -> bool {
    &&& 0 <= a < paths.len()
    &&& 0 <= b
    &&& b + 1 < paths[a].len()
    &&& (a < l || (a == l && b < i))
}

/// Whether one of the steps before step `i` of path `l` lays rock at
/// column `x` of row `y`.
pub open spec fn covered_before(paths: Seq<Seq<Point>>, l: int, i: int, x: int, y: int) -> bool {
    exists|a: int, b: int| #[trigger]
        step_before(paths, l, i, a, b) && on_segment(paths[a][b], paths[a][b + 1], x, y)
}

/// The cave is a square of cells that hold rock where one of the steps
/// before step `i` of path `l` lays it, and air elsewhere.
pub open spec fn rocks_are(cave: Seq<Seq<char>>, paths: Seq<Seq<Point>>, l: int, i: int) -> bool {
    &&& is_square(cave)
    &&& forall|x: int, y: int|
        0 <= x < SIDE && 0 <= y < SIDE ==> #[trigger] cave[y][x] == (if covered_before(
            paths,
            l,
            i,
            x,
            y,
        ) {
            ROCK
        } else {
            AIR
        })
}

/// The cave has `SIDE` rows of `SIDE` cells.
pub open spec fn is_square(cave: Seq<Seq<char>>) -> bool {
    &&& cave.len() == SIDE
    &&& forall|y: int| 0 <= y < SIDE ==> (#[trigger] cave[y]).len() == SIDE
}

/// Every point of every path lies inside the cave.
pub open spec fn inside(paths: Seq<Seq<Point>>) -> bool {
    forall|a: int, b: int|
        0 <= a < paths.len() && 0 <= b < paths[a].len() ==> (#[trigger] paths[a][b]).0 < SIDE
            && paths[a][b].1 < SIDE
}

/// The floor lies two rows below the lowest point of the paths, and two
/// rows down where there is no point.
pub open spec fn is_floor(paths: Seq<Seq<Point>>, floor: int) -> bool {
    &&& floor >= 2
    &&& forall|a: int, b: int|
        0 <= a < paths.len() && 0 <= b < paths[a].len() ==> (#[trigger] paths[a][b]).1 + 2
            <= floor
    &&& floor == 2 || exists|a: int, b: int|
        0 <= a < paths.len() && 0 <= b < paths[a].len() && (#[trigger] paths[a][b]).1 + 2
            == floor
}

/// What one more step adds to the rock.
pub proof fn lemma_step_covers(paths: Seq<Seq<Point>>, l: int, i: int, x: int, y: int)
    requires
        0 <= l < paths.len(),
        0 <= i,
        i + 1 < paths[l].len(),
    ensures
        covered_before(paths, l, i + 1, x, y) == (covered_before(paths, l, i, x, y) || on_segment(
            paths[l][i],
            paths[l][i + 1],
            x,
            y,
        )),
{
    if covered_before(paths, l, i + 1, x, y) {
        let (a, b) = choose|a: int, b: int| #[trigger]
            step_before(paths, l, i + 1, a, b) && on_segment(paths[a][b], paths[a][b + 1], x, y);
        if !(a == l && b == i) {
            assert(step_before(paths, l, i, a, b));
        }
    }
    if covered_before(paths, l, i, x, y) {
        let (a, b) = choose|a: int, b: int| #[trigger]
            step_before(paths, l, i, a, b) && on_segment(paths[a][b], paths[a][b + 1], x, y);
        assert(step_before(paths, l, i + 1, a, b));
    }
    if on_segment(paths[l][i], paths[l][i + 1], x, y) {
        assert(step_before(paths, l, i + 1, l, i));
    }
}

/// Behind the last step of a path the rock is what it is before the first
/// step of the next path.
pub proof fn lemma_path_done(paths: Seq<Seq<Point>>, l: int, i: int, x: int, y: int)
    requires
        0 <= l < paths.len(),
        0 <= i,
        i + 1 >= paths[l].len(),
    ensures
        covered_before(paths, l, i, x, y) == covered_before(paths, l + 1, 0, x, y),
{
    if covered_before(paths, l, i, x, y) {
        let (a, b) = choose|a: int, b: int| #[trigger]
            step_before(paths, l, i, a, b) && on_segment(paths[a][b], paths[a][b + 1], x, y);
        assert(step_before(paths, l + 1, 0, a, b));
    }
    if covered_before(paths, l + 1, 0, x, y) {
        let (a, b) = choose|a: int, b: int| #[trigger]
            step_before(paths, l + 1, 0, a, b) && on_segment(paths[a][b], paths[a][b + 1], x, y);
        assert(step_before(paths, l, i, a, b));
    }
}

/// Reads the points of one path.
pub fn read_points(line: &Vec<u8>) -> (points: Option<Vec<Point>>)
    ensures
        match points {
            Some(points) => points_from(line@, 0) == Some(points@),
            None => points_from(line@, 0) is None,
        },
{
    let n: usize = line.len();
    let arrow: [u8; 4] = [32, 45, 62, 32];
    assert(arrow@ =~= word_arrow());
    let mut points: Vec<Point> = Vec::new();
    let mut at: usize = 0;
    loop
        invariant
            at <= n == line@.len(),
            arrow@ == word_arrow(),
            match points_from(line@, at as int) {
                Some(rest) => points_from(line@, 0) == Some(points@ + rest),
                None => points_from(line@, 0) is None,
            },
        decreases n - at,
    {
        let x_end: usize = skip_digits(line, at);
        if x_end >= n || line[x_end] != 44 {
            return None;
        }
        let y_end: usize = skip_digits(line, x_end + 1);
        let x: usize = match read_number(line, at, x_end) {
            Some(x) => x,
            None => {
                return None;
            },
        };
        let y: usize = match read_number(line, x_end + 1, y_end) {
            Some(y) => y,
            None => {
                return None;
            },
        };
        if x >= SIDE || y >= SIDE {
            return None;
        }
        let ghost before = points@;
        points.push((x, y));
        if y_end == n {
            assert(before + seq![(x, y)] =~= points@);
            return Some(points);
        }
        if !has_word(line, y_end, arrow.as_slice()) {
            return None;
        }
        proof {
            match points_from(line@, y_end + 4) {
                Some(rest) => {
                    assert(before + (seq![(x, y)] + rest) =~= points@ + rest);
                },
                None => {},
            }
        }
        at = y_end + 4;
    }
}

/// Lays rock in one cell of the cave.
pub fn set_rock(cave: &mut Vec<Vec<char>>, x: usize, y: usize)
    requires
        is_square(piles(old(cave)@)),
        x < SIDE,
        y < SIDE,
    ensures
        piles(final(cave)@) == piles(old(cave)@).update(
            y as int,
            piles(old(cave)@)[y as int].update(x as int, ROCK),
        ),
        is_square(piles(final(cave)@)),
{
    let ghost before = cave@;
    proof {
        assert(piles(before).len() == before.len());
        assert(piles(before)[y as int] == before[y as int]@);
    }
    cave[y][x] = ROCK;
    proof {
        let after = piles(cave@);
        let wanted = piles(before).update(y as int, piles(before)[y as int].update(x as int, ROCK));
        assert forall|k: int| 0 <= k < after.len() implies after[k] == wanted[k] by {
            assert(after[k] == cave@[k]@);
            assert(piles(before)[k] == before[k]@);
        }
        assert(after =~= wanted);
        assert forall|k: int| 0 <= k < SIDE implies (#[trigger] after[k]).len() == SIDE by {
            assert(piles(before)[k].len() == SIDE);
        }
    }
}

/// Lays the rock of one step of a path: down or up the column of `from`
/// as far as the row of `to`, and along the row of `from` as far as the
/// column of `to`.
pub fn draw_step(cave: &mut Vec<Vec<char>>, from: Point, to: Point)
    requires
        is_square(piles(old(cave)@)),
        from.0 < SIDE && from.1 < SIDE && to.0 < SIDE && to.1 < SIDE,
    ensures
        is_square(piles(final(cave)@)),
        forall|x: int, y: int|
            0 <= x < SIDE && 0 <= y < SIDE ==> #[trigger] piles(final(cave)@)[y][x] == (
            if on_segment(from, to, x, y) {
                ROCK
            } else {
                piles(old(cave)@)[y][x]
            }),
{
    let ghost before = piles(cave@);
    let (low_y, high_y) = if from.1 <= to.1 {
        (from.1, to.1)
    } else {
        (to.1, from.1)
    };
    let (low_x, high_x) = if from.0 <= to.0 {
        (from.0, to.0)
    } else {
        (to.0, from.0)
    };
    let mut i: usize = low_y;
    while i <= high_y
        invariant
            low_y <= i <= high_y + 1,
            high_y < SIDE,
            from.0 < SIDE,
            is_square(before),
            is_square(piles(cave@)),
            forall|x: int, y: int|
                0 <= x < SIDE && 0 <= y < SIDE ==> #[trigger] piles(cave@)[y][x] == (if x
                    == from.0 && low_y <= y < i {
                    ROCK
                } else {
                    before[y][x]
                }),
        decreases high_y + 1 - i,
    {
        set_rock(cave, from.0, i);
        i += 1;
    }
    let ghost middle = piles(cave@);
    let mut j: usize = low_x;
    while j <= high_x
        invariant
            low_x <= j <= high_x + 1,
            high_x < SIDE,
            from.1 < SIDE,
            is_square(middle),
            is_square(piles(cave@)),
            forall|x: int, y: int|
                0 <= x < SIDE && 0 <= y < SIDE ==> #[trigger] piles(cave@)[y][x] == (if y
                    == from.1 && low_x <= x < j {
                    ROCK
                } else {
                    middle[y][x]
                }),
        decreases high_x + 1 - j,
    {
        set_rock(cave, j, from.1);
        j += 1;
    }
    proof {
        assert forall|x: int, y: int| 0 <= x < SIDE && 0 <= y < SIDE implies #[trigger] piles(
            cave@,
        )[y][x] == (if on_segment(from, to, x, y) {
            ROCK
        } else {
            before[y][x]
        }) by {
            assert(middle[y][x] == (if x == from.0 && low_y <= y < high_y + 1 {
                ROCK
            } else {
                before[y][x]
            }));
        }
    }
}

/// A cave of air.
pub fn empty_cave() -> (cave: Vec<Vec<char>>)
    ensures
        is_square(piles(cave@)),
        forall|x: int, y: int|
            0 <= x < SIDE && 0 <= y < SIDE ==> #[trigger] piles(cave@)[y][x] == AIR,
{
    let mut cave: Vec<Vec<char>> = Vec::new();
    let mut y: usize = 0;
    while y < SIDE
        invariant
            y <= SIDE,
            cave@.len() == y,
            forall|k: int| 0 <= k < y ==> (#[trigger] cave@[k])@.len() == SIDE,
            forall|k: int, x: int|
                0 <= k < y && 0 <= x < SIDE ==> #[trigger] cave@[k]@[x] == AIR,
        decreases SIDE - y,
    {
        let mut row: Vec<char> = Vec::new();
        let mut x: usize = 0;
        while x < SIDE
            invariant
                x <= SIDE,
                row@.len() == x,
                forall|k: int| 0 <= k < x ==> row@[k] == AIR,
            decreases SIDE - x,
        {
            row.push(AIR);
            x += 1;
        }
        cave.push(row);
        y += 1;
    }
    proof {
        let view = piles(cave@);
        assert forall|k: int| 0 <= k < SIDE implies (#[trigger] view[k]).len() == SIDE by {
            assert(view[k] == cave@[k]@);
        }
        assert forall|x: int, k: int| 0 <= x < SIDE && 0 <= k < SIDE implies #[trigger] view[k][x]
            == AIR by {
            assert(view[k] == cave@[k]@);
        }
    }
    cave
}

impl Puzzle {
    /// Reads the cave from the paths of its rock, one path on each line.  A
    /// text that holds anything else, or a point outside the cave, is
    /// refused and leaves the puzzle as it was.
    pub fn configure(&mut self, text: &str) -> (done: Result<(), Malformed>)
        ensures
            match done {
                Ok(_) => {
                    &&& paths_of(lines(text.spec_bytes())) matches Some(paths)
                    &&& rocks_are(piles(final(self).cave@), paths, paths.len() as int, 0)
                    &&& is_floor(paths, final(self).floor as int)
                },
                Err(e) => paths_of(lines(text.spec_bytes())) is None && *final(self) == *old(self)
                    && e == Malformed::InvalidFormat,
            },
    {
        let found = split_lines(text.as_bytes());
        let ghost all = lines(text.spec_bytes());
        let mut paths: Vec<Vec<Point>> = Vec::new();
        let mut k: usize = 0;
        while k < found.len()
            invariant
                k <= found@.len(),
                rows(found@) == all,
                all == lines(text.spec_bytes()),
                *self == *old(self),
                paths@.len() == k,
                forall|j: int| 0 <= j < k
                    ==> points_from(all[j], 0) == Some((#[trigger] paths@[j])@),
            decreases found@.len() - k,
        {
            assert(all[k as int] == found@[k as int]@);
            match read_points(&found[k]) {
                Some(points) => {
                    paths.push(points);
                },
                None => {
                    assert(points_from(all[k as int], 0) is None);
                    return Err(Malformed::InvalidFormat);
                },
            }
            k += 1;
        }
        let ghost ways = tracks(paths@);
        proof {
            assert forall|j: int| 0 <= j < all.len() implies points_from(all[j], 0) is Some by {
                assert(points_from(all[j], 0) == Some(paths@[j]@));
            }
            assert forall|j: int| 0 <= j < all.len()
                implies ways[j] == points_from(all[j], 0)->0 by {
                assert(points_from(all[j], 0) == Some(paths@[j]@));
            }
            assert(ways =~= paths_of(all)->0);
            assert forall|a: int, b: int| 0 <= a < ways.len() && 0 <= b < ways[a].len() implies (
            #[trigger] ways[a][b]).0 < SIDE && ways[a][b].1 < SIDE by {
                assert(points_from(all[a], 0) == Some(ways[a]));
                lemma_points_inside(all[a], 0, b);
            }
        }
        let mut cave = empty_cave();
        let mut floor: usize = 2;
        let mut l: usize = 0;
        proof {
            assert forall|x: int, y: int| !covered_before(ways, 0, 0, x, y) by {
                if covered_before(ways, 0, 0, x, y) {
                    let (a, b) = choose|a: int, b: int| #[trigger]
                        step_before(ways, 0, 0, a, b) && on_segment(
                            ways[a][b],
                            ways[a][b + 1],
                            x,
                            y,
                        );
                    assert(step_before(ways, 0, 0, a, b));
                }
            }
        }
        while l < paths.len()
            invariant
                l <= paths@.len(),
                ways == tracks(paths@),
                inside(ways),
                rocks_are(piles(cave@), ways, l as int, 0),
                2 <= floor <= SIDE + 1,
                forall|a: int, b: int|
                    0 <= a < l && 0 <= b < ways[a].len() ==> (#[trigger] ways[a][b]).1 + 2
                        <= floor,
                floor == 2 || exists|a: int, b: int|
                    0 <= a < l && 0 <= b < ways[a].len() && (#[trigger] ways[a][b]).1 + 2
                        == floor,
            decreases paths@.len() - l,
        {
            let path = &paths[l];
            assert(ways[l as int] == path@);
            let mut i: usize = 0;
            while i < path.len()
                invariant
                    i <= path@.len(),
                    l < paths@.len(),
                    ways == tracks(paths@),
                    ways[l as int] == path@,
                    inside(ways),
                    rocks_are(piles(cave@), ways, l as int, if i == 0 {
                        0int
                    } else {
                        i - 1
                    }),
                    2 <= floor <= SIDE + 1,
                    forall|a: int, b: int|
                        (0 <= a < l && 0 <= b < ways[a].len()) || (a == l && 0 <= b < i) ==> (
                        #[trigger] ways[a][b]).1 + 2 <= floor,
                    floor == 2 || exists|a: int, b: int|
                        ((0 <= a < l && 0 <= b < ways[a].len()) || (a == l && 0 <= b < i)) && (
                        #[trigger] ways[a][b]).1 + 2 == floor,
                decreases path@.len() - i,
            {
                let to: Point = path[i];
                assert(ways[l as int][i as int] == to);
                assert(to.0 < SIDE && to.1 < SIDE);
                if i > 0 {
                    let from: Point = path[i - 1];
                    assert(ways[l as int][i - 1] == from);
                    assert(from.0 < SIDE && from.1 < SIDE);
                    let ghost before = piles(cave@);
                    draw_step(&mut cave, from, to);
                    proof {
                        let after = piles(cave@);
                        assert forall|x: int, y: int|
                            0 <= x < SIDE && 0 <= y < SIDE implies #[trigger] after[y][x] == (
                        if covered_before(ways, l as int, i as int, x, y) {
                            ROCK
                        } else {
                            AIR
                        }) by {
                            lemma_step_covers(ways, l as int, i - 1, x, y);
                            assert(before[y][x] == (if covered_before(
                                ways,
                                l as int,
                                i - 1,
                                x,
                                y,
                            ) {
                                ROCK
                            } else {
                                AIR
                            }));
                        }
                    }
                }
                if to.1 + 2 > floor {
                    floor = to.1 + 2;
                }
                i += 1;
            }
            proof {
                let last: int = if i == 0 {
                    0int
                } else {
                    i - 1
                };
                let now = piles(cave@);
                assert forall|x: int, y: int|
                    0 <= x < SIDE && 0 <= y < SIDE implies #[trigger] now[y][x] == (
                if covered_before(ways, l + 1, 0, x, y) {
                    ROCK
                } else {
                    AIR
                }) by {
                    lemma_path_done(ways, l as int, last, x, y);
                }
            }
            l += 1;
        }
        self.cave = cave;
        self.floor = floor;
        Ok(())
    }

    /// A cave without rows, its floor two rows down.
    pub fn new() -> (p: Puzzle)
        ensures
            p.cave@.len() == 0,
            p.floor == 2,
    {
        Puzzle { cave: Vec::new(), floor: 2 }
    }

    /// The number of units of sand that come to rest before the first
    /// falls into the abyss.
    pub fn part1(&self) -> (count: u32)
        requires
            exists|steps: nat| pours_out(first_unit(piles(self.cave@)), steps),
        ensures
            forall|steps: nat| #[trigger]
                pours_out(first_unit(piles(self.cave@)), steps) ==> count == fallen(
                    first_unit(piles(self.cave@)),
                    steps,
                ).rested,
    {
        let ghost start = first_unit(piles(self.cave@));
        let ghost n = choose|steps: nat| pours_out(start, steps);
        let mut cave: Vec<Vec<char>> = copy_of(&self.cave);
        let mut sand_count: u32 = 0;
        let mut sand_position: (usize, usize) = (SOURCE_X, 0);
        let ghost mut k: nat = 0;
        while sand_position.1 < ABYSS
            invariant
                k <= n,
                pours_out(start, n),
                fallen(start, k) == (Fall {
                    cave: piles(cave@),
                    pos: sand_position,
                    rested: sand_count as int,
                }),
            decreases n - k,
        {
            let ghost fall = fallen(start, k);
            let ghost before = cave@;
            assert(!in_abyss(fall));
            assert(k < n);
            assert(can_fall(fall));
            proof {
                assert(piles(before)[sand_position.1 + 1] == before[sand_position.1 + 1]@);
                assert(piles(before)[sand_position.1 as int] == before[sand_position.1 as int]@);
            }
            if move_sand(&mut cave, &mut sand_position) {
                sand_count = sand_count + 1;
            }
            proof {
                assert(fallen(start, (k + 1) as nat) == fall_one(fall));
                assert(piles(cave@) =~= fall_one(fall).cave);
                k = (k + 1) as nat;
            }
        }
        proof {
            assert(in_abyss(fallen(start, k)));
            assert(k == n);
            assert forall|steps: nat| #[trigger] pours_out(start, steps) implies sand_count
                == fallen(start, steps).rested by {
                if steps < n {
                    assert(!in_abyss(fallen(start, steps)));
                } else if n < steps {
                    assert(!in_abyss(fallen(start, n)));
                }
            }
        }
        sand_count
    }

    /// The number of units of sand that come to rest, with rock all along
    /// the floor, until one rests at the source.
    pub fn part2(&self) -> (count: u32)
        requires
            self.floor < self.cave@.len(),
            self.cave@[self.floor as int]@.len() >= 1000,
            exists|steps: nat|
                fills_up(first_unit(floored(piles(self.cave@), self.floor as int, 1000)), steps),
        ensures
            forall|steps: nat| #[trigger]
                fills_up(first_unit(floored(piles(self.cave@), self.floor as int, 1000)), steps)
                    ==> count == fallen(
                    first_unit(floored(piles(self.cave@), self.floor as int, 1000)),
                    steps,
                ).rested,
    {
        let ghost start = first_unit(floored(piles(self.cave@), self.floor as int, 1000));
        let ghost n = choose|steps: nat| fills_up(start, steps);
        let mut cave: Vec<Vec<char>> = copy_of(&self.cave);
        let ghost given = piles(self.cave@);
        let ghost floor = self.floor as int;
        proof {
            assert(piles(cave@).len() == cave@.len());
            assert(given.len() == self.cave@.len());
            assert(piles(cave@)[floor] == cave@[floor]@);
            assert(given[floor] == self.cave@[floor]@);
            assert(floored(given, floor, 0)[floor] =~= given[floor]);
            assert(floored(given, floor, 0) =~= given);
        }
        let mut x: usize = 0;
        while x < 1000
            invariant
                x <= 1000,
                self.floor < cave@.len() == self.cave@.len(),
                cave@[self.floor as int]@.len() == self.cave@[self.floor as int]@.len() >= 1000,
                given == piles(self.cave@),
                floor == self.floor,
                piles(cave@) == floored(given, floor, x as int),
            decreases 1000 - x,
        {
            let ghost before = cave@;
            proof {
                assert(piles(before)[floor] == before[floor]@);
                assert(given[floor] == self.cave@[floor]@);
            }
            cave[self.floor][x] = ROCK;
            proof {
                let after = piles(cave@);
                let wanted = floored(given, floor, x + 1);
                assert(after.len() == wanted.len());
                assert forall|y: int| 0 <= y < after.len() implies after[y] =~= wanted[y] by {
                    if y == floor {
                        assert(after[y] == cave@[floor]@);
                        assert(cave@[floor]@ == before[floor]@.update(x as int, ROCK));
                    } else {
                        assert(after[y] == cave@[y]@);
                        assert(cave@[y] == before[y]);
                        assert(piles(before)[y] == before[y]@);
                    }
                }
                assert(after =~= wanted);
            }
            x += 1;
        }
        let mut sand_count: u32 = 0;
        let mut sand_position: (usize, usize) = (SOURCE_X, 0);
        let ghost mut k: nat = 0;
        loop
            invariant
                k <= n,
                fills_up(start, n),
                fallen(start, k) == (Fall {
                    cave: piles(cave@),
                    pos: sand_position,
                    rested: sand_count as int,
                }),
            ensures
                k == n,
                sand_count == fallen(start, n).rested,
            decreases n - k,
        {
            let ghost fall = fallen(start, k);
            let ghost before = cave@;
            proof {
                if k == n {
                    assert(source_blocked(fall));
                }
                if cave@.len() > 0 {
                    assert(piles(before)[0] == before[0]@);
                }
            }
            if cave[0][SOURCE_X] == SAND {
                proof {
                    assert(source_blocked(fall));
                    assert(k == n);
                }
                break;
            }
            assert(k < n);
            assert(can_fall(fall));
            proof {
                assert(piles(before)[sand_position.1 + 1] == before[sand_position.1 + 1]@);
                assert(piles(before)[sand_position.1 as int] == before[sand_position.1 as int]@);
            }
            if move_sand(&mut cave, &mut sand_position) {
                sand_count = sand_count + 1;
            }
            proof {
                assert(fallen(start, (k + 1) as nat) == fall_one(fall));
                assert(piles(cave@) =~= fall_one(fall).cave);
                k = (k + 1) as nat;
            }
        }
        proof {
            assert forall|steps: nat| #[trigger] fills_up(start, steps) implies sand_count
                == fallen(start, steps).rested by {
                if steps < n {
                    assert(!source_blocked(fallen(start, steps)));
                } else if n < steps {
                    assert(!source_blocked(fallen(start, n)));
                }
            }
        }
        sand_count
    }
}

/// The points read from a line lie inside the cave.
pub proof fn lemma_points_inside(line: Seq<u8>, from: int, b: int)
    requires
        points_from(line, from) is Some,
        0 <= b < points_from(line, from)->0.len(),
    ensures
        points_from(line, from)->0[b].0 < SIDE,
        points_from(line, from)->0[b].1 < SIDE,
    decreases line.len() - from,
{
    let x_end = digits_end(line, from);
    let y_end = digits_end(line, x_end + 1);
    let xs = line.subrange(from, x_end);
    let ys = line.subrange(x_end + 1, y_end);
    let first = (value_of(xs) as usize, value_of(ys) as usize);
    lemma_value_digits(xs);
    lemma_value_digits(ys);
    if y_end == line.len() {
        assert(points_from(line, from)->0 == seq![first]);
    } else {
        let rest = points_from(line, y_end + 4)->0;
        assert(points_from(line, from)->0 == seq![first] + rest);
        if b > 0 {
            lemma_points_inside(line, y_end + 4, b - 1);
            assert((seq![first] + rest)[b] == rest[b - 1]);
        }
    }
}

} // verus!
