//! A rope of knots whose head is moved step by step, and the cells that
//! its tail visits.
use vstd::prelude::*;
use vstd::string::StringSliceAdditionalSpecFns;
use crate::text::{is_number, lines, read_number, rows, split_lines, value_of, Malformed};

verus! {

/// Whether a character names a motion: up, down, left or right.
pub open spec fn is_motion(c: char) -> bool {
    c == 'U' || c == 'D' || c == 'L' || c == 'R'
}

/// Where the head is after one motion.
pub open spec fn moved_head(head: (int, int), motion: char) -> (int, int) {
    if motion == 'U' {
        (head.0, head.1 + 1)
    } else if motion == 'D' {
        (head.0, head.1 - 1)
    } else if motion == 'L' {
        (head.0 - 1, head.1)
    } else if motion == 'R' {
        (head.0 + 1, head.1)
    } else {
        head
    }
}

/// The distance between two coordinates.
pub open spec fn gap(a: int, b: int) -> int {
    if a >= b {
        a - b
    } else {
        b - a
    }
}

/// One step from `t` towards `h`.
pub open spec fn toward(t: int, h: int) -> int {
    if h > t {
        t + 1
    } else {
        t - 1
    }
}

/// Whether the knot `head` pulls the knot `tail` behind it: it is two
/// cells away along a row or a column.
pub open spec fn pulls(head: (int, int), tail: (int, int)) -> bool {
    gap(head.1, tail.1) == 2 || gap(head.0, tail.0) == 2
}

/// Where a pulled knot goes: half way towards the knot before it along
/// each axis on which it is two cells away, and level with it on the other.
pub open spec fn pulled(head: (int, int), tail: (int, int)) -> (int, int) {
    if gap(head.1, tail.1) == 2 && gap(head.0, tail.0) == 2 {
        (toward(tail.0, head.0), toward(tail.1, head.1))
    } else if gap(head.1, tail.1) == 2 {
        (head.0, toward(tail.1, head.1))
    } else if gap(head.0, tail.0) == 2 {
        (toward(tail.0, head.0), head.1)
    } else {
        tail
    }
}

/// The knots behind the knot at `index` follow, one after the other, up to
/// the first that is not pulled.
pub open spec fn follow(knots: Seq<(int, int)>, index: int) -> Seq<(int, int)>
    decreases knots.len() - index,
{
    if index < 0 || index + 1 >= knots.len() || !pulls(knots[index], knots[index + 1]) {
        knots
    } else {
        follow(knots.update(index + 1, pulled(knots[index], knots[index + 1])), index + 1)
    }
}

/// The rope after one motion of its head.
pub open spec fn after_motion(knots: Seq<(int, int)>, motion: char) -> Seq<(int, int)> {
    follow(knots.update(0, moved_head(knots[0], motion)), 0)
}

/// The rope of `length` knots after the first `k` motions; all knots start
/// on one cell.
pub open spec fn knots_after(motions: Seq<char>, length: nat, k: int) -> Seq<(int, int)>
    decreases k,
{
    if k <= 0 {
        Seq::new(length, |i: int| (0int, 0int))
    } else {
        after_motion(knots_after(motions, length, k - 1), motions[k - 1])
    }
}

/// The cells on which the last knot was at the start or after one of the
/// first `upto` motions.
pub open spec fn tail_cells_upto(motions: Seq<char>, length: nat, upto: int) -> Set<(int, int)> {
    Set::new(
        |c: (int, int)|
            exists|k: int| 0 <= k <= upto && #[trigger] knots_after(motions, length, k).last() == c,
    )
}

/// The cells that the last knot visits.
pub open spec fn tail_cells(motions: Seq<char>, length: nat) -> Set<(int, int)> {
    tail_cells_upto(motions, length, motions.len() as int)
}

/// The knots as pairs of numbers.
pub open spec fn cells(knots: Seq<(i32, i32)>) -> Seq<(int, int)> {
    Seq::new(knots.len(), |i: int| (knots[i].0 as int, knots[i].1 as int))
}

/// Every knot is at most `reach` cells from the start along each axis.
pub open spec fn within(knots: Seq<(i32, i32)>, reach: int) -> bool {
    forall|i: int|
        0 <= i < knots.len() ==> -reach <= (#[trigger] knots[i]).0 <= reach && -reach
            <= knots[i].1 <= reach
}

/// Following leaves the number of knots as it is.
pub proof fn lemma_follow_len(knots: Seq<(int, int)>, index: int)
    ensures
        follow(knots, index).len() == knots.len(),
    decreases knots.len() - index,
{
    if !(index < 0 || index + 1 >= knots.len() || !pulls(knots[index], knots[index + 1])) {
        lemma_follow_len(
            knots.update(index + 1, pulled(knots[index], knots[index + 1])),
            index + 1,
        );
    }
}

/// A rope keeps its number of knots.
pub proof fn lemma_knots_len(motions: Seq<char>, length: nat, k: int)
    requires
        length >= 1,
    ensures
        knots_after(motions, length, k).len() == length,
    decreases k,
{
    if k > 0 {
        lemma_knots_len(motions, length, k - 1);
        let before = knots_after(motions, length, k - 1);
        lemma_follow_len(before.update(0, moved_head(before[0], motions[k - 1])), 0);
    }
}

/// Whether `cell` is among `found`.
pub fn was_visited(found: &Vec<(i32, i32)>, cell: (i32, i32)) -> (yes: bool)
    ensures
        yes == found@.contains(cell),
{
    let mut i: usize = 0;
    while i < found.len()
        invariant
            i <= found@.len(),
            forall|j: int| 0 <= j < i ==> found@[j] != cell,
        decreases found@.len() - i,
    {
        if found[i].0 == cell.0 && found[i].1 == cell.1 {
            return true;
        }
        i += 1;
    }
    false
}

/// The motions of the head, one cell each.
pub struct Puzzle {
    pub motions: Vec<char>,
}

/// Whether a byte names a motion: `U`, `D`, `L` or `R`.
pub open spec fn is_motion_byte(b: u8) -> bool {
    b == 85 || b == 68 || b == 76 || b == 82
}

/// The motions that a line stands for: the letter of a direction, a blank,
/// and how many cells to go.
pub open spec fn motion_of(line: Seq<u8>) -> Option<(char, int)> {
    let digits = line.subrange(2, line.len() as int);
    if line.len() >= 3 && is_motion_byte(line[0]) && line[1] == 32 && is_number(digits)
        && value_of(digits) <= usize::MAX {
        Some((line[0] as char, value_of(digits)))
    } else {
        None
    }
}

/// The motions that the first `upto` lines stand for, one for each cell.
pub open spec fn motions_of(lines: Seq<Seq<u8>>, upto: int) -> Option<Seq<char>>
    decreases upto,
{
    if upto <= 0 {
        Some(seq![])
    } else {
        match (motions_of(lines, upto - 1), motion_of(lines[upto - 1])) {
            (Some(before), Some((direction, count))) => Some(
                before + Seq::new(count as nat, |i: int| direction),
            ),
            _ => None,
        }
    }
}

/// Where some line is no motion, the lines are no motions.
pub proof fn lemma_motions_stop(lines: Seq<Seq<u8>>, bad: int, upto: int)
    requires
        0 <= bad < upto,
        motion_of(lines[bad]) is None,
    ensures
        motions_of(lines, upto) is None,
    decreases upto,
{
    if bad < upto - 1 {
        lemma_motions_stop(lines, bad, upto - 1);
    }
}

/// Reads the motions of one line.
pub fn read_motion(line: &Vec<u8>) -> (motion: Option<(char, usize)>)
    ensures
        match motion {
            Some((direction, count)) => motion_of(line@) == Some((direction, count as int))
                && is_motion(direction),
            None => motion_of(line@) is None,
        },
{
    let n: usize = line.len();
    if n < 3 {
        return None;
    }
    let b: u8 = line[0];
    if !(b == 85 || b == 68 || b == 76 || b == 82) || line[1] != 32 {
        return None;
    }
    match read_number(line, 2, n) {
        Some(count) => Some((b as char, count)),
        None => None,
    }
}

impl Puzzle {
    /// Reads the motions from their text, one direction and count on each
    /// line.  A text that holds anything else is refused and leaves the
    /// puzzle as it was.
    pub fn configure(&mut self, text: &str) -> (done: Result<(), Malformed>)
        ensures
            match done {
                Ok(_) => {
                    &&& motions_of(lines(text.spec_bytes()), lines(text.spec_bytes()).len() as int)
                        == Some(final(self).motions@)
                    &&& forall|i: int|
                        0 <= i < final(self).motions@.len() ==> is_motion(final(self).motions@[i])
                },
                Err(e) => motions_of(
                    lines(text.spec_bytes()),
                    lines(text.spec_bytes()).len() as int,
                ) is None && *final(self) == *old(self) && e == Malformed::InvalidFormat,
            },
    {
        let found = split_lines(text.as_bytes());
        let ghost all = lines(text.spec_bytes());
        let mut motions: Vec<char> = Vec::new();
        let mut i: usize = 0;
        while i < found.len()
            invariant
                i <= found@.len(),
                rows(found@) == all,
                all == lines(text.spec_bytes()),
                *self == *old(self),
                motions_of(all, i as int) == Some(motions@),
                forall|k: int| 0 <= k < motions@.len() ==> is_motion(motions@[k]),
            decreases found@.len() - i,
        {
            assert(all[i as int] == found@[i as int]@);
            match read_motion(&found[i]) {
                Some((direction, count)) => {
                    let ghost before = motions@;
                    let mut k: usize = 0;
                    while k < count
                        invariant
                            k <= count,
                            is_motion(direction),
                            motions@ == before + Seq::new(k as nat, |j: int| direction),
                            forall|j: int| 0 <= j < before.len() ==> is_motion(before[j]),
                        decreases count - k,
                    {
                        motions.push(direction);
                        assert(motions@ =~= before + Seq::new((k + 1) as nat, |j: int| direction));
                        k += 1;
                    }
                },
                None => {
                    proof {
                        lemma_motions_stop(all, i as int, all.len() as int);
                    }
                    return Err(Malformed::InvalidFormat);
                },
            }
            i += 1;
        }
        self.motions = motions;
        Ok(())
    }

    /// No motion yet.
    pub fn new() -> (p: Puzzle)
        ensures
            p.motions@.len() == 0,
    {
        Puzzle { motions: Vec::new() }
    }

    /// Moves the head of a rope of `length` knots as the motions say and
    /// returns the number of cells that the last knot visits.
    pub fn move_rope(&self, length: usize) -> (visited: usize)
        requires
            length >= 1,
            forall|i: int| 0 <= i < self.motions@.len() ==> is_motion(self.motions@[i]),
            self.motions@.len() <= i32::MAX,
        ensures
            visited == tail_cells(self.motions@, length as nat).len(),
    {
        let ghost ms = self.motions@;
        let mut knots_pos: Vec<(i32, i32)> = Vec::new();
        let mut n: usize = 0;
        while n < length
            invariant
                n <= length,
                knots_pos@.len() == n,
                forall|i: int| 0 <= i < n ==> knots_pos@[i] == (0i32, 0i32),
            decreases length - n,
        {
            knots_pos.push((0, 0));
            n += 1;
        }
        let mut positions: Vec<(i32, i32)> = Vec::new();
        positions.push((0, 0));
        assert(cells(knots_pos@) == knots_after(ms, length as nat, 0));
        proof {
            assert(cells(positions@)[0] == (0int, 0int));
            assert(knots_after(ms, length as nat, 0).last() == (0int, 0int));
            assert(cells(positions@).to_set() =~= tail_cells_upto(ms, length as nat, 0)) by {
                assert forall|c: (int, int)|
                    tail_cells_upto(ms, length as nat, 0).contains(c) implies cells(
                    positions@,
                ).to_set().contains(c) by {
                    assert(cells(positions@)[0] == c);
                }
            }
        }
        let mut k: usize = 0;
        while k < self.motions.len()
            invariant
                length >= 1,
                ms == self.motions@,
                k <= ms.len() <= i32::MAX,
                forall|i: int| 0 <= i < ms.len() ==> is_motion(ms[i]),
                knots_pos@.len() == length,
                cells(knots_pos@) == knots_after(ms, length as nat, k as int),
                within(knots_pos@, k as int),
                cells(positions@).no_duplicates(),
                cells(positions@).to_set() == tail_cells_upto(ms, length as nat, k as int),
                positions@.len() <= k + 1,
            decreases ms.len() - k,
        {
            let direction: char = self.motions[k];
            let head: (i32, i32) = knots_pos[0];
            let ghost before = cells(knots_pos@);
            assert(is_motion(ms[k as int]));
            assert(-(k as int) <= head.0 <= k && -(k as int) <= head.1 <= k);
            let moved: (i32, i32) = if direction == 'U' {
                (head.0, head.1 + 1)
            } else if direction == 'D' {
                (head.0, head.1 - 1)
            } else if direction == 'L' {
                (head.0 - 1, head.1)
            } else {
                (head.0 + 1, head.1)
            };
            knots_pos.set(0, moved);
            let ghost target = after_motion(before, direction);
            assert(cells(knots_pos@) == before.update(0, moved_head(before[0], direction)));
            let mut index: usize = 0;
            let mut moving: bool = true;
            while moving && index + 1 < length
                invariant
                    index < length,
                    knots_pos@.len() == length,
                    k < i32::MAX,
                    within(knots_pos@, k + 1),
                    moving ==> follow(cells(knots_pos@), index as int) == target,
                    !moving ==> cells(knots_pos@) == target,
                decreases length - index + (if moving { 1int } else { 0int }),
            {
                let head: (i32, i32) = knots_pos[index];
                let tail: (i32, i32) = knots_pos[index + 1];
                let ghost now = cells(knots_pos@);
                assert(now[index as int] == (head.0 as int, head.1 as int));
                assert(now[index + 1] == (tail.0 as int, tail.1 as int));
                let dx: i64 = head.0 as i64 - tail.0 as i64;
                let dy: i64 = head.1 as i64 - tail.1 as i64;
                let far_x: bool = dx == 2 || dx == -2;
                let far_y: bool = dy == 2 || dy == -2;
                if far_x || far_y {
                    let x: i32 = if far_x {
                        if dx > 0 {
                            tail.0 + 1
                        } else {
                            tail.0 - 1
                        }
                    } else {
                        head.0
                    };
                    let y: i32 = if far_y {
                        if dy > 0 {
                            tail.1 + 1
                        } else {
                            tail.1 - 1
                        }
                    } else {
                        head.1
                    };
                    knots_pos.set(index + 1, (x, y));
                    assert(cells(knots_pos@) == now.update(
                        index + 1,
                        pulled(now[index as int], now[index + 1]),
                    ));
                    index += 1;
                } else {
                    moving = false;
                }
            }
            let last: (i32, i32) = knots_pos[length - 1];
            proof {
                lemma_knots_len(ms, length as nat, k + 1);
                assert(target == knots_after(ms, length as nat, k + 1));
                assert(cells(knots_pos@) == target);
            }
            let ghost c = (last.0 as int, last.1 as int);
            let ghost found = cells(positions@);
            assert(target.last() == c);
            if !was_visited(&positions, last) {
                positions.push(last);
                proof {
                    let grown = cells(positions@);
                    assert(grown == found.push(c));
                    assert(!found.contains(c)) by {
                        if found.contains(c) {
                            let j = choose|j: int| 0 <= j < found.len() && found[j] == c;
                            assert(positions@[j] == last);
                        }
                    }
                    assert(grown.no_duplicates());
                    assert(grown.to_set() =~= tail_cells_upto(ms, length as nat, k + 1)) by {
                        assert forall|d: (int, int)|
                            tail_cells_upto(ms, length as nat, k + 1).contains(
                                d,
                            ) implies grown.to_set().contains(d) by {
                            let at = choose|at: int|
                                0 <= at <= k + 1 && #[trigger] knots_after(
                                    ms,
                                    length as nat,
                                    at,
                                ).last() == d;
                            if at <= k {
                                assert(tail_cells_upto(ms, length as nat, k as int).contains(d));
                                assert(found.to_set().contains(d));
                                let j = choose|j: int| 0 <= j < found.len() && found[j] == d;
                                assert(grown[j] == d);
                            } else {
                                assert(grown[found.len() as int] == d);
                            }
                        }
                        assert forall|d: (int, int)| grown.to_set().contains(d)
                            implies tail_cells_upto(
                            ms,
                            length as nat,
                            k + 1,
                        ).contains(d) by {
                            let j = choose|j: int| 0 <= j < grown.len() && grown[j] == d;
                            if j < found.len() {
                                assert(found[j] == d);
                                assert(found.to_set().contains(d));
                                assert(tail_cells_upto(ms, length as nat, k as int).contains(d));
                                let at = choose|at: int|
                                    0 <= at <= k && #[trigger] knots_after(
                                        ms,
                                        length as nat,
                                        at,
                                    ).last() == d;
                                assert(knots_after(ms, length as nat, at).last() == d);
                            } else {
                                assert(knots_after(ms, length as nat, k + 1).last() == d);
                            }
                        }
                    }
                }
            } else {
                proof {
                    assert(found.contains(c)) by {
                        let j = choose|j: int| 0 <= j < positions@.len() && positions@[j] == last;
                        assert(found[j] == c);
                    }
                    assert(found.to_set() =~= tail_cells_upto(ms, length as nat, k + 1)) by {
                        assert forall|d: (int, int)|
                            tail_cells_upto(ms, length as nat, k + 1).contains(
                                d,
                            ) implies found.to_set().contains(d) by {
                            let at = choose|at: int|
                                0 <= at <= k + 1 && #[trigger] knots_after(
                                    ms,
                                    length as nat,
                                    at,
                                ).last() == d;
                            if at <= k {
                                assert(tail_cells_upto(ms, length as nat, k as int).contains(d));
                            }
                        }
                        assert forall|d: (int, int)| found.to_set().contains(d)
                            implies tail_cells_upto(
                            ms,
                            length as nat,
                            k + 1,
                        ).contains(d) by {
                            assert(tail_cells_upto(ms, length as nat, k as int).contains(d));
                            let at = choose|at: int|
                                0 <= at <= k && #[trigger] knots_after(
                                    ms,
                                    length as nat,
                                    at,
                                ).last() == d;
                            assert(knots_after(ms, length as nat, at).last() == d);
                        }
                    }
                }
            }
            k += 1;
        }
        proof {
            cells(positions@).unique_seq_to_set();
        }
        positions.len()
    }

    /// The cells that the tail of a rope of two knots visits.
    pub fn part1(&self) -> (visited: usize)
        requires
            forall|i: int| 0 <= i < self.motions@.len() ==> is_motion(self.motions@[i]),
            self.motions@.len() <= i32::MAX,
        ensures
            visited == tail_cells(self.motions@, 2).len(),
    {
        self.move_rope(2)
    }

    /// The cells that the tail of a rope of ten knots visits.
    pub fn part2(&self) -> (visited: usize)
        requires
            forall|i: int| 0 <= i < self.motions@.len() ==> is_motion(self.motions@[i]),
            self.motions@.len() <= i32::MAX,
        ensures
            visited == tail_cells(self.motions@, 10).len(),
    {
        self.move_rope(10)
    }
}

} // verus!
