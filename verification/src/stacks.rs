//! Stacks of crates that a crane rearranges.
use vstd::prelude::*;
use vstd::string::StringSliceAdditionalSpecFns;
use crate::text::{
    digits_end, has_word, is_digit, is_number, lines, read_number, rows,
    skip_digits, split_lines, text_of, value_of, word_at, Malformed, ZERO,
};

verus! {

/// The stacks, each from the bottom up, and the crane's instructions: how
/// many crates to move, from which stack and to which, stacks counted from
/// one.
pub struct Puzzle {
    pub crates_stacks: Vec<Vec<char>>,
    pub instructions: Vec<(usize, usize, usize)>,
}

/// The stacks as rows of crates.
pub open spec fn piles(stacks: Seq<Vec<char>>) -> Seq<Seq<char>> {
    Seq::new(stacks.len(), |i: int| stacks[i]@)
}

/// The crane moves `count` crates from stack `from` to stack `to`, one at a
/// time, the top crate first.
pub open spec fn moved_one_by_one(stacks: Seq<Seq<char>>, count: nat, from: int, to: int) -> Seq<
    Seq<char>,
>
    decreases count,
{
    if count == 0 {
        stacks
    } else {
        let lifted = stacks.update(from, stacks[from].drop_last());
        moved_one_by_one(
            lifted.update(to, lifted[to].push(stacks[from].last())),
            (count - 1) as nat,
            from,
            to,
        )
    }
}

/// The crane moves the top `count` crates from stack `from` to stack `to`
/// at once, in the order in which they lie.
pub open spec fn moved_together(stacks: Seq<Seq<char>>, count: nat, from: int, to: int) -> Seq<
    Seq<char>,
> {
    let rest = stacks[from].len() - count;
    let set_down = stacks.update(to, stacks[to] + stacks[from].skip(rest));
    set_down.update(from, set_down[from].take(rest))
}

/// The stacks after one instruction.
pub open spec fn moved(
    stacks: Seq<Seq<char>>,
    instruction: (usize, usize, usize),
    together: bool,
) -> Seq<
    Seq<char>,
> {
    if together {
        moved_together(stacks, instruction.0 as nat, instruction.1 - 1, instruction.2 - 1)
    } else {
        moved_one_by_one(stacks, instruction.0 as nat, instruction.1 - 1, instruction.2 - 1)
    }
}

/// The stacks after the first `upto` instructions.
pub open spec fn rearranged(
    stacks: Seq<Seq<char>>,
    instructions: Seq<(usize, usize, usize)>,
    upto: int,
    together: bool,
) -> Seq<Seq<char>>
    decreases upto,
{
    if upto <= 0 {
        stacks
    } else {
        moved(
            rearranged(stacks, instructions, upto - 1, together),
            instructions[upto - 1],
            together,
        )
    }
}

/// Whether the crane can follow an instruction: both stacks exist and the
/// first holds the crates to move.  Moving crates one at a time onto the
/// stack they come from needs one crate only.
pub open spec fn can_move(
    stacks: Seq<Seq<char>>,
    instruction: (usize, usize, usize),
    together: bool,
) -> bool {
    let (count, from, to) = instruction;
    &&& 1 <= from <= stacks.len()
    &&& 1 <= to <= stacks.len()
    &&& if !together && from == to {
        count == 0 || stacks[from - 1].len() >= 1
    } else {
        count <= stacks[from - 1].len()
    }
}

/// Whether the crane can follow each of the first `upto` instructions in
/// turn, and no stack outgrows the machine.
pub open spec fn can_rearrange(
    stacks: Seq<Seq<char>>,
    instructions: Seq<(usize, usize, usize)>,
    upto: int,
    together: bool,
) -> bool {
    forall|k: int|
        0 <= k < upto ==> can_move(
            #[trigger] rearranged(stacks, instructions, k, together),
            instructions[k],
            together,
        )
}

/// The top crates of the first `upto` stacks, empty stacks left out.
pub open spec fn tops(stacks: Seq<Seq<char>>, upto: int) -> Seq<char>
    decreases upto,
{
    if upto <= 0 {
        seq![]
    } else if stacks[upto - 1].len() > 0 {
        tops(stacks, upto - 1).push(stacks[upto - 1].last())
    } else {
        tops(stacks, upto - 1)
    }
}

/// Moving crates leaves the number of stacks as it is.
pub proof fn lemma_one_by_one(stacks: Seq<Seq<char>>, count: nat, from: int, to: int)
    requires
        0 <= from < stacks.len(),
        0 <= to < stacks.len(),
    ensures
        moved_one_by_one(stacks, count, from, to).len() == stacks.len(),
    decreases count,
{
    if count > 0 {
        let lifted = stacks.update(from, stacks[from].drop_last());
        lemma_one_by_one(
            lifted.update(to, lifted[to].push(stacks[from].last())),
            (count - 1) as nat,
            from,
            to,
        );
    }
}

/// A copy of the stacks.
pub fn copy_of(stacks: &Vec<Vec<char>>) -> (copy: Vec<Vec<char>>)
    ensures
        piles(copy@) == piles(stacks@),
{
    let mut copy: Vec<Vec<char>> = Vec::new();
    let mut i: usize = 0;
    while i < stacks.len()
        invariant
            i <= stacks@.len(),
            copy@.len() == i,
            forall|k: int| 0 <= k < i ==> (#[trigger] copy@[k])@ == stacks@[k]@,
        decreases stacks@.len() - i,
    {
        let mut stack: Vec<char> = Vec::new();
        let mut j: usize = 0;
        while j < stacks[i].len()
            invariant
                i < stacks@.len(),
                j <= stacks@[i as int]@.len(),
                stack@ == stacks@[i as int]@.take(j as int),
            decreases stacks@[i as int]@.len() - j,
        {
            stack.push(stacks[i][j]);
            assert(stacks@[i as int]@.take(j + 1) == stacks@[i as int]@.take(j as int).push(
                stacks@[i as int]@[j as int],
            ));
            j += 1;
        }
        assert(stacks@[i as int]@.take(j as int) == stacks@[i as int]@);
        copy.push(stack);
        i += 1;
    }
    assert(piles(copy@) =~= piles(stacks@));
    copy
}

/// The top crate of every stack that holds one, as a string.
pub fn read_tops(stacks: &Vec<Vec<char>>) -> (text: String)
    ensures
        text@ == tops(piles(stacks@), stacks@.len() as int),
{
    let mut result: Vec<char> = Vec::new();
    let mut i: usize = 0;
    while i < stacks.len()
        invariant
            i <= stacks@.len(),
            result@ == tops(piles(stacks@), i as int),
        decreases stacks@.len() - i,
    {
        let n: usize = stacks[i].len();
        assert(piles(stacks@)[i as int] == stacks@[i as int]@);
        if n > 0 {
            result.push(stacks[i][n - 1]);
        }
        i += 1;
    }
    text_of(&result)
}

/// The place of the first empty line at or behind `from`, or the number of
/// lines where there is none.
pub open spec fn blank_line(lines: Seq<Seq<u8>>, from: int) -> int
    decreases lines.len() - from,
{
    if from < 0 || from >= lines.len() {
        lines.len() as int
    } else if lines[from].len() == 0 {
        from
    } else {
        blank_line(lines, from + 1)
    }
}

/// Whether a byte is a letter; only letters are crates.
pub open spec fn is_crate(b: u8) -> bool {
    (65 <= b <= 90) || (97 <= b <= 122)
}

/// The column of the drawing in which the crates of stack `stack` stand.
pub open spec fn column(stack: int) -> int {
    1 + 4 * stack
}

/// The crates of a stack that the lowest `upto` lines of the drawing show,
/// the lowest first.
pub open spec fn pile(drawing: Seq<Seq<u8>>, stack: int, upto: int) -> Seq<char>
    decreases upto,
{
    if upto <= 0 {
        seq![]
    } else {
        let b = drawing[drawing.len() - upto][column(stack)];
        if is_crate(b) {
            pile(drawing, stack, upto - 1).push(b as char)
        } else {
            pile(drawing, stack, upto - 1)
        }
    }
}

/// The number of stacks that the line of labels names: its last digit,
/// which one more byte follows.
pub open spec fn stack_count(label: Seq<u8>) -> Option<int> {
    if label.len() >= 2 && is_digit(label[label.len() - 2]) {
        Some(label[label.len() - 2] - ZERO)
    } else {
        None
    }
}

/// Whether every line of the drawing reaches the column of the last stack.
pub open spec fn wide_enough(drawing: Seq<Seq<u8>>, count: int) -> bool {
    forall|i: int| 0 <= i < drawing.len() ==> (#[trigger] drawing[i]).len() > column(count - 1)
}

/// The stacks that the lines above the empty line at `blank` draw.
pub open spec fn drawn(lines: Seq<Seq<u8>>, blank: int) -> Option<Seq<Seq<char>>> {
    if 1 <= blank <= lines.len() {
        let drawing = lines.take(blank - 1);
        match stack_count(lines[blank - 1]) {
            Some(count) => if count == 0 || wide_enough(drawing, count) {
                Some(Seq::new(count as nat, |s: int| pile(drawing, s, drawing.len() as int)))
            } else {
                None
            },
            None => None,
        }
    } else {
        None
    }
}

/// The word `move` and a blank.
pub open spec fn word_move() -> Seq<u8> {
    seq![109u8, 111u8, 118u8, 101u8, 32u8]
}

/// The word `from` between blanks.
pub open spec fn word_from() -> Seq<u8> {
    seq![32u8, 102u8, 114u8, 111u8, 109u8, 32u8]
}

/// The word `to` between blanks.
pub open spec fn word_to() -> Seq<u8> {
    seq![32u8, 116u8, 111u8, 32u8]
}

/// The instruction that a line stands for: `move`, a number, `from`, a
/// number, `to`, a number, with single blanks between them.
pub open spec fn move_of(line: Seq<u8>) -> Option<(usize, usize, usize)> {
    let count_end = digits_end(line, 5);
    let from_end = digits_end(line, count_end + 6);
    let count = line.subrange(5, count_end);
    let from = line.subrange(count_end + 6, from_end);
    let to = line.subrange(from_end + 4, line.len() as int);
    if word_at(line, 0, word_move()) && word_at(line, count_end, word_from()) && word_at(
        line,
        from_end,
        word_to(),
    ) && is_number(count) && is_number(from) && is_number(to) && value_of(count) <= usize::MAX
        && value_of(from) <= usize::MAX && value_of(to) <= usize::MAX {
        Some((value_of(count) as usize, value_of(from) as usize, value_of(to) as usize))
    } else {
        None
    }
}

/// The instructions that the lines behind the empty line at `blank` stand
/// for; there is one at least.
pub open spec fn plan_of(lines: Seq<Seq<u8>>, blank: int) -> Option<Seq<(usize, usize, usize)>> {
    if 0 <= blank && blank + 1 < lines.len() && forall|i: int|
        blank < i < lines.len() ==> move_of(lines[i]) is Some {
        Some(Seq::new((lines.len() - blank - 1) as nat, |i: int| move_of(lines[blank + 1 + i])->0))
    } else {
        None
    }
}

/// Reads one instruction.
pub fn read_move(line: &Vec<u8>) -> (found: Option<(usize, usize, usize)>)
    ensures
        found == move_of(line@),
{
    let n: usize = line.len();
    let word_move: [u8; 5] = [109, 111, 118, 101, 32];
    let word_from: [u8; 6] = [32, 102, 114, 111, 109, 32];
    let word_to: [u8; 4] = [32, 116, 111, 32];
    assert(word_move@ =~= self::word_move());
    assert(word_from@ =~= self::word_from());
    assert(word_to@ =~= self::word_to());
    if !has_word(line, 0, word_move.as_slice()) {
        return None;
    }
    let count_end: usize = skip_digits(line, 5);
    if !has_word(line, count_end, word_from.as_slice()) {
        return None;
    }
    let from_end: usize = skip_digits(line, count_end + 6);
    if !has_word(line, from_end, word_to.as_slice()) {
        return None;
    }
    let count = read_number(line, 5, count_end);
    let from = read_number(line, count_end + 6, from_end);
    let to = read_number(line, from_end + 4, n);
    match (count, from, to) {
        (Some(count), Some(from), Some(to)) => Some((count, from, to)),
        _ => None,
    }
}

/// Reads the stacks that the lines above the empty line at `blank` draw.
pub fn read_drawing(found: &Vec<Vec<u8>>, blank: usize) -> (stacks: Option<Vec<Vec<char>>>)
    requires
        blank <= found@.len(),
    ensures
        match stacks {
            Some(stacks) => drawn(rows(found@), blank as int) == Some(piles(stacks@)),
            None => drawn(rows(found@), blank as int) is None,
        },
{
    let ghost all = rows(found@);
    if blank < 1 {
        return None;
    }
    let label = &found[blank - 1];
    assert(all[blank - 1] == label@);
    let width: usize = label.len();
    if width < 2 || label[width - 2] < 48 || label[width - 2] > 57 {
        return None;
    }
    let count: usize = (label[width - 2] - 48) as usize;
    let ghost drawing = all.take(blank - 1);
    let mut r: usize = 0;
    while r < blank - 1
        invariant
            r <= blank - 1,
            blank <= found@.len(),
            all == rows(found@),
            drawing == all.take(blank - 1),
            0 <= count <= 9,
            1 <= blank,
            stack_count(all[blank - 1]) == Some(count as int),
            forall|i: int| 0 <= i < r ==> count == 0 || (#[trigger] drawing[i]).len() > column(
                count - 1,
            ),
        decreases blank - 1 - r,
    {
        assert(drawing[r as int] == found@[r as int]@);
        if count > 0 && found[r].len() <= 1 + 4 * (count - 1) {
            assert(drawing[r as int].len() <= column(count - 1));
            assert(!wide_enough(drawing, count as int));
            return None;
        }
        r += 1;
    }
    let mut stacks: Vec<Vec<char>> = Vec::new();
    let mut s: usize = 0;
    while s < count
        invariant
            s <= count <= 9,
            1 <= blank <= found@.len(),
            all == rows(found@),
            drawing == all.take(blank - 1),
            wide_enough(drawing, count as int),
            stacks@.len() == s,
            forall|k: int|
                0 <= k < s ==> (#[trigger] stacks@[k])@ == pile(drawing, k, drawing.len() as int),
        decreases count - s,
    {
        let mut stack: Vec<char> = Vec::new();
        let mut upto: usize = 0;
        while upto < blank - 1
            invariant
                s < count <= 9,
                upto <= blank - 1,
                1 <= blank <= found@.len(),
                all == rows(found@),
                drawing == all.take(blank - 1),
                wide_enough(drawing, count as int),
                stack@ == pile(drawing, s as int, upto as int),
            decreases blank - 1 - upto,
        {
            let at: usize = blank - 2 - upto;
            assert(drawing[at as int] == found@[at as int]@);
            assert(drawing[at as int].len() > column(count - 1));
            let b: u8 = found[at][1 + 4 * s];
            if (65 <= b && b <= 90) || (97 <= b && b <= 122) {
                stack.push(b as char);
            }
            upto += 1;
        }
        stacks.push(stack);
        s += 1;
    }
    assert(piles(stacks@) =~= drawn(all, blank as int)->0);
    Some(stacks)
}

impl Puzzle {
    /// Reads the stacks and the instructions from their text: the drawing
    /// of the stacks with the line of their labels, an empty line, and one
    /// instruction on each line behind it.  A text that holds anything else
    /// is refused and leaves the puzzle as it was.
    pub fn configure(&mut self, text: &str) -> (done: Result<(), Malformed>)
        ensures
            match done {
                Ok(_) => {
                    let all = lines(text.spec_bytes());
                    &&& drawn(all, blank_line(all, 0)) == Some(piles(final(self).crates_stacks@))
                    &&& plan_of(all, blank_line(all, 0)) == Some(final(self).instructions@)
                },
                Err(e) => {
                    let all = lines(text.spec_bytes());
                    &&& drawn(all, blank_line(all, 0)) is None || plan_of(all, blank_line(all, 0))
                        is None
                    &&& *final(self) == *old(self)
                    &&& e == Malformed::InvalidFormat
                },
            },
    {
        let found = split_lines(text.as_bytes());
        let ghost all = lines(text.spec_bytes());
        let n: usize = found.len();
        let mut blank: usize = 0;
        while blank < n && found[blank].len() != 0
            invariant
                blank <= n == found@.len(),
                rows(found@) == all,
                blank_line(all, 0) == blank_line(all, blank as int),
            decreases n - blank,
        {
            assert(all[blank as int] == found@[blank as int]@);
            blank += 1;
        }
        proof {
            if blank < n {
                assert(all[blank as int] == found@[blank as int]@);
            }
            assert(blank_line(all, 0) == blank);
        }
        let stacks = match read_drawing(&found, blank) {
            Some(stacks) => stacks,
            None => {
                return Err(Malformed::InvalidFormat);
            },
        };
        if blank >= n || blank + 1 >= n {
            return Err(Malformed::InvalidFormat);
        }
        let mut instructions: Vec<(usize, usize, usize)> = Vec::new();
        let mut i: usize = blank + 1;
        while i < n
            invariant
                blank + 1 <= i <= n == found@.len(),
                rows(found@) == all,
                all == lines(text.spec_bytes()),
                blank_line(all, 0) == blank,
                *self == *old(self),
                instructions@.len() == i - blank - 1,
                forall|k: int|
                    blank < k < i ==> move_of(all[k]) == Some(
                        #[trigger] instructions@[k - blank - 1],
                    ),
            decreases n - i,
        {
            assert(all[i as int] == found@[i as int]@);
            match read_move(&found[i]) {
                Some(instruction) => {
                    instructions.push(instruction);
                },
                None => {
                    assert(move_of(all[i as int]) is None);
                    return Err(Malformed::InvalidFormat);
                },
            }
            i += 1;
        }
        proof {
            assert forall|k: int| blank < k < all.len() implies move_of(all[k]) is Some by {
                assert(move_of(all[k]) == Some(instructions@[k - blank - 1]));
            }
            assert forall|k: int| 0 <= k < instructions@.len() implies instructions@[k] == move_of(
                all[blank + 1 + k],
            )->0 by {
                assert(move_of(all[blank + 1 + k])
                    == Some(instructions@[blank + 1 + k - blank - 1]));
            }
            assert(instructions@ =~= plan_of(all, blank as int)->0);
        }
        self.crates_stacks = stacks;
        self.instructions = instructions;
        Ok(())
    }

    /// No stack and no instruction yet.
    pub fn new() -> (p: Puzzle)
        ensures
            p.crates_stacks@.len() == 0,
            p.instructions@.len() == 0,
    {
        Puzzle { crates_stacks: Vec::new(), instructions: Vec::new() }
    }

    /// The top crates after the crane has moved the crates one at a time.
    pub fn part1(&self) -> (text: String)
        requires
            can_rearrange(
                piles(self.crates_stacks@),
                self.instructions@,
                self.instructions@.len() as int,
                false,
            ),
        ensures
            text@ == tops(
                rearranged(
                    piles(self.crates_stacks@),
                    self.instructions@,
                    self.instructions@.len() as int,
                    false,
                ),
                self.crates_stacks@.len() as int,
            ),
    {
        let ghost start = piles(self.crates_stacks@);
        let ghost plan = self.instructions@;
        let mut stacks: Vec<Vec<char>> = copy_of(&self.crates_stacks);
        let n: usize = stacks.len();
        assert(piles(stacks@).len() == start.len());
        let mut k: usize = 0;
        while k < self.instructions.len()
            invariant
                k <= plan.len(),
                plan == self.instructions@,
                start == piles(self.crates_stacks@),
                can_rearrange(start, plan, plan.len() as int, false),
                stacks@.len() == n == start.len(),
                piles(stacks@) == rearranged(start, plan, k as int, false),
            decreases plan.len() - k,
        {
            let (count, from, to) = self.instructions[k];
            let ghost before = piles(stacks@);
            assert(can_move(rearranged(start, plan, k as int, false), plan[k as int], false));
            let mut done: usize = 0;
            while done < count
                invariant
                    done <= count,
                    1 <= from <= n,
                    1 <= to <= n,
                    stacks@.len() == n == before.len(),
                    if from == to {
                        done < count ==> piles(stacks@)[from - 1].len() >= 1
                    } else {
                        piles(stacks@)[from - 1].len() >= count - done
                    },
                    moved_one_by_one(piles(stacks@), (count - done) as nat, from - 1, to - 1)
                        == moved_one_by_one(before, count as nat, from - 1, to - 1),
                decreases count - done,
            {
                let ghost now = piles(stacks@);
                assert(now[from - 1] == stacks@[from - 1]@);
                let c: char = stacks[from - 1].pop().unwrap();
                stacks[to - 1].push(c);
                proof {
                    let lifted = now.update(from - 1, now[from - 1].drop_last());
                    assert(piles(stacks@) =~= lifted.update(
                        to - 1,
                        lifted[to - 1].push(now[from - 1].last()),
                    ));
                }
                done += 1;
            }
            k += 1;
        }
        read_tops(&stacks)
    }

    /// The top crates after the crane has moved the crates of each
    /// instruction at once.
    pub fn part2(&self) -> (text: String)
        requires
            can_rearrange(
                piles(self.crates_stacks@),
                self.instructions@,
                self.instructions@.len() as int,
                true,
            ),
        ensures
            text@ == tops(
                rearranged(
                    piles(self.crates_stacks@),
                    self.instructions@,
                    self.instructions@.len() as int,
                    true,
                ),
                self.crates_stacks@.len() as int,
            ),
    {
        let ghost start = piles(self.crates_stacks@);
        let ghost plan = self.instructions@;
        let mut stacks: Vec<Vec<char>> = copy_of(&self.crates_stacks);
        let n: usize = stacks.len();
        assert(piles(stacks@).len() == start.len());
        let mut k: usize = 0;
        while k < self.instructions.len()
            invariant
                k <= plan.len(),
                plan == self.instructions@,
                start == piles(self.crates_stacks@),
                can_rearrange(start, plan, plan.len() as int, true),
                stacks@.len() == n == start.len(),
                piles(stacks@) == rearranged(start, plan, k as int, true),
            decreases plan.len() - k,
        {
            let (count, from, to) = self.instructions[k];
            let ghost before = piles(stacks@);
            assert(can_move(rearranged(start, plan, k as int, true), plan[k as int], true));
            assert(before[from - 1] == stacks@[from - 1]@);
            assert(before[to - 1] == stacks@[to - 1]@);
            let stack_len: usize = stacks[from - 1].len();
            let mut lifted: Vec<char> = Vec::new();
            let first: usize = stack_len - count;
            let mut j: usize = first;
            while j < stack_len
                invariant
                    1 <= from <= n == stacks@.len(),
                    stack_len == stacks@[from - 1]@.len(),
                    first <= j <= stack_len,
                    lifted@ == stacks@[from - 1]@.subrange(first as int, j as int),
                decreases stack_len - j,
            {
                lifted.push(stacks[from - 1][j]);
                assert(stacks@[from - 1]@.subrange(first as int, j + 1) == stacks@[from
                    - 1]@.subrange(first as int, j as int).push(stacks@[from - 1]@[j as int]));
                j += 1;
            }
            assert(lifted@ == before[from - 1].skip(stack_len - count));
            stacks[to - 1].append(&mut lifted);
            let ghost set_down = piles(stacks@);
            assert(set_down =~= before.update(
                to - 1,
                before[to - 1] + before[from - 1].skip(stack_len - count),
            ));
            stacks[from - 1].truncate(stack_len - count);
            assert(piles(stacks@) =~= set_down.update(
                from - 1,
                set_down[from - 1].take(stack_len - count),
            ));
            k += 1;
        }
        read_tops(&stacks)
    }
}

} // verus!
