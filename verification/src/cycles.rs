//! A register that a row of instructions changes, one cycle each.
use vstd::prelude::*;
use vstd::string::StringSliceAdditionalSpecFns;
use crate::text::{
    is_number, lines, read_number, rows, split_lines, text_of, value_of, Malformed,
};

verus! {

/// What is added to the register at the end of each cycle.
pub struct Puzzle {
    pub instructions: Vec<i32>,
}

/// The value of the register during cycle `cycle`, counted from 1: it
/// starts at 1 and takes up what the cycles before added.
pub open spec fn register_during(instructions: Seq<i32>, cycle: int) -> int
    decreases cycle,
{
    if cycle <= 1 {
        1
    } else {
        register_during(instructions, cycle - 1) + instructions[cycle - 2]
    }
}

/// Whether the signal is sampled in this cycle.
pub open spec fn sampled(cycle: int) -> bool {
    cycle == 20 || cycle == 60 || cycle == 100 || cycle == 140 || cycle == 180 || cycle == 220
}

/// The sum of the signal strengths sampled in the first `cycles` cycles: the
/// register's value times the number of the cycle.
pub open spec fn strength(instructions: Seq<i32>, cycles: int) -> int
    decreases cycles,
{
    if cycles <= 0 {
        0
    } else if sampled(cycles) {
        strength(instructions, cycles - 1) + register_during(instructions, cycles) * cycles
    } else {
        strength(instructions, cycles - 1)
    }
}

/// The pixel that the screen draws in cycle `cycle`, counted from 1: lit
/// where the register is at most one away from the pixel's column, counted
/// from 0.
pub open spec fn pixel(instructions: Seq<i32>, cycle: int) -> char {
    let column = (cycle - 1) % 40;
    let register = register_during(instructions, cycle);
    if register - 1 <= column <= register + 1 {
        '#'
    } else {
        '.'
    }
}

/// What the screen shows after the first `cycles` cycles: one pixel for
/// each cycle, and a line terminator behind every fortieth.
pub open spec fn screen(instructions: Seq<i32>, cycles: int) -> Seq<char>
    decreases cycles,
{
    if cycles <= 0 {
        seq![]
    } else if cycles % 40 == 0 {
        screen(instructions, cycles - 1).push(pixel(instructions, cycles)).push('\n')
    } else {
        screen(instructions, cycles - 1).push(pixel(instructions, cycles))
    }
}

/// The register, and the sprite's right edge two above it, fit into 32
/// bits in every cycle.
pub open spec fn screen_fits(instructions: Seq<i32>) -> bool {
    &&& instructions.len() <= i32::MAX
    &&& forall|c: int|
        1 <= c <= instructions.len() + 1 ==> i32::MIN <= #[trigger] register_during(
            instructions,
            c,
        ) <= i32::MAX - 2
}

/// The register and every sum of strengths fit into 32 bits, and so does
/// each product.
pub open spec fn fits(instructions: Seq<i32>) -> bool {
    &&& instructions.len() <= i32::MAX
    &&& forall|c: int|
        1 <= c <= instructions.len() + 1 ==> i32::MIN <= #[trigger] register_during(
            instructions,
            c,
        ) <= i32::MAX
    &&& forall|c: int|
        1 <= c <= instructions.len() ==> i32::MIN <= register_during(instructions, c) * c
            <= i32::MAX && i32::MIN <= #[trigger] strength(instructions, c) <= i32::MAX
}

/// The line `noop`.
pub open spec fn is_noop(line: Seq<u8>) -> bool {
    line.len() == 4 && line[0] == 110 && line[1] == 111 && line[2] == 111 && line[3] == 112
}

/// Whether the line starts with `addx` and a blank and goes on.
pub open spec fn is_addx(line: Seq<u8>) -> bool {
    line.len() > 5 && line[0] == 97 && line[1] == 100 && line[2] == 100 && line[3] == 120
        && line[4] == 32
}

/// The number that an `addx` line adds: decimal digits, with a minus sign
/// before them where it is negative, within 32 bits.
pub open spec fn added(line: Seq<u8>) -> Option<int> {
    if !is_addx(line) {
        None
    } else if line[5] == 45 {
        let digits = line.subrange(6, line.len() as int);
        if is_number(digits) && value_of(digits) <= 0x8000_0000 {
            Some(-value_of(digits))
        } else {
            None
        }
    } else {
        let digits = line.subrange(5, line.len() as int);
        if is_number(digits) && value_of(digits) <= 0x7fff_ffff {
            Some(value_of(digits))
        } else {
            None
        }
    }
}

/// What a line adds to the register, cycle by cycle: `noop` takes one
/// cycle and adds nothing, `addx` takes two and adds its number at the end
/// of the second.
pub open spec fn cycles_of(line: Seq<u8>) -> Option<Seq<i32>> {
    if is_noop(line) {
        Some(seq![0i32])
    } else {
        match added(line) {
            Some(value) => Some(seq![0i32, value as i32]),
            None => None,
        }
    }
}

/// What the first `upto` lines add to the register, cycle by cycle.
pub open spec fn program_of(lines: Seq<Seq<u8>>, upto: int) -> Option<Seq<i32>>
    decreases upto,
{
    if upto <= 0 {
        Some(seq![])
    } else {
        match (program_of(lines, upto - 1), cycles_of(lines[upto - 1])) {
            (Some(before), Some(more)) => Some(before + more),
            _ => None,
        }
    }
}

/// Where some line is no instruction, the lines are no program.
pub proof fn lemma_program_stops(lines: Seq<Seq<u8>>, bad: int, upto: int)
    requires
        0 <= bad < upto,
        cycles_of(lines[bad]) is None,
    ensures
        program_of(lines, upto) is None,
    decreases upto,
{
    if bad < upto - 1 {
        lemma_program_stops(lines, bad, upto - 1);
    }
}

/// Reads the number that an `addx` line adds.
pub fn read_added(line: &Vec<u8>) -> (value: Option<i32>)
    ensures
        match value {
            Some(v) => added(line@) == Some(v as int),
            None => added(line@) is None,
        },
{
    let n: usize = line.len();
    if !(n > 5 && line[0] == 97 && line[1] == 100 && line[2] == 100 && line[3] == 120 && line[4]
        == 32) {
        return None;
    }
    if line[5] == 45 {
        match read_number(line, 6, n) {
            Some(v) => {
                if v <= 0x8000_0000 {
                    Some((0 - v as i64) as i32)
                } else {
                    None
                }
            },
            None => None,
        }
    } else {
        match read_number(line, 5, n) {
            Some(v) => {
                if v <= 0x7fff_ffff {
                    Some(v as i32)
                } else {
                    None
                }
            },
            None => None,
        }
    }
}

impl Puzzle {
    /// Reads the program from its text, one instruction on each line.  A
    /// text that holds anything else is refused and leaves the puzzle as it
    /// was.
    pub fn configure(&mut self, text: &str) -> (done: Result<(), Malformed>)
        ensures
            match done {
                Ok(_) => program_of(
                    lines(text.spec_bytes()),
                    lines(text.spec_bytes()).len() as int,
                ) == Some(final(self).instructions@),
                Err(e) => program_of(
                    lines(text.spec_bytes()),
                    lines(text.spec_bytes()).len() as int,
                ) is None && *final(self) == *old(self) && e == Malformed::InvalidFormat,
            },
    {
        let found = split_lines(text.as_bytes());
        let ghost all = lines(text.spec_bytes());
        let mut instructions: Vec<i32> = Vec::new();
        let mut i: usize = 0;
        while i < found.len()
            invariant
                i <= found@.len(),
                rows(found@) == all,
                all == lines(text.spec_bytes()),
                *self == *old(self),
                program_of(all, i as int) == Some(instructions@),
            decreases found@.len() - i,
        {
            let line = &found[i];
            assert(all[i as int] == line@);
            if line.len() == 4 && line[0] == 110 && line[1] == 111 && line[2] == 111 && line[3]
                == 112 {
                instructions.push(0);
                assert(instructions@ == program_of(all, i as int)->0 + seq![0i32]);
            } else {
                match read_added(line) {
                    Some(value) => {
                        instructions.push(0);
                        instructions.push(value);
                        assert(instructions@ == program_of(all, i as int)->0 + seq![0i32, value]);
                    },
                    None => {
                        proof {
                            lemma_program_stops(all, i as int, all.len() as int);
                        }
                        return Err(Malformed::InvalidFormat);
                    },
                }
            }
            i += 1;
        }
        self.instructions = instructions;
        Ok(())
    }

    /// No instruction yet.
    pub fn new() -> (p: Puzzle)
        ensures
            p.instructions@.len() == 0,
    {
        Puzzle { instructions: Vec::new() }
    }

    /// The picture that the screen shows, forty pixels to the line: a pixel
    /// is lit where the register is at most one away from its column.
    pub fn part2(&self) -> (crt: String)
        requires
            screen_fits(self.instructions@),
        ensures
            crt@ == screen(self.instructions@, self.instructions@.len() as int),
    {
        let mut picture: Vec<char> = Vec::new();
        let mut sprite_position: i32 = 2;
        let mut index: usize = 0;
        while index < self.instructions.len()
            invariant
                index <= self.instructions@.len(),
                screen_fits(self.instructions@),
                sprite_position == register_during(self.instructions@, index + 1) + 1,
                picture@ == screen(self.instructions@, index as int),
            decreases self.instructions@.len() - index,
        {
            let cycle: i32 = (index % 40) as i32 + 1;
            proof {
                let c: int = index + 1;
                assert(i32::MIN <= register_during(self.instructions@, c) <= i32::MAX - 2);
                assert(i32::MIN <= register_during(self.instructions@, c + 1) <= i32::MAX - 2);
            }
            if sprite_position - 1 <= cycle && cycle <= sprite_position + 1 {
                picture.push('#');
            } else {
                picture.push('.');
            }
            if cycle == 40 {
                picture.push('\n');
            }
            sprite_position = sprite_position + self.instructions[index];
            index += 1;
        }
        text_of(&picture)
    }

    /// The sum of the six sampled signal strengths.
    pub fn part1(&self) -> (sum: i32)
        requires
            fits(self.instructions@),
        ensures
            sum == strength(self.instructions@, self.instructions@.len() as int),
    {
        let mut signal_strength: i32 = 0;
        let mut register_value: i32 = 1;
        let mut index: usize = 0;
        while index < self.instructions.len()
            invariant
                index <= self.instructions@.len(),
                fits(self.instructions@),
                register_value == register_during(self.instructions@, index + 1),
                signal_strength == strength(self.instructions@, index as int),
            decreases self.instructions@.len() - index,
        {
            let cycle: i32 = index as i32 + 1;
            let ghost c: int = index + 1;
            assert(cycle == c);
            assert(i32::MIN <= strength(self.instructions@, c) <= i32::MAX);
            assert(i32::MIN <= register_during(self.instructions@, c) * c <= i32::MAX);
            if cycle == 20 || cycle == 60 || cycle == 100 || cycle == 140 || cycle == 180 || cycle
                == 220 {
                signal_strength = signal_strength + register_value * cycle;
            }
            assert(i32::MIN <= register_during(self.instructions@, index + 2) <= i32::MAX);
            register_value = register_value + self.instructions[index];
            index += 1;
        }
        signal_strength
    }
}

} // verus!
