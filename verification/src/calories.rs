//! Calories carried by a row of elves, the largest first.
use vstd::prelude::*;
use vstd::seq_lib::{to_multiset_build, to_multiset_insert};
use vstd::string::StringSliceAdditionalSpecFns;
use crate::text::{is_number, lines, read_number, rows, split_lines, value_of, Malformed};

verus! {

/// The calories that each elf carries, in descending order.
pub struct Puzzle {
    pub calories: Vec<usize>,
}

/// No value is followed by a larger one.
pub open spec fn descending(values: Seq<usize>) -> bool {
    forall|i: int, j: int| 0 <= i <= j < values.len() ==> values[i] >= values[j]
}

/// The sums of the elves that are done, and the sum so far of the elf whose
/// lines are being read.
pub struct Tally {
    pub sums: Seq<usize>,
    pub current: Option<usize>,
}

/// What one more line makes of the tally.  A number is added to the
/// current elf; an empty line ends the current elf, and there must be one.
/// No sum may exceed the machine's numbers.
pub open spec fn tally_line(tally: Tally, line: Seq<u8>) -> Option<Tally> {
    let so_far: int = match tally.current {
        Some(sum) => sum as int,
        None => 0,
    };
    if line.len() == 0 {
        match tally.current {
            Some(sum) => Some(Tally { sums: tally.sums.push(sum), current: None }),
            None => None,
        }
    } else if is_number(line) && so_far + value_of(line) <= usize::MAX {
        Some(Tally { sums: tally.sums, current: Some((so_far + value_of(line)) as usize) })
    } else {
        None
    }
}

/// The tally after the first `upto` lines.
pub open spec fn tallied(lines: Seq<Seq<u8>>, upto: int) -> Option<Tally>
    decreases upto,
{
    if upto <= 0 {
        Some(Tally { sums: seq![], current: None })
    } else {
        match tallied(lines, upto - 1) {
            Some(tally) => tally_line(tally, lines[upto - 1]),
            None => None,
        }
    }
}

/// The sum of every elf, in the order of the text: the elves are parted by
/// single empty lines, and each has a number on every line.
pub open spec fn sums_of(lines: Seq<Seq<u8>>) -> Option<Seq<usize>> {
    match tallied(lines, lines.len() as int) {
        Some(tally) => match tally.current {
            Some(sum) => Some(tally.sums.push(sum)),
            None => None,
        },
        None => None,
    }
}

/// Where the tally has failed, it fails for all lines.
pub proof fn lemma_tally_stops(lines: Seq<Seq<u8>>, bad: int, upto: int)
    requires
        0 <= bad <= upto,
        tallied(lines, bad) is None,
    ensures
        tallied(lines, upto) is None,
    decreases upto,
{
    if bad < upto {
        lemma_tally_stops(lines, bad, upto - 1);
    }
}

/// Puts a value into a descending row where it belongs.
pub fn insert_descending(values: &mut Vec<usize>, value: usize)
    requires
        descending(old(values)@),
    ensures
        descending(final(values)@),
        final(values)@.to_multiset() == old(values)@.to_multiset().insert(value),
        final(values)@.len() == old(values)@.len() + 1,
{
    let mut at: usize = 0;
    while at < values.len() && values[at] >= value
        invariant
            at <= values@.len(),
            values@ == old(values)@,
            forall|k: int| 0 <= k < at ==> values@[k] >= value,
        decreases values@.len() - at,
    {
        at += 1;
    }
    proof {
        to_multiset_insert(values@, at as int, value);
    }
    let ghost before = values@;
    values.insert(at, value);
    proof {
        let after = values@;
        assert forall|i: int, j: int| 0 <= i <= j < after.len() implies after[i] >= after[j] by {
            if j < at {
                assert(after[i] == before[i] && after[j] == before[j]);
            } else if j == at {
                if i < at {
                    assert(after[i] == before[i]);
                }
            } else {
                assert(after[j] == before[j - 1]);
                if i < at {
                    assert(after[i] == before[i]);
                } else if i == at {
                    assert(before[at as int] < value);
                    assert(before[at as int] >= before[j - 1]);
                } else {
                    assert(after[i] == before[i - 1]);
                }
            }
        }
    }
}

/// The values in descending order.
pub fn sorted_descending(values: &Vec<usize>) -> (sorted: Vec<usize>)
    ensures
        descending(sorted@),
        sorted@.to_multiset() == values@.to_multiset(),
{
    let mut sorted: Vec<usize> = Vec::new();
    let mut i: usize = 0;
    assert(values@.take(0) =~= Seq::<usize>::empty());
    while i < values.len()
        invariant
            i <= values@.len(),
            descending(sorted@),
            sorted@.to_multiset() == values@.take(i as int).to_multiset(),
        decreases values@.len() - i,
    {
        proof {
            assert(values@.take(i + 1) == values@.take(i as int).push(values@[i as int]));
            to_multiset_build(values@.take(i as int), values@[i as int]);
        }
        insert_descending(&mut sorted, values[i]);
        i += 1;
    }
    assert(values@.take(i as int) == values@);
    sorted
}

impl Puzzle {
    /// Reads the calories from their text: one number on each line, the
    /// elves parted by single empty lines.  The sums of the elves are kept
    /// in descending order.  A text that holds anything else is refused and
    /// leaves the puzzle as it was.
    pub fn configure(&mut self, text: &str) -> (done: Result<(), Malformed>)
        ensures
            match done {
                Ok(_) => {
                    &&& sums_of(lines(text.spec_bytes())) matches Some(sums)
                    &&& final(self).calories@.to_multiset() == sums.to_multiset()
                    &&& descending(final(self).calories@)
                    &&& final(self).calories@.len() >= 1
                },
                Err(e) => {
                    &&& sums_of(lines(text.spec_bytes())) is None
                    &&& *final(self) == *old(self)
                    &&& e == Malformed::InvalidFormat
                },
            },
    {
        let found = split_lines(text.as_bytes());
        let ghost all = lines(text.spec_bytes());
        let mut sums: Vec<usize> = Vec::new();
        let mut current: Option<usize> = None;
        let mut i: usize = 0;
        while i < found.len()
            invariant
                i <= found@.len(),
                rows(found@) == all,
                all == lines(text.spec_bytes()),
                *self == *old(self),
                tallied(all, i as int) == Some(Tally { sums: sums@, current }),
            decreases found@.len() - i,
        {
            let line = &found[i];
            assert(all[i as int] == line@);
            assert(line@.subrange(0, line@.len() as int) == line@);
            if line.len() == 0 {
                match current {
                    Some(sum) => {
                        sums.push(sum);
                        current = None;
                    },
                    None => {
                        proof {
                            lemma_tally_stops(all, i + 1, all.len() as int);
                        }
                        return Err(Malformed::InvalidFormat);
                    },
                }
            } else {
                let so_far: usize = match current {
                    Some(sum) => sum,
                    None => 0,
                };
                match read_number(line, 0, line.len()) {
                    Some(value) => {
                        if value > usize::MAX - so_far {
                            proof {
                                lemma_tally_stops(all, i + 1, all.len() as int);
                            }
                            return Err(Malformed::InvalidFormat);
                        }
                        current = Some(so_far + value);
                    },
                    None => {
                        proof {
                            lemma_tally_stops(all, i + 1, all.len() as int);
                        }
                        return Err(Malformed::InvalidFormat);
                    },
                }
            }
            i += 1;
        }
        match current {
            Some(sum) => {
                sums.push(sum);
                let sorted = sorted_descending(&sums);
                proof {
                    sorted@.to_multiset_ensures();
                    sums@.to_multiset_ensures();
                }
                self.calories = sorted;
                Ok(())
            },
            None => Err(Malformed::InvalidFormat),
        }
    }

    /// No elf yet.
    pub fn new() -> (p: Puzzle)
        ensures
            p.calories@.len() == 0,
    {
        Puzzle { calories: Vec::new() }
    }

    /// The calories of the elf that carries most: the first of a descending
    /// row, which no other exceeds.
    pub fn part1(&self) -> (most: usize)
        requires
            self.calories@.len() >= 1,
        ensures
            most == self.calories@[0],
            descending(self.calories@) ==> forall|i: int|
                0 <= i < self.calories@.len() ==> self.calories@[i] <= most,
    {
        self.calories[0]
    }

    /// The calories of the first three elves together.
    pub fn part2(&self) -> (sum: usize)
        requires
            self.calories@.len() >= 3,
            self.calories@[0] + self.calories@[1] + self.calories@[2] <= usize::MAX,
        ensures
            sum == self.calories@[0] + self.calories@[1] + self.calories@[2],
    {
        self.calories[0] + self.calories[1] + self.calories[2]
    }
}

} // verus!
