//! A strategy guide for rock, paper, scissors, and the score it earns.
use vstd::prelude::*;
use vstd::string::StringSliceAdditionalSpecFns;
use crate::text::{records, rows, split_records, Malformed};

verus! {

/// The value of rock.
pub const VALUE_ROCK: u32 = 1;

/// The value of paper.
pub const VALUE_PAPER: u32 = 2;

/// The value of scissors.
pub const VALUE_SCISSORS: u32 = 3;

/// The second column where the round is to be lost.
pub const SHOULD_LOSE: u32 = 1;

/// The second column where the round is to be drawn.
pub const SHOULD_DRAW: u32 = 2;

/// The score of a draw.
pub const ROUND_OUTCOME_DRAW: u32 = 3;

/// The score of a win.
pub const ROUND_OUTCOME_WIN: u32 = 6;

/// The rounds of the guide: the opponent's shape and the second column,
/// each from 1 to 3.
pub struct Puzzle {
    pub guide: Vec<(u32, u32)>,
}

/// Whether both entries of a round are between 1 and 3.
pub open spec fn is_round(round: (u32, u32)) -> bool {
    1 <= round.0 <= 3 && 1 <= round.1 <= 3
}

/// Every entry of the guide is a round.
pub open spec fn all_rounds(guide: Seq<(u32, u32)>) -> bool {
    forall|i: int| 0 <= i < guide.len() ==> is_round(#[trigger] guide[i])
}

/// The score of a round where the second column is the shape to play: the
/// value of the shape, and 6 for a win or 3 for a draw.  A shape beats the
/// shape one below it, and rock beats scissors.
pub open spec fn shape_score(round: (u32, u32)) -> int {
    let (opponent, you) = round;
    you + (if opponent + 1 == you || you + 2 == opponent {
        6int
    } else if opponent == you {
        3int
    } else {
        0int
    })
}

/// The score of a round where the second column is the outcome to reach:
/// 1 to lose, 2 to draw, 3 to win.
pub open spec fn outcome_score(round: (u32, u32)) -> int {
    let (opponent, you) = round;
    if you == SHOULD_LOSE {
        if opponent == VALUE_ROCK {
            3int
        } else {
            opponent - 1
        }
    } else if you == SHOULD_DRAW {
        3 + opponent
    } else {
        6 + (if opponent == VALUE_SCISSORS {
            1int
        } else {
            opponent + 1
        })
    }
}

/// The score of the first `upto` rounds, each by `score`.
pub open spec fn total(guide: Seq<(u32, u32)>, score: spec_fn((u32, u32)) -> int, upto: int) -> int
    decreases upto,
{
    if upto <= 0 {
        0
    } else {
        total(guide, score, upto - 1) + score(guide[upto - 1])
    }
}

/// The round that a line of the guide stands for: `A`, `B` or `C` for the
/// opponent's rock, paper or scissors, a blank, and `X`, `Y` or `Z` for
/// one, two or three.
pub open spec fn round_of(line: Seq<u8>) -> Option<(u32, u32)> {
    if line.len() == 3 && 65 <= line[0] <= 67 && line[1] == 32 && 88 <= line[2] <= 90 {
        Some(((line[0] - 64) as u32, (line[2] - 87) as u32))
    } else {
        None
    }
}

/// The guide that the lines stand for, where each of them is a round.
pub open spec fn guide_of(lines: Seq<Seq<u8>>) -> Option<Seq<(u32, u32)>> {
    if forall|i: int| 0 <= i < lines.len() ==> round_of(lines[i]) is Some {
        Some(Seq::new(lines.len(), |i: int| round_of(lines[i])->0))
    } else {
        None
    }
}

/// Reads one line of the guide.
pub fn read_round(line: &Vec<u8>) -> (round: Option<(u32, u32)>)
    ensures
        round == round_of(line@),
{
    if line.len() == 3 && 65 <= line[0] && line[0] <= 67 && line[1] == 32 && 88 <= line[2]
        && line[2] <= 90 {
        Some(((line[0] - 64) as u32, (line[2] - 87) as u32))
    } else {
        None
    }
}

impl Puzzle {
    /// Reads the guide from its text, one round on each line.  A text that
    /// holds anything else is refused and leaves the guide as it was.
    pub fn configure(&mut self, text: &str) -> (done: Result<(), Malformed>)
        ensures
            match done {
                Ok(_) => guide_of(records(text.spec_bytes())) == Some(final(self).guide@)
                    && all_rounds(final(self).guide@),
                Err(e) => guide_of(records(text.spec_bytes())) is None && *final(self) == *old(
                    self,
                ) && e == Malformed::InvalidFormat,
            },
    {
        let lines = split_records(text.as_bytes());
        let ghost all = records(text.spec_bytes());
        let mut guide: Vec<(u32, u32)> = Vec::new();
        let mut i: usize = 0;
        while i < lines.len()
            invariant
                i <= lines@.len(),
                rows(lines@) == all,
                all == records(text.spec_bytes()),
                *self == *old(self),
                guide@.len() == i,
                forall|k: int| 0 <= k < i ==> round_of(all[k]) == Some(#[trigger] guide@[k]),
            decreases lines@.len() - i,
        {
            assert(all[i as int] == lines@[i as int]@);
            match read_round(&lines[i]) {
                Some(round) => {
                    guide.push(round);
                },
                None => {
                    assert(round_of(all[i as int]) is None);
                    return Err(Malformed::InvalidFormat);
                },
            }
            i += 1;
        }
        proof {
            assert forall|k: int| 0 <= k < all.len() implies round_of(all[k]) is Some by {
                assert(round_of(all[k]) == Some(guide@[k]));
            }
            assert forall|k: int| 0 <= k < all.len() implies guide@[k] == round_of(all[k])->0 by {
                assert(round_of(all[k]) == Some(guide@[k]));
            }
            assert(guide@ =~= guide_of(all)->0);
            assert forall|k: int| 0 <= k < guide@.len() implies is_round(#[trigger] guide@[k]) by {
                assert(round_of(all[k]) == Some(guide@[k]));
            }
        }
        self.guide = guide;
        Ok(())
    }

    /// An empty guide.
    pub fn new() -> (p: Puzzle)
        ensures
            p.guide@.len() == 0,
    {
        Puzzle { guide: Vec::new() }
    }

    /// The score of the guide where the second column is the shape to play.
    pub fn part1(&self) -> (score: u32)
        requires
            all_rounds(self.guide@),
            9 * self.guide@.len() <= u32::MAX,
        ensures
            score == total(self.guide@, |r: (u32, u32)| shape_score(r), self.guide@.len() as int),
    {
        let ghost by_shape = |r: (u32, u32)| shape_score(r);
        let mut result: u32 = 0;
        let mut i: usize = 0;
        while i < self.guide.len()
            invariant
                i <= self.guide@.len(),
                all_rounds(self.guide@),
                9 * self.guide@.len() <= u32::MAX,
                by_shape == (|r: (u32, u32)| shape_score(r)),
                result == total(self.guide@, by_shape, i as int),
                result <= 9 * i,
            decreases self.guide@.len() - i,
        {
            let (opponent, you) = self.guide[i];
            assert(is_round(self.guide@[i as int]));
            result += you;
            if opponent + 1 == you || you + 2 == opponent {
                result += ROUND_OUTCOME_WIN;
            } else if opponent == you {
                result += ROUND_OUTCOME_DRAW;
            }
            i += 1;
        }
        result
    }

    /// The score of the guide where the second column is the outcome to
    /// reach.
    pub fn part2(&self) -> (score: u32)
        requires
            all_rounds(self.guide@),
            9 * self.guide@.len() <= u32::MAX,
        ensures
            score == total(
                self.guide@,
                |r: (u32, u32)| outcome_score(r),
                self.guide@.len() as int,
            ),
    {
        let ghost by_outcome = |r: (u32, u32)| outcome_score(r);
        let mut result: u32 = 0;
        let mut i: usize = 0;
        while i < self.guide.len()
            invariant
                i <= self.guide@.len(),
                all_rounds(self.guide@),
                9 * self.guide@.len() <= u32::MAX,
                by_outcome == (|r: (u32, u32)| outcome_score(r)),
                result == total(self.guide@, by_outcome, i as int),
                result <= 9 * i,
            decreases self.guide@.len() - i,
        {
            let (opponent, you) = self.guide[i];
            assert(is_round(self.guide@[i as int]));
            if you == SHOULD_LOSE {
                if opponent == VALUE_ROCK {
                    result += VALUE_SCISSORS;
                } else {
                    result += opponent - 1;
                }
            } else if you == SHOULD_DRAW {
                result += ROUND_OUTCOME_DRAW + opponent;
            } else {
                result += ROUND_OUTCOME_WIN;
                if opponent == VALUE_SCISSORS {
                    result += VALUE_ROCK;
                } else {
                    result += opponent + 1;
                }
            }
            i += 1;
        }
        result
    }
}

} // verus!
