//! Rucksacks: the item that two compartments, or three rucksacks, share.
use vstd::prelude::*;
use vstd::string::StringSliceAdditionalSpecFns;
use crate::text::{records, rows, split_records, Malformed};

verus! {

/// Whether `c` is a letter, lower case or upper case.
pub open spec fn is_item(c: char) -> bool {
    ('a' <= c && c <= 'z') || ('A' <= c && c <= 'Z')
}

/// The priority of an item: 1 to 26 for `a` to `z`, 27 to 52 for `A` to `Z`.
pub open spec fn priority(c: char) -> int {
    if 'A' <= c && c <= 'Z' {
        27 + (c as u32 - 'A' as u32)
    } else {
        1 + (c as u32 - 'a' as u32)
    }
}

/// The first item of `items` that occurs in both `second` and `third`.
pub open spec fn first_shared(items: Seq<char>, second: Seq<char>, third: Seq<char>) -> Option<
    char,
>
    decreases items.len(),
{
    if items.len() == 0 {
        None
    } else if second.contains(items[0]) && third.contains(items[0]) {
        Some(items[0])
    } else {
        first_shared(items.drop_first(), second, third)
    }
}

/// The priority of the shared item, nothing where no item is shared.
pub open spec fn shared_priority(found: Option<char>) -> int {
    match found {
        Some(c) => priority(c),
        None => 0,
    }
}

/// The item that the two halves of a rucksack share.
pub open spec fn misplaced(rucksack: Seq<char>) -> Option<char> {
    let half = (rucksack.len() / 2) as int;
    let second = rucksack.skip(half);
    first_shared(rucksack.take(half), second, second)
}

/// The sum of the priorities of the misplaced items of the first `upto`
/// rucksacks.
pub open spec fn misplaced_sum(rucksacks: Seq<Vec<char>>, upto: int) -> int
    decreases upto,
{
    if upto <= 0 {
        0
    } else {
        misplaced_sum(rucksacks, upto - 1) + shared_priority(misplaced(rucksacks[upto - 1]@))
    }
}

/// The sum of the priorities of the badges of the first `groups` groups of
/// three rucksacks.
pub open spec fn badge_sum(rucksacks: Seq<Vec<char>>, groups: int) -> int
    decreases groups,
{
    if groups <= 0 {
        0
    } else {
        badge_sum(rucksacks, groups - 1) + shared_priority(
            first_shared(
                rucksacks[3 * (groups - 1)]@,
                rucksacks[3 * (groups - 1) + 1]@,
                rucksacks[3 * (groups - 1) + 2]@,
            ),
        )
    }
}

/// Every item of every rucksack is a letter.
pub open spec fn all_items(rucksacks: Seq<Vec<char>>) -> bool {
    forall|i: int, j: int|
        0 <= i < rucksacks.len() && 0 <= j < rucksacks[i]@.len() ==> is_item(
            #[trigger] rucksacks[i]@[j],
        )
}

/// A priority is at most 52.
pub proof fn lemma_priority_range(c: char)
    requires
        is_item(c),
    ensures
        1 <= priority(c) <= 52,
{
}

/// The shared item, where there is one, is one of the items looked through.
pub proof fn lemma_first_shared_is_item(items: Seq<char>, second: Seq<char>, third: Seq<char>)
    requires
        forall|j: int| 0 <= j < items.len() ==> is_item(#[trigger] items[j]),
    ensures
        0 <= shared_priority(first_shared(items, second, third)) <= 52,
    decreases items.len(),
{
    if items.len() > 0 && !(second.contains(items[0]) && third.contains(items[0])) {
        let rest = items.drop_first();
        assert forall|j: int| 0 <= j < rest.len() implies is_item(#[trigger] rest[j]) by {
            assert(rest[j] == items[j + 1]);
        }
        lemma_first_shared_is_item(rest, second, third);
    } else if items.len() > 0 {
        assert(is_item(items[0]));
    }
}

/// Whether `c` occurs in `items` from place `from` on.
pub fn holds(items: &Vec<char>, from: usize, c: char) -> (found: bool)
    requires
        from <= items@.len(),
    ensures
        found == items@.skip(from as int).contains(c),
{
    let mut i: usize = from;
    while i < items.len()
        invariant
            from <= i <= items@.len(),
            forall|j: int| from <= j < i ==> items@[j] != c,
        decreases items@.len() - i,
    {
        if items[i] == c {
            assert(items@.skip(from as int)[i - from] == c);
            return true;
        }
        i += 1;
    }
    false
}

/// The first of the first `upto` items of `items` that occurs in `second`
/// from place `from` on and in `third`.
pub fn find_shared(
    items: &Vec<char>,
    upto: usize,
    second: &Vec<char>,
    from: usize,
    third: &Vec<char>,
    third_from: usize,
) -> (found: Option<char>)
    requires
        upto <= items@.len(),
        from <= second@.len(),
        third_from <= third@.len(),
    ensures
        found == first_shared(
            items@.take(upto as int),
            second@.skip(from as int),
            third@.skip(third_from as int),
        ),
{
    let mut i: usize = 0;
    let ghost all = items@.take(upto as int);
    let ghost two = second@.skip(from as int);
    let ghost three = third@.skip(third_from as int);
    assert(all.skip(0) == all);
    while i < upto
        invariant
            i <= upto <= items@.len(),
            from <= second@.len(),
            third_from <= third@.len(),
            all == items@.take(upto as int),
            two == second@.skip(from as int),
            three == third@.skip(third_from as int),
            first_shared(all, two, three) == first_shared(all.skip(i as int), two, three),
        decreases upto - i,
    {
        let c = items[i];
        let ghost rest = all.skip(i as int);
        assert(rest[0] == c);
        assert(rest.drop_first() == all.skip(i + 1));
        if holds(second, from, c) && holds(third, third_from, c) {
            return Some(c);
        }
        i += 1;
    }
    None
}

/// The rucksacks, each a list of items.
pub struct Puzzle {
    pub rucksacks: Vec<Vec<char>>,
}

/// Whether a byte is a letter.
pub open spec fn is_letter(b: u8) -> bool {
    (97 <= b <= 122) || (65 <= b <= 90)
}

/// The rucksack that a line stands for: its letters as items, where it
/// holds letters only.
pub open spec fn sack_of(line: Seq<u8>) -> Option<Seq<char>> {
    if forall|j: int| 0 <= j < line.len() ==> is_letter(line[j]) {
        Some(Seq::new(line.len(), |j: int| line[j] as char))
    } else {
        None
    }
}

/// Reads one rucksack.
pub fn read_sack(line: &Vec<u8>) -> (sack: Option<Vec<char>>)
    ensures
        match sack {
            Some(items) => sack_of(line@) == Some(items@),
            None => sack_of(line@) is None,
        },
{
    let mut items: Vec<char> = Vec::new();
    let mut j: usize = 0;
    while j < line.len()
        invariant
            j <= line@.len(),
            items@.len() == j,
            forall|k: int| 0 <= k < j ==> is_letter(#[trigger] line@[k]),
            forall|k: int| 0 <= k < j ==> #[trigger] items@[k] == line@[k] as char,
        decreases line@.len() - j,
    {
        let b: u8 = line[j];
        if (97 <= b && b <= 122) || (65 <= b && b <= 90) {
            let c: char = b as char;
            items.push(c);
            assert(items@[j as int] == line@[j as int] as char);
        } else {
            assert(!is_letter(line@[j as int]));
            return None;
        }
        j += 1;
    }
    assert(sack_of(line@) is Some);
    assert(items@ =~= sack_of(line@)->0);
    Some(items)
}

impl Puzzle {
    /// Reads the rucksacks from their text, one on each line.  A text that
    /// holds anything but letters is refused and leaves the puzzle as it
    /// was.
    pub fn configure(&mut self, text: &str) -> (done: Result<(), Malformed>)
        ensures
            match done {
                Ok(_) => {
                    &&& final(self).rucksacks@.len() == records(text.spec_bytes()).len()
                    &&& forall|i: int|
                        0 <= i < final(self).rucksacks@.len() ==> sack_of(
                            records(text.spec_bytes())[i],
                        ) == Some((#[trigger] final(self).rucksacks@[i])@)
                    &&& all_items(final(self).rucksacks@)
                },
                Err(e) => {
                    &&& exists|i: int|
                        0 <= i < records(text.spec_bytes()).len() && sack_of(
                            #[trigger] records(text.spec_bytes())[i],
                        ) is None
                    &&& *final(self) == *old(self)
                    &&& e == Malformed::InvalidFormat
                },
            },
    {
        let lines = split_records(text.as_bytes());
        let ghost all = records(text.spec_bytes());
        let mut rucksacks: Vec<Vec<char>> = Vec::new();
        let mut i: usize = 0;
        while i < lines.len()
            invariant
                i <= lines@.len(),
                rows(lines@) == all,
                all == records(text.spec_bytes()),
                *self == *old(self),
                rucksacks@.len() == i,
                forall|k: int| 0 <= k < i ==> sack_of(all[k]) == Some((#[trigger] rucksacks@[k])@),
            decreases lines@.len() - i,
        {
            assert(all[i as int] == lines@[i as int]@);
            match read_sack(&lines[i]) {
                Some(sack) => {
                    rucksacks.push(sack);
                },
                None => {
                    assert(sack_of(all[i as int]) is None);
                    return Err(Malformed::InvalidFormat);
                },
            }
            i += 1;
        }
        proof {
            assert forall|a: int, b: int|
                0 <= a < rucksacks@.len() && 0 <= b < rucksacks@[a]@.len() implies is_item(
                #[trigger] rucksacks@[a]@[b],
            ) by {
                assert(sack_of(all[a]) == Some(rucksacks@[a]@));
                assert(is_letter(all[a][b]));
            }
        }
        self.rucksacks = rucksacks;
        Ok(())
    }

    /// No rucksack yet.
    pub fn new() -> (p: Puzzle)
        ensures
            p.rucksacks@.len() == 0,
    {
        Puzzle { rucksacks: Vec::new() }
    }

    /// The priority of an item.
    pub fn char_to_priority(c: char) -> (p: u32)
        requires
            ('a' <= c && c <= 'z') || ('A' <= c && c <= 'Z'),
        ensures
            p == (if 'A' <= c && c <= 'Z' {
                27 + (c as u32 - 'A' as u32)
            } else {
                1 + (c as u32 - 'a' as u32)
            }),
            p == priority(c),
    {
        if 'A' <= c && c <= 'Z' {
            27 + (c as u32 - 'A' as u32)
        } else {
            1 + (c as u32 - 'a' as u32)
        }
    }

    /// The sum of the priorities of the items that the two halves of each
    /// rucksack share.
    pub fn part1(&self) -> (sum: u32)
        requires
            all_items(self.rucksacks@),
            52 * self.rucksacks@.len() <= u32::MAX,
        ensures
            sum == misplaced_sum(self.rucksacks@, self.rucksacks@.len() as int),
    {
        let mut result: u32 = 0;
        let mut i: usize = 0;
        while i < self.rucksacks.len()
            invariant
                i <= self.rucksacks@.len(),
                all_items(self.rucksacks@),
                52 * self.rucksacks@.len() <= u32::MAX,
                result == misplaced_sum(self.rucksacks@, i as int),
                result <= 52 * i,
            decreases self.rucksacks@.len() - i,
        {
            let rucksack = &self.rucksacks[i];
            let half: usize = rucksack.len() / 2;
            proof {
                let first = rucksack@.take(half as int);
                assert forall|j: int| 0 <= j < first.len() implies is_item(#[trigger] first[j]) by {
                    assert(first[j] == self.rucksacks@[i as int]@[j]);
                }
                let second = rucksack@.skip(half as int);
                lemma_first_shared_is_item(first, second, second);
            }
            if let Some(c) = find_shared(rucksack, half, rucksack, half, rucksack, half) {
                proof {
                    let first = rucksack@.take(half as int);
                    let second = rucksack@.skip(half as int);
                    lemma_found_is_item(first, second, second);
                }
                result += Puzzle::char_to_priority(c);
            }
            i += 1;
        }
        result
    }

    /// The sum of the priorities of the items that the three rucksacks of
    /// each group share.
    pub fn part2(&self) -> (sum: u32)
        requires
            all_items(self.rucksacks@),
            self.rucksacks@.len() % 3 == 0,
            52 * self.rucksacks@.len() <= u32::MAX,
        ensures
            sum == badge_sum(self.rucksacks@, self.rucksacks@.len() as int / 3),
    {
        let mut result: u32 = 0;
        let mut g: usize = 0;
        let groups: usize = self.rucksacks.len() / 3;
        while g < groups
            invariant
                g <= groups,
                groups == self.rucksacks@.len() / 3,
                self.rucksacks@.len() % 3 == 0,
                all_items(self.rucksacks@),
                52 * self.rucksacks@.len() <= u32::MAX,
                result == badge_sum(self.rucksacks@, g as int),
                result <= 52 * g,
            decreases groups - g,
        {
            let first = &self.rucksacks[3 * g];
            let second = &self.rucksacks[3 * g + 1];
            let third = &self.rucksacks[3 * g + 2];
            proof {
                assert forall|j: int| 0 <= j < first@.len()
                    implies is_item(#[trigger] first@[j]) by {
                    assert(first@[j] == self.rucksacks@[3 * g]@[j]);
                }
                lemma_first_shared_is_item(first@, second@, third@);
                assert(first@.take(first@.len() as int) == first@);
                assert(second@.skip(0) == second@);
                assert(third@.skip(0) == third@);
            }
            if let Some(c) = find_shared(first, first.len(), second, 0, third, 0) {
                proof {
                    lemma_found_is_item(first@, second@, third@);
                }
                result += Puzzle::char_to_priority(c);
            }
            g += 1;
        }
        result
    }
}

/// The shared item is one of the items looked through.
pub proof fn lemma_found_is_item(items: Seq<char>, second: Seq<char>, third: Seq<char>)
    requires
        forall|j: int| 0 <= j < items.len() ==> is_item(#[trigger] items[j]),
    ensures
        first_shared(items, second, third) matches Some(c) ==> is_item(c),
    decreases items.len(),
{
    if items.len() > 0 && !(second.contains(items[0]) && third.contains(items[0])) {
        let rest = items.drop_first();
        assert forall|j: int| 0 <= j < rest.len() implies is_item(#[trigger] rest[j]) by {
            assert(rest[j] == items[j + 1]);
        }
        lemma_found_is_item(rest, second, third);
    } else if items.len() > 0 {
        assert(is_item(items[0]));
    }
}

} // verus!
