//! Monkeys that inspect items and throw them to one another.
use vstd::prelude::*;
use vstd::string::StringSliceAdditionalSpecFns;
use crate::text::{
    digits_end, has_word, is_number, lines, read_number, rows, skip_digits, split_lines, value_of,
    word_at, Malformed,
};

verus! {

/// A monkey: the items it holds, how it raises the worry of an item, and to
/// whom it throws.
pub struct Monkey {
    pub items: Vec<u64>,
    pub multiply: bool,
    pub worry_operand: Option<u64>,
    pub divisibility: u64,
    pub true_to: usize,
    pub false_to: usize,
}

/// The worry of an item after the monkey has looked at it: the old worry
/// times or plus the operand, which is the old worry itself where the
/// monkey has none.
pub open spec fn raised(monkey: &Monkey, old_worry: u64) -> int {
    let operand = match monkey.worry_operand {
        Some(value) => value,
        None => old_worry,
    };
    if monkey.multiply {
        old_worry * operand
    } else {
        old_worry + operand
    }
}

impl Monkey {
    /// A monkey that holds nothing and adds the old worry.
    pub fn new() -> (m: Monkey)
        ensures
            m.items@.len() == 0,
            !m.multiply,
            m.worry_operand is None,
            m.divisibility == 0,
            m.true_to == 0,
            m.false_to == 0,
    {
        Monkey {
            items: Vec::new(),
            multiply: false,
            worry_operand: None,
            divisibility: 0,
            true_to: 0,
            false_to: 0,
        }
    }

    /// Inspects an item: returns its new worry, divided by three where
    /// `divide` is set, and the monkey that gets it.
    pub fn inspect_and_throw(&self, old_worry: u64, divide: bool) -> (thrown: (u64, usize))
        requires
            self.divisibility != 0,
            raised(self, old_worry) <= u64::MAX,
        ensures
            thrown.0 == (if divide {
                raised(self, old_worry) / 3
            } else {
                raised(self, old_worry)
            }),
            thrown.1 == (if thrown.0 % self.divisibility == 0 {
                self.true_to
            } else {
                self.false_to
            }),
    {
        let val: u64 = match self.worry_operand {
            Some(value) => value,
            None => old_worry,
        };
        let mut new: u64 = if self.multiply {
            old_worry * val
        } else {
            old_worry + val
        };
        if divide {
            new = new / 3;
        }
        let to: usize = if new % self.divisibility == 0 {
            self.true_to
        } else {
            self.false_to
        };
        (new, to)
    }
}

/// The monkeys of the puzzle, in the order in which they take turns.
pub struct Puzzle {
    pub monkeys: Vec<Monkey>,
}

/// What the monkeys hold and how often each has inspected an item; `fits`
/// says that every number so far fitted into 64 bits.
pub struct Troop {
    pub items: Seq<Seq<u64>>,
    pub inspections: Seq<int>,
    pub fits: bool,
}

/// Every monkey tests by a divisor other than zero and throws to another
/// monkey of the troop.
pub open spec fn targets_inside(monkeys: Seq<Monkey>) -> bool {
    forall|i: int|
        0 <= i < monkeys.len() ==> {
            &&& (#[trigger] monkeys[i]).divisibility != 0
            &&& monkeys[i].true_to < monkeys.len()
            &&& monkeys[i].false_to < monkeys.len()
            &&& monkeys[i].true_to != i
            &&& monkeys[i].false_to != i
        }
}

/// The product of the divisors of the first `upto` monkeys.
pub open spec fn modulus(monkeys: Seq<Monkey>, upto: int) -> int
    decreases upto,
{
    if upto <= 0 {
        1
    } else {
        modulus(monkeys, upto - 1) * monkeys[upto - 1].divisibility
    }
}

/// The worry with which an item is thrown.
pub open spec fn thrown_worry(monkey: &Monkey, old_worry: u64, divide: bool) -> int {
    if divide {
        raised(monkey, old_worry) / 3
    } else {
        raised(monkey, old_worry)
    }
}

/// The monkey that gets an item of this worry.
pub open spec fn target(monkey: &Monkey, worry: int) -> int {
    if worry % (monkey.divisibility as int) == 0 {
        monkey.true_to as int
    } else {
        monkey.false_to as int
    }
}

/// The worry with which an item arrives: as thrown where worries are
/// divided, else its remainder by the product of all divisors.
pub open spec fn kept(worry: int, divide: bool, product: int) -> int {
    if divide {
        worry
    } else {
        worry % product
    }
}

/// Monkey `from` inspects the item it got last and throws it.
pub open spec fn throw_one(
    monkeys: Seq<Monkey>,
    troop: Troop,
    from: int,
    divide: bool,
    product: int,
) -> Troop {
    let old_worry = troop.items[from].last();
    let worry = thrown_worry(&monkeys[from], old_worry, divide);
    let to = target(&monkeys[from], worry);
    let held = troop.items.update(from, troop.items[from].drop_last());
    Troop {
        items: held.update(to, held[to].push(kept(worry, divide, product) as u64)),
        inspections: troop.inspections.update(from, troop.inspections[from] + 1),
        fits: troop.fits && raised(&monkeys[from], old_worry) <= u64::MAX
            && troop.inspections[from] + 1 <= u64::MAX,
    }
}

/// Monkey `from` inspects and throws every item that it holds, the one it
/// got last first.
pub open spec fn throw_all(
    monkeys: Seq<Monkey>,
    troop: Troop,
    from: int,
    divide: bool,
    product: int,
) -> Troop
    decreases troop.items[from].len(),
{
    if !(0 <= from < monkeys.len()) || troop.items.len() != monkeys.len() || !targets_inside(
        monkeys,
    ) || troop.items[from].len() == 0 {
        troop
    } else {
        throw_all(monkeys, throw_one(monkeys, troop, from, divide, product), from, divide, product)
    }
}

/// The monkeys from `from` on take their turns, one after the other.
pub open spec fn turns_from(
    monkeys: Seq<Monkey>,
    troop: Troop,
    from: int,
    divide: bool,
    product: int,
) -> Troop
    decreases monkeys.len() - from,
{
    if from < 0 || from >= monkeys.len() {
        troop
    } else {
        turns_from(
            monkeys,
            throw_all(monkeys, troop, from, divide, product),
            from + 1,
            divide,
            product,
        )
    }
}

/// The troop after `rounds` more rounds.
pub open spec fn rounds_left(
    monkeys: Seq<Monkey>,
    troop: Troop,
    rounds: int,
    divide: bool,
    product: int,
) -> Troop
    decreases rounds,
{
    if rounds <= 0 {
        troop
    } else {
        rounds_left(
            monkeys,
            turns_from(monkeys, troop, 0, divide, product),
            rounds - 1,
            divide,
            product,
        )
    }
}

/// The troop before the first round.
pub open spec fn at_start(monkeys: Seq<Monkey>) -> Troop {
    Troop {
        items: Seq::new(monkeys.len(), |i: int| monkeys[i].items@),
        inspections: Seq::new(monkeys.len(), |i: int| 0int),
        fits: true,
    }
}

/// The troop after all rounds.
pub open spec fn at_end(monkeys: Seq<Monkey>, rounds: u32, divide: bool) -> Troop {
    rounds_left(
        monkeys,
        at_start(monkeys),
        rounds as int,
        divide,
        modulus(monkeys, monkeys.len() as int),
    )
}

/// The largest and the second largest of the first `upto` counts.
pub open spec fn best_two(counts: Seq<int>, upto: int) -> (int, int)
    decreases upto,
{
    if upto <= 0 {
        (0, 0)
    } else {
        let (first, second) = best_two(counts, upto - 1);
        let count = counts[upto - 1];
        if count >= first {
            (count, first)
        } else if count > second {
            (first, count)
        } else {
            (first, second)
        }
    }
}

/// The product of the two largest numbers of inspections after all rounds.
pub open spec fn business(monkeys: Seq<Monkey>, rounds: u32, divide: bool) -> int {
    let counts = at_end(monkeys, rounds, divide).inspections;
    let (first, second) = best_two(counts, counts.len() as int);
    first * second
}

/// No number that the rounds compute exceeds 64 bits: no raised worry, no
/// count of inspections, neither the product of the divisors nor the
/// result.
pub open spec fn no_overflow(monkeys: Seq<Monkey>, rounds: u32, divide: bool) -> bool {
    &&& at_end(monkeys, rounds, divide).fits
    &&& modulus(monkeys, monkeys.len() as int) <= u64::MAX
    &&& business(monkeys, rounds, divide) <= u64::MAX
}

/// What a troop is while monkeys throw: one list of items and one count
/// for each monkey, no count below zero.
pub open spec fn is_troop(monkeys: Seq<Monkey>, troop: Troop) -> bool {
    &&& troop.items.len() == monkeys.len()
    &&& troop.inspections.len() == monkeys.len()
    &&& forall|i: int| 0 <= i < troop.inspections.len() ==> troop.inspections[i] >= 0
}

/// A throw keeps a troop a troop.
pub proof fn lemma_throw_one(
    monkeys: Seq<Monkey>,
    troop: Troop,
    from: int,
    divide: bool,
    product: int,
)
    requires
        targets_inside(monkeys),
        is_troop(monkeys, troop),
        0 <= from < monkeys.len(),
        troop.items[from].len() > 0,
    ensures
        is_troop(monkeys, throw_one(monkeys, troop, from, divide, product)),
        throw_one(monkeys, troop, from, divide, product).items[from].len() + 1
            == troop.items[from].len(),
        throw_one(monkeys, troop, from, divide, product).fits ==> troop.fits,
{
}

/// A monkey's turn keeps a troop a troop, and what fitted at its end fitted
/// at its start.
pub proof fn lemma_throw_all(
    monkeys: Seq<Monkey>,
    troop: Troop,
    from: int,
    divide: bool,
    product: int,
)
    requires
        targets_inside(monkeys),
        is_troop(monkeys, troop),
        0 <= from < monkeys.len(),
    ensures
        is_troop(monkeys, throw_all(monkeys, troop, from, divide, product)),
        throw_all(monkeys, troop, from, divide, product).fits ==> troop.fits,
    decreases troop.items[from].len(),
{
    if troop.items[from].len() > 0 {
        lemma_throw_one(monkeys, troop, from, divide, product);
        lemma_throw_all(
            monkeys,
            throw_one(monkeys, troop, from, divide, product),
            from,
            divide,
            product,
        );
    }
}

/// The turns of a round keep a troop a troop, and what fitted at their end
/// fitted at their start.
pub proof fn lemma_turns_from(
    monkeys: Seq<Monkey>,
    troop: Troop,
    from: int,
    divide: bool,
    product: int,
)
    requires
        targets_inside(monkeys),
        is_troop(monkeys, troop),
        0 <= from <= monkeys.len(),
    ensures
        is_troop(monkeys, turns_from(monkeys, troop, from, divide, product)),
        turns_from(monkeys, troop, from, divide, product).fits ==> troop.fits,
    decreases monkeys.len() - from,
{
    if from < monkeys.len() {
        lemma_throw_all(monkeys, troop, from, divide, product);
        lemma_turns_from(
            monkeys,
            throw_all(monkeys, troop, from, divide, product),
            from + 1,
            divide,
            product,
        );
    }
}

/// What fitted after the rounds fitted before them.
pub proof fn lemma_rounds_left(
    monkeys: Seq<Monkey>,
    troop: Troop,
    rounds: int,
    divide: bool,
    product: int,
)
    requires
        targets_inside(monkeys),
        is_troop(monkeys, troop),
    ensures
        is_troop(monkeys, rounds_left(monkeys, troop, rounds, divide, product)),
        rounds_left(monkeys, troop, rounds, divide, product).fits ==> troop.fits,
    decreases rounds,
{
    if rounds > 0 {
        lemma_turns_from(monkeys, troop, 0, divide, product);
        lemma_rounds_left(
            monkeys,
            turns_from(monkeys, troop, 0, divide, product),
            rounds - 1,
            divide,
            product,
        );
    }
}

/// The product of divisors other than zero is at least one, and grows
/// with every monkey.
pub proof fn lemma_modulus(monkeys: Seq<Monkey>, upto: int)
    requires
        targets_inside(monkeys),
        0 <= upto <= monkeys.len(),
    ensures
        1 <= modulus(monkeys, upto),
        upto < monkeys.len() ==> modulus(monkeys, upto) <= modulus(monkeys, upto + 1),
        modulus(monkeys, upto) <= modulus(monkeys, monkeys.len() as int),
    decreases monkeys.len() - upto,
{
    if upto > 0 {
        lemma_modulus_positive(monkeys, upto);
    }
    if upto < monkeys.len() {
        lemma_modulus_positive(monkeys, upto);
        let d = monkeys[upto].divisibility as int;
        let m = modulus(monkeys, upto);
        assert(m <= m * d) by (nonlinear_arith)
            requires
                m >= 1,
                d >= 1,
        ;
        lemma_modulus(monkeys, upto + 1);
    }
}

/// The product of divisors other than zero is at least one.
pub proof fn lemma_modulus_positive(monkeys: Seq<Monkey>, upto: int)
    requires
        targets_inside(monkeys),
        0 <= upto <= monkeys.len(),
    ensures
        1 <= modulus(monkeys, upto),
    decreases upto,
{
    if upto > 0 {
        lemma_modulus_positive(monkeys, upto - 1);
        let d = monkeys[upto - 1].divisibility as int;
        let m = modulus(monkeys, upto - 1);
        assert(1 <= m * d) by (nonlinear_arith)
            requires
                m >= 1,
                d >= 1,
        ;
    }
}

/// The two largest counts are counts that are not negative, the second no
/// larger than the first.
pub proof fn lemma_best_two(counts: Seq<int>, upto: int)
    requires
        forall|i: int| 0 <= i < counts.len() ==> counts[i] >= 0,
        0 <= upto <= counts.len(),
    ensures
        0 <= best_two(counts, upto).1 <= best_two(counts, upto).0,
    decreases upto,
{
    if upto > 0 {
        lemma_best_two(counts, upto - 1);
    }
}

/// The items of every monkey as the troop holds them.
pub open spec fn held(items: Seq<Vec<u64>>) -> Seq<Seq<u64>> {
    Seq::new(items.len(), |i: int| items[i]@)
}

/// The counts as numbers.
pub open spec fn counted(inspections: Seq<u64>) -> Seq<int> {
    Seq::new(inspections.len(), |i: int| inspections[i] as int)
}

/// The words before the items of a monkey.
pub open spec fn word_items() -> Seq<u8> {
    seq![
        32u8, 32u8, 83u8, 116u8, 97u8, 114u8, 116u8, 105u8, 110u8, 103u8, 32u8, 105u8, 116u8,
        101u8, 109u8, 115u8, 58u8, 32u8,
    ]
}

/// The words before the sign of a monkey's operation.
pub open spec fn word_operation() -> Seq<u8> {
    seq![
        32u8, 32u8, 79u8, 112u8, 101u8, 114u8, 97u8, 116u8, 105u8, 111u8, 110u8, 58u8, 32u8,
        110u8, 101u8, 119u8, 32u8, 61u8, 32u8, 111u8, 108u8, 100u8, 32u8,
    ]
}

/// The words before the divisor of a monkey's test.
pub open spec fn word_test() -> Seq<u8> {
    seq![
        32u8, 32u8, 84u8, 101u8, 115u8, 116u8, 58u8, 32u8, 100u8, 105u8, 118u8, 105u8, 115u8,
        105u8, 98u8, 108u8, 101u8, 32u8, 98u8, 121u8, 32u8,
    ]
}

/// The words before the monkey that gets an item that passes the test.
pub open spec fn word_yes() -> Seq<u8> {
    seq![
        32u8, 32u8, 32u8, 32u8, 73u8, 102u8, 32u8, 116u8, 114u8, 117u8, 101u8, 58u8, 32u8, 116u8,
        104u8, 114u8, 111u8, 119u8, 32u8, 116u8, 111u8, 32u8, 109u8, 111u8, 110u8, 107u8, 101u8,
        121u8, 32u8,
    ]
}

/// The words before the monkey that gets an item that fails the test.
pub open spec fn word_no() -> Seq<u8> {
    seq![
        32u8, 32u8, 32u8, 32u8, 73u8, 102u8, 32u8, 102u8, 97u8, 108u8, 115u8, 101u8, 58u8, 32u8,
        116u8, 104u8, 114u8, 111u8, 119u8, 32u8, 116u8, 111u8, 32u8, 109u8, 111u8, 110u8, 107u8,
        101u8, 121u8, 32u8,
    ]
}

/// What the text says of one monkey.
pub struct Notes {
    pub items: Seq<u64>,
    pub multiply: bool,
    pub worry_operand: Option<u64>,
    pub divisibility: u64,
    pub true_to: usize,
    pub false_to: usize,
}

/// What a monkey holds of the notes.
pub open spec fn notes_of(monkey: Monkey) -> Notes {
    Notes {
        items: monkey.items@,
        multiply: monkey.multiply,
        worry_operand: monkey.worry_operand,
        divisibility: monkey.divisibility,
        true_to: monkey.true_to,
        false_to: monkey.false_to,
    }
}

/// The number that stands from `from` to the end of the line, where the
/// line starts with `word` and the number fits.
pub open spec fn number_behind(line: Seq<u8>, word: Seq<u8>) -> Option<int> {
    let digits = line.subrange(word.len() as int, line.len() as int);
    if word_at(line, 0, word) && is_number(digits) && value_of(digits) <= usize::MAX {
        Some(value_of(digits))
    } else {
        None
    }
}

/// The numbers that stand from `from` on, parted by a comma and a blank.
pub open spec fn listed_from(line: Seq<u8>, from: int) -> Option<Seq<u64>>
    decreases line.len() - from,
{
    let end = digits_end(line, from);
    let digits = line.subrange(from, end);
    if from < 0 || from >= line.len() || end < from || end > line.len() || !is_number(digits)
        || value_of(digits) > usize::MAX {
        None
    } else if end == line.len() {
        Some(seq![value_of(digits) as u64])
    } else if end + 2 <= line.len() && line[end] == 44 && line[end + 1] == 32 {
        match listed_from(line, end + 2) {
            Some(rest) => Some(seq![value_of(digits) as u64] + rest),
            None => None,
        }
    } else {
        None
    }
}

/// The operation that a line stands for: whether it multiplies, and its
/// operand, none where the operand is the old worry itself.
pub open spec fn operation_of(line: Seq<u8>) -> Option<(bool, Option<u64>)> {
    let n = word_operation().len() as int;
    let rest = line.subrange(n + 2, line.len() as int);
    if word_at(line, 0, word_operation()) && line.len() > n + 2 && (line[n] == 42 || line[n] == 43)
        && line[n + 1] == 32 {
        if rest == seq![111u8, 108u8, 100u8] {
            Some((line[n] == 42, None))
        } else if is_number(rest) && value_of(rest) <= usize::MAX {
            Some((line[n] == 42, Some(value_of(rest) as u64)))
        } else {
            None
        }
    } else {
        None
    }
}

/// The notes on the monkey whose six lines start at `base`.
pub open spec fn monkey_at(lines: Seq<Seq<u8>>, base: int) -> Option<Notes> {
    if 0 <= base && base + 5 < lines.len() && word_at(lines[base + 1], 0, word_items()) {
        match (
            listed_from(lines[base + 1], word_items().len() as int),
            operation_of(lines[base + 2]),
            number_behind(lines[base + 3], word_test()),
            number_behind(lines[base + 4], word_yes()),
            number_behind(lines[base + 5], word_no()),
        ) {
            (Some(items), Some((multiply, operand)), Some(divisor), Some(yes), Some(no)) => Some(
                Notes {
                    items,
                    multiply,
                    worry_operand: operand,
                    divisibility: divisor as u64,
                    true_to: yes as usize,
                    false_to: no as usize,
                },
            ),
            _ => None,
        }
    } else {
        None
    }
}

/// Whether the lines are notes on monkeys: six lines for each monkey and
/// an empty line between two monkeys.
pub open spec fn is_notes(lines: Seq<Seq<u8>>) -> bool {
    &&& (lines.len() + 1) % 7 == 0
    &&& forall|k: int|
        0 <= k < (lines.len() + 1) / 7 ==> (#[trigger] monkey_at(lines, 7 * k)) is Some
    &&& forall|k: int| 0 <= k && 7 * k + 6 < lines.len()
        ==> (#[trigger] lines[7 * k + 6]).len() == 0
}

/// Reads the number behind a word that starts the line.
pub fn read_behind(line: &Vec<u8>, word: &[u8]) -> (number: Option<usize>)
    ensures
        match number {
            Some(value) => number_behind(line@, word@) == Some(value as int),
            None => number_behind(line@, word@) is None,
        },
{
    if !has_word(line, 0, word) {
        return None;
    }
    read_number(line, word.len(), line.len())
}

/// Reads the numbers that stand from `from` on, parted by a comma and a
/// blank.
pub fn read_list(line: &Vec<u8>, from: usize) -> (items: Option<Vec<u64>>)
    requires
        from <= line@.len(),
    ensures
        match items {
            Some(items) => listed_from(line@, from as int) == Some(items@),
            None => listed_from(line@, from as int) is None,
        },
{
    let n: usize = line.len();
    let mut items: Vec<u64> = Vec::new();
    let mut at: usize = from;
    loop
        invariant
            from <= at <= n == line@.len(),
            match listed_from(line@, at as int) {
                Some(rest) => listed_from(line@, from as int) == Some(items@ + rest),
                None => listed_from(line@, from as int) is None,
            },
        decreases n - at,
    {
        if at >= n {
            return None;
        }
        let end: usize = skip_digits(line, at);
        let value: usize = match read_number(line, at, end) {
            Some(value) => value,
            None => {
                return None;
            },
        };
        let ghost before = items@;
        items.push(value as u64);
        if end == n {
            proof {
                assert(before + seq![value as u64] =~= items@);
            }
            return Some(items);
        }
        if !(n - end >= 2 && line[end] == 44 && line[end + 1] == 32) {
            return None;
        }
        proof {
            match listed_from(line@, end + 2) {
                Some(rest) => {
                    assert(before + (seq![value as u64] + rest) =~= items@ + rest);
                },
                None => {},
            }
        }
        at = end + 2;
    }
}

/// Reads the operation of a monkey.
pub fn read_operation(line: &Vec<u8>) -> (operation: Option<(bool, Option<u64>)>)
    ensures
        operation == operation_of(line@),
{
    let word_operation: [u8; 23] = [
        32, 32, 79, 112, 101, 114, 97, 116, 105, 111, 110, 58, 32, 110, 101, 119, 32, 61, 32,
        111, 108, 100, 32,
    ];
    assert(word_operation@ =~= self::word_operation());
    let n: usize = line.len();
    if !has_word(line, 0, word_operation.as_slice()) {
        return None;
    }
    if !(n > 25 && (line[23] == 42 || line[23] == 43) && line[24] == 32) {
        return None;
    }
    let multiply: bool = line[23] == 42;
    let old: [u8; 3] = [111, 108, 100];
    assert(old@ =~= seq![111u8, 108u8, 100u8]);
    if n == 28 && has_word(line, 25, old.as_slice()) {
        return Some((multiply, None));
    }
    proof {
        let rest = line@.subrange(25, n as int);
        if rest == seq![111u8, 108u8, 100u8] {
            assert(rest.len() == 3);
            assert(word_at(line@, 25, old@));
        }
        if is_number(rest) && rest == seq![111u8, 108u8, 100u8] {
            assert(rest[0] == 111u8);
        }
    }
    match read_number(line, 25, n) {
        Some(value) => Some((multiply, Some(value as u64))),
        None => None,
    }
}

impl Puzzle {
    /// Reads the monkeys from their notes: six lines for each monkey, an
    /// empty line between two monkeys.  A text that holds anything else is
    /// refused and leaves the puzzle as it was.
    pub fn configure(&mut self, text: &str) -> (done: Result<(), Malformed>)
        ensures
            match done {
                Ok(_) => {
                    let all = lines(text.spec_bytes());
                    &&& is_notes(all)
                    &&& final(self).monkeys@.len() == (all.len() + 1) / 7
                    &&& forall|k: int|
                        0 <= k < final(self).monkeys@.len() ==> monkey_at(all, 7 * k) == Some(
                            notes_of(#[trigger] final(self).monkeys@[k]),
                        )
                },
                Err(e) => !is_notes(lines(text.spec_bytes())) && *final(self) == *old(self) && e
                    == Malformed::InvalidFormat,
            },
    {
        let found = split_lines(text.as_bytes());
        let ghost all = lines(text.spec_bytes());
        let word_items: [u8; 18] = [
            32, 32, 83, 116, 97, 114, 116, 105, 110, 103, 32, 105, 116, 101, 109, 115, 58, 32,
        ];
        let word_test: [u8; 21] = [
            32, 32, 84, 101, 115, 116, 58, 32, 100, 105, 118, 105, 115, 105, 98, 108, 101, 32,
            98, 121, 32,
        ];
        let word_yes: [u8; 29] = [
            32, 32, 32, 32, 73, 102, 32, 116, 114, 117, 101, 58, 32, 116, 104, 114, 111, 119, 32,
            116, 111, 32, 109, 111, 110, 107, 101, 121, 32,
        ];
        let word_no: [u8; 30] = [
            32, 32, 32, 32, 73, 102, 32, 102, 97, 108, 115, 101, 58, 32, 116, 104, 114, 111, 119,
            32, 116, 111, 32, 109, 111, 110, 107, 101, 121, 32,
        ];
        assert(word_items@ =~= self::word_items());
        assert(word_test@ =~= self::word_test());
        assert(word_yes@ =~= self::word_yes());
        assert(word_no@ =~= self::word_no());
        let n: usize = found.len();
        if n % 7 != 6 {
            return Err(Malformed::InvalidFormat);
        }
        let count: usize = n / 7 + 1;
        let mut monkeys: Vec<Monkey> = Vec::new();
        let mut k: usize = 0;
        while k < count
            invariant
                k <= count,
                n == found@.len() == all.len(),
                n % 7 == 6,
                count == (n + 1) / 7,
                rows(found@) == all,
                all == lines(text.spec_bytes()),
                *self == *old(self),
                word_items@ == self::word_items(),
                word_test@ == self::word_test(),
                word_yes@ == self::word_yes(),
                word_no@ == self::word_no(),
                monkeys@.len() == k,
                forall|j: int|
                    0 <= j < k ==> monkey_at(all, 7 * j) == Some(notes_of(#[trigger] monkeys@[j])),
                forall|j: int| 0 <= j < k && 7 * j + 6 < n
                    ==> (#[trigger] all[7 * j + 6]).len() == 0,
            decreases count - k,
        {
            let base: usize = 7 * k;
            proof {
                assert(all[base + 1] == found@[base + 1]@);
                assert(all[base + 2] == found@[base + 2]@);
                assert(all[base + 3] == found@[base + 3]@);
                assert(all[base + 4] == found@[base + 4]@);
                assert(all[base + 5] == found@[base + 5]@);
            }
            if !has_word(&found[base + 1], 0, word_items.as_slice()) {
                assert(monkey_at(all, 7 * k) is None);
                return Err(Malformed::InvalidFormat);
            }
            let items = read_list(&found[base + 1], 18);
            let operation = read_operation(&found[base + 2]);
            let divisor = read_behind(&found[base + 3], word_test.as_slice());
            let yes = read_behind(&found[base + 4], word_yes.as_slice());
            let no = read_behind(&found[base + 5], word_no.as_slice());
            match (items, operation, divisor, yes, no) {
                (Some(items), Some((multiply, operand)), Some(divisor), Some(yes), Some(no)) => {
                    let mut monkey = Monkey::new();
                    monkey.items = items;
                    monkey.multiply = multiply;
                    monkey.worry_operand = operand;
                    monkey.divisibility = divisor as u64;
                    monkey.true_to = yes;
                    monkey.false_to = no;
                    monkeys.push(monkey);
                },
                _ => {
                    assert(monkey_at(all, 7 * k) is None);
                    return Err(Malformed::InvalidFormat);
                },
            }
            if base + 6 < n {
                assert(all[base + 6] == found@[base + 6]@);
                if found[base + 6].len() != 0 {
                    assert(all[7 * k + 6].len() != 0);
                    return Err(Malformed::InvalidFormat);
                }
            }
            k += 1;
        }
        proof {
            assert forall|j: int| 0 <= j < (all.len() + 1) / 7 implies (#[trigger] monkey_at(
                all,
                7 * j,
            )) is Some by {
                assert(monkey_at(all, 7 * j) == Some(notes_of(monkeys@[j])));
            }
            assert forall|j: int| 0 <= j && 7 * j + 6 < all.len() implies (#[trigger] all[7 * j
                + 6]).len() == 0 by {
                assert(j < k);
            }
        }
        self.monkeys = monkeys;
        Ok(())
    }

    /// No monkey yet.
    pub fn new() -> (p: Puzzle)
        ensures
            p.monkeys@.len() == 0,
    {
        Puzzle { monkeys: Vec::new() }
    }

    /// Lets the monkeys throw for `rounds` rounds and returns the product
    /// of the two largest numbers of inspections.
    pub fn monkey_business(&self, rounds: u32, divide: bool) -> (score: u64)
        requires
            self.monkeys@.len() >= 2,
            targets_inside(self.monkeys@),
            no_overflow(self.monkeys@, rounds, divide),
        ensures
            score == business(self.monkeys@, rounds, divide),
    {
        let n: usize = self.monkeys.len();
        let ghost ms = self.monkeys@;
        let mut items: Vec<Vec<u64>> = Vec::new();
        let mut inspections: Vec<u64> = Vec::new();
        let mut product: u64 = 1;
        let mut k: usize = 0;
        while k < n
            invariant
                k <= n == ms.len(),
                ms == self.monkeys@,
                targets_inside(ms),
                modulus(ms, n as int) <= u64::MAX,
                items@.len() == k,
                inspections@.len() == k,
                forall|i: int| 0 <= i < k ==> (#[trigger] items@[i])@ == ms[i].items@,
                forall|i: int| 0 <= i < k ==> inspections@[i] == 0,
                product == modulus(ms, k as int),
            decreases n - k,
        {
            let mut copy: Vec<u64> = Vec::new();
            let mut j: usize = 0;
            while j < self.monkeys[k].items.len()
                invariant
                    k < n == ms.len(),
                    ms == self.monkeys@,
                    j <= ms[k as int].items@.len(),
                    copy@ == ms[k as int].items@.take(j as int),
                decreases ms[k as int].items@.len() - j,
            {
                copy.push(self.monkeys[k].items[j]);
                assert(ms[k as int].items@.take(j + 1) == ms[k as int].items@.take(j as int).push(
                    ms[k as int].items@[j as int],
                ));
                j += 1;
            }
            assert(ms[k as int].items@.take(j as int) == ms[k as int].items@);
            items.push(copy);
            inspections.push(0);
            proof {
                lemma_modulus(ms, k as int);
                lemma_modulus(ms, k + 1);
            }
            product = product * self.monkeys[k].divisibility;
            k += 1;
        }
        let ghost goal = at_end(ms, rounds, divide);
        let ghost p = product as int;
        assert(held(items@) == at_start(ms).items);
        assert(counted(inspections@) == at_start(ms).inspections);
        proof {
            lemma_modulus_positive(ms, n as int);
        }
        let mut round: u32 = 0;
        while round < rounds
            invariant
                round <= rounds,
                n == ms.len(),
                ms == self.monkeys@,
                targets_inside(ms),
                p == product == modulus(ms, n as int),
                p >= 1,
                items@.len() == n,
                inspections@.len() == n,
                goal.fits,
                goal == rounds_left(
                    ms,
                    Troop { items: held(items@), inspections: counted(inspections@), fits: true },
                    rounds - round,
                    divide,
                    p,
                ),
            decreases rounds - round,
        {
            let mut from: usize = 0;
            while from < n
                invariant
                    round < rounds,
                    from <= n == ms.len(),
                    ms == self.monkeys@,
                    targets_inside(ms),
                    p == product,
                    p >= 1,
                    items@.len() == n,
                    inspections@.len() == n,
                    goal.fits,
                    goal == rounds_left(
                        ms,
                        turns_from(
                            ms,
                            Troop {
                                items: held(items@),
                                inspections: counted(inspections@),
                                fits: true,
                            },
                            from as int,
                            divide,
                            p,
                        ),
                        rounds - round - 1,
                        divide,
                        p,
                    ),
                decreases n - from,
            {
                while items[from].len() > 0
                    invariant
                        round < rounds,
                        from < n == ms.len(),
                        ms == self.monkeys@,
                        targets_inside(ms),
                        p == product,
                        p >= 1,
                        items@.len() == n,
                        inspections@.len() == n,
                        goal.fits,
                        goal == rounds_left(
                            ms,
                            turns_from(
                                ms,
                                throw_all(
                                    ms,
                                    Troop {
                                        items: held(items@),
                                        inspections: counted(inspections@),
                                        fits: true,
                                    },
                                    from as int,
                                    divide,
                                    p,
                                ),
                                from + 1,
                                divide,
                                p,
                            ),
                            rounds - round - 1,
                            divide,
                            p,
                        ),
                    decreases items@[from as int]@.len(),
                {
                    let ghost now = Troop {
                        items: held(items@),
                        inspections: counted(inspections@),
                        fits: true,
                    };
                    let ghost next = throw_one(ms, now, from as int, divide, p);
                    proof {
                        assert(is_troop(ms, now));
                        lemma_throw_one(ms, now, from as int, divide, p);
                        lemma_throw_all(ms, next, from as int, divide, p);
                        lemma_turns_from(
                            ms,
                            throw_all(ms, next, from as int, divide, p),
                            from + 1,
                            divide,
                            p,
                        );
                        lemma_rounds_left(
                            ms,
                            turns_from(
                                ms,
                                throw_all(ms, next, from as int, divide, p),
                                from + 1,
                                divide,
                                p,
                            ),
                            rounds - round - 1,
                            divide,
                            p,
                        );
                        assert(next.fits);
                    }
                    let old_worry: u64 = items[from].pop().unwrap();
                    let (new, to) = self.monkeys[from].inspect_and_throw(old_worry, divide);
                    let new: u64 = if divide {
                        new
                    } else {
                        new % product
                    };
                    items[to].push(new);
                    inspections[from] = inspections[from] + 1;
                    proof {
                        assert(held(items@) =~= next.items);
                        assert(counted(inspections@) =~= next.inspections);
                    }
                }
                from += 1;
            }
            round += 1;
        }
        let ghost counts = counted(inspections@);
        assert(goal.inspections == counts);
        let mut first: u64 = 0;
        let mut second: u64 = 0;
        let mut i: usize = 0;
        while i < n
            invariant
                i <= n == inspections@.len(),
                counts == counted(inspections@),
                (first as int, second as int) == best_two(counts, i as int),
            decreases n - i,
        {
            let count: u64 = inspections[i];
            assert(counts[i as int] == count);
            if count >= first {
                second = first;
                first = count;
            } else if count > second {
                second = count;
            }
            i += 1;
        }
        first * second
    }

    /// The score after twenty rounds in which worries are divided.
    pub fn part1(&self) -> (score: u64)
        requires
            self.monkeys@.len() >= 2,
            targets_inside(self.monkeys@),
            no_overflow(self.monkeys@, 20, true),
        ensures
            score == business(self.monkeys@, 20, true),
    {
        self.monkey_business(20, true)
    }

    /// The score after ten thousand rounds in which worries are not
    /// divided.
    pub fn part2(&self) -> (score: u64)
        requires
            self.monkeys@.len() >= 2,
            targets_inside(self.monkeys@),
            no_overflow(self.monkeys@, 10000, false),
        ensures
            score == business(self.monkeys@, 10000, false),
    {
        self.monkey_business(10000, false)
    }
}

} // verus!
