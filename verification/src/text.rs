//! Text as bytes: lines and numbers.
use vstd::prelude::*;

verus! {

/// The line terminator.
pub const LINE_END: u8 = 10;

/// The digit zero.
pub const ZERO: u8 = 48;

/// The digit nine.
pub const NINE: u8 = 57;

/// Why a text could not be read.
#[derive(Clone, Copy, Debug, PartialEq, Eq, Structural)]
pub enum Malformed {
    /// The text does not have the form that the puzzle expects.
    InvalidFormat,
}

/// The text without the single line terminator that may end it.
pub open spec fn trimmed(text: Seq<u8>) -> Seq<u8> {
    if text.len() > 0 && text.last() == LINE_END {
        text.drop_last()
    } else {
        text
    }
}

/// The place of the first line terminator at or behind `from`, or the
/// length of the text where there is none.
pub open spec fn line_break(text: Seq<u8>, from: int) -> int
    decreases text.len() - from,
{
    if from >= text.len() {
        text.len() as int
    } else if text[from] == LINE_END {
        from
    } else {
        line_break(text, from + 1)
    }
}

/// The lines of the text from `from` on: what stands between line
/// terminators.  A text that ends with a terminator has an empty last line.
pub open spec fn lines_from(text: Seq<u8>, from: int) -> Seq<Seq<u8>>
    decreases text.len() - from,
{
    let end = line_break(text, from);
    if from < 0 || from > text.len() {
        seq![]
    } else if end >= text.len() {
        seq![text.subrange(from, text.len() as int)]
    } else if end < from {
        seq![]
    } else {
        seq![text.subrange(from, end)] + lines_from(text, end + 1)
    }
}

/// The lines of a text, a single final line terminator left aside.
pub open spec fn lines(text: Seq<u8>) -> Seq<Seq<u8>> {
    lines_from(trimmed(text), 0)
}

/// The records of a text: its lines, none where the text is empty.
pub open spec fn records(text: Seq<u8>) -> Seq<Seq<u8>> {
    if trimmed(text).len() == 0 {
        seq![]
    } else {
        lines(text)
    }
}

/// The lines as rows of bytes.
pub open spec fn rows(lines: Seq<Vec<u8>>) -> Seq<Seq<u8>> {
    Seq::new(lines.len(), |i: int| lines[i]@)
}

/// Whether a byte is a decimal digit.
pub open spec fn is_digit(b: u8) -> bool {
    ZERO <= b <= NINE
}

/// Whether the bytes are a number: one digit or more and nothing else.
pub open spec fn is_number(digits: Seq<u8>) -> bool {
    digits.len() > 0 && forall|i: int| 0 <= i < digits.len() ==> is_digit(digits[i])
}

/// The number that decimal digits stand for.
pub open spec fn value_of(digits: Seq<u8>) -> int
    decreases digits.len(),
{
    if digits.len() == 0 {
        0
    } else {
        value_of(digits.drop_last()) * 10 + (digits.last() - ZERO)
    }
}

/// The line break lies at or behind the place from which it is sought.
pub proof fn lemma_line_break(text: Seq<u8>, from: int)
    requires
        0 <= from <= text.len(),
    ensures
        from <= line_break(text, from) <= text.len(),
        forall|i: int| from <= i < line_break(text, from) ==> text[i] != LINE_END,
        line_break(text, from) < text.len() ==> text[line_break(text, from)] == LINE_END,
    decreases text.len() - from,
{
    if from < text.len() && text[from] != LINE_END {
        lemma_line_break(text, from + 1);
    }
}

/// The lines of a text.
pub fn split_lines(text: &[u8]) -> (found: Vec<Vec<u8>>)
    ensures
        rows(found@) == lines(text@),
        found@.len() >= 1,
{
    let mut n: usize = text.len();
    if n > 0 && text[n - 1] == LINE_END {
        n = n - 1;
    }
    let ghost body = trimmed(text@);
    assert(body == text@.take(n as int));
    let mut found: Vec<Vec<u8>> = Vec::new();
    let mut line: Vec<u8> = Vec::new();
    let mut start: usize = 0;
    let mut i: usize = 0;
    while i < n
        invariant
            start <= i <= n <= text@.len(),
            body == text@.take(n as int),
            line@ == body.subrange(start as int, i as int),
            forall|k: int| start <= k < i ==> body[k] != LINE_END,
            lines_from(body, 0) == rows(found@) + lines_from(body, start as int),
        decreases n - i,
    {
        let b: u8 = text[i];
        assert(b == body[i as int]);
        if b == LINE_END {
            proof {
                lemma_break_at(body, start as int, i as int);
                assert(rows(found@.push(line)) =~= rows(found@).push(line@));
                assert(rows(found@) + (seq![line@] + lines_from(body, i + 1)) =~= rows(
                    found@,
                ).push(line@) + lines_from(body, i + 1));
            }
            found.push(line);
            line = Vec::new();
            start = i + 1;
            assert(line@ == body.subrange(start as int, start as int));
        } else {
            line.push(b);
            assert(body.subrange(start as int, i + 1) == body.subrange(start as int, i as int).push(
                b,
            ));
        }
        i += 1;
    }
    proof {
        lemma_break_at(body, start as int, n as int);
        assert(rows(found@.push(line)) =~= rows(found@).push(line@));
        assert(rows(found@) + seq![line@] =~= rows(found@).push(line@));
    }
    found.push(line);
    found
}

/// The records of a text.
pub fn split_records(text: &[u8]) -> (found: Vec<Vec<u8>>)
    ensures
        rows(found@) == records(text@),
{
    let n: usize = text.len();
    if n == 0 || (n == 1 && text[0] == LINE_END) {
        let found: Vec<Vec<u8>> = Vec::new();
        assert(rows(found@) =~= seq![]);
        found
    } else {
        split_lines(text)
    }
}

/// Where no line terminator stands between `from` and `end`, and one
/// stands at `end` or the text ends there, the line from `from` breaks at
/// `end`.
pub proof fn lemma_break_at(text: Seq<u8>, from: int, end: int)
    requires
        0 <= from <= end <= text.len(),
        forall|k: int| from <= k < end ==> text[k] != LINE_END,
        end < text.len() ==> text[end] == LINE_END,
    ensures
        line_break(text, from) == end,
        end < text.len() ==> lines_from(text, from) == seq![text.subrange(from, end)] + lines_from(
            text,
            end + 1,
        ),
        end == text.len() ==> lines_from(text, from) == seq![text.subrange(from, end)],
    decreases end - from,
{
    if from < end {
        lemma_break_at(text, from + 1, end);
    }
}

/// A number with one more digit is ten times the number plus the digit.
pub proof fn lemma_value_push(digits: Seq<u8>, digit: u8)
    ensures
        value_of(digits.push(digit)) == value_of(digits) * 10 + (digit - ZERO),
{
    assert(digits.push(digit).drop_last() == digits);
}

/// A number grows with every digit.
pub proof fn lemma_value_grows(digits: Seq<u8>, upto: int)
    requires
        0 <= upto <= digits.len(),
        forall|i: int| 0 <= i < digits.len() ==> is_digit(digits[i]),
    ensures
        0 <= value_of(digits.take(upto)) <= value_of(digits),
    decreases digits.len() - upto,
{
    if upto < digits.len() {
        let shorter = digits.take(upto);
        let longer = digits.take(upto + 1);
        assert(longer == shorter.push(digits[upto]));
        lemma_value_push(shorter, digits[upto]);
        lemma_value_digits(shorter);
        lemma_value_grows(digits, upto + 1);
    } else {
        assert(digits.take(upto) == digits);
        lemma_value_digits(digits);
    }
}

/// Digits stand for a number that is not negative.
pub proof fn lemma_value_digits(digits: Seq<u8>)
    requires
        forall|i: int| 0 <= i < digits.len() ==> is_digit(digits[i]),
    ensures
        0 <= value_of(digits),
    decreases digits.len(),
{
    if digits.len() > 0 {
        lemma_value_digits(digits.drop_last());
    }
}

/// The place of the first byte at or behind `from` that is no digit, or the
/// length of the line where only digits follow.
pub open spec fn digits_end(line: Seq<u8>, from: int) -> int
    decreases line.len() - from,
{
    if from < 0 || from >= line.len() {
        line.len() as int
    } else if !is_digit(line[from]) {
        from
    } else {
        digits_end(line, from + 1)
    }
}

/// The digits from `from` on end at or behind `from`, within the line.
pub proof fn lemma_digits_end(line: Seq<u8>, from: int)
    requires
        0 <= from <= line.len(),
    ensures
        from <= digits_end(line, from) <= line.len(),
    decreases line.len() - from,
{
    if from < line.len() && is_digit(line[from]) {
        lemma_digits_end(line, from + 1);
    }
}

/// Finds the end of the digits that start at `from`.
pub fn skip_digits(line: &Vec<u8>, from: usize) -> (end: usize)
    requires
        from <= line@.len(),
    ensures
        end == digits_end(line@, from as int),
        from <= end <= line@.len(),
{
    let mut end: usize = from;
    while end < line.len() && ZERO <= line[end] && line[end] <= NINE
        invariant
            from <= end <= line@.len(),
            digits_end(line@, from as int) == digits_end(line@, end as int),
        decreases line@.len() - end,
    {
        end += 1;
    }
    end
}

/// Whether the bytes of `word` stand in the line from `from` on.
pub open spec fn word_at(line: Seq<u8>, from: int, word: Seq<u8>) -> bool {
    &&& 0 <= from
    &&& from + word.len() <= line.len()
    &&& line.subrange(from, from + word.len()) == word
}

/// Whether the bytes of `word` stand in the line from `from` on.
pub fn has_word(line: &Vec<u8>, from: usize, word: &[u8]) -> (yes: bool)
    requires
        from <= line@.len(),
    ensures
        yes == word_at(line@, from as int, word@),
{
    let n: usize = line.len();
    let m: usize = word.len();
    if m > n - from {
        return false;
    }
    let mut i: usize = 0;
    while i < m
        invariant
            i <= m == word@.len(),
            from + m <= n == line@.len(),
            forall|k: int| 0 <= k < i ==> line@[from + k] == word@[k],
        decreases m - i,
    {
        if line[from + i] != word[i] {
            assert(line@.subrange(from as int, from + m)[i as int] != word@[i as int]);
            return false;
        }
        i += 1;
    }
    assert(line@.subrange(from as int, from + m) =~= word@);
    true
}

/// Reads the number that the bytes from `from` up to `to` stand for.
/// Nothing is read where they are no number or the number is too large.
pub fn read_number(line: &Vec<u8>, from: usize, to: usize) -> (number: Option<usize>)
    requires
        from <= to <= line@.len(),
    ensures
        match number {
            Some(value) => is_number(line@.subrange(from as int, to as int)) && value == value_of(
                line@.subrange(from as int, to as int),
            ),
            None => !is_number(line@.subrange(from as int, to as int)) || value_of(
                line@.subrange(from as int, to as int),
            ) > usize::MAX,
        },
{
    let ghost digits = line@.subrange(from as int, to as int);
    if from == to {
        return None;
    }
    let mut value: usize = 0;
    let mut i: usize = from;
    while i < to
        invariant
            from <= i <= to <= line@.len(),
            digits == line@.subrange(from as int, to as int),
            forall|k: int| 0 <= k < i - from ==> is_digit(digits[k]),
            value == value_of(digits.take(i - from)),
        decreases to - i,
    {
        let b: u8 = line[i];
        assert(b == digits[i - from]);
        if b < ZERO || b > NINE {
            return None;
        }
        let digit: usize = (b - ZERO) as usize;
        proof {
            assert(digits.take(i - from + 1) == digits.take(i - from).push(b));
            lemma_value_push(digits.take(i - from), b);
        }
        if value > (usize::MAX - digit) / 10 {
            proof {
                assert(value_of(digits.take(i - from + 1)) > usize::MAX);
                if is_number(digits) {
                    lemma_value_grows(digits, i - from + 1);
                }
            }
            return None;
        }
        value = value * 10 + digit;
        i += 1;
    }
    assert(digits.take(to - from) == digits);
    Some(value)
}

/// The characters as a string.
///
/// Trusted: wraps `String::from_iter` of the standard library, which
/// builds the string that holds the given characters in their order.
#[verifier::external_body]
pub(crate) fn text_of(chars: &Vec<char>) -> (text: String)
    ensures
        text@ == chars@,
{
    String::from_iter(chars.iter())
}

} // verus!
