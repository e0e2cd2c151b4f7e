//! A signal of characters, and the first run of distinct characters in it.
use vstd::prelude::*;
use vstd::string::StringSliceAdditionalSpecFns;
use crate::text::{trimmed, Malformed, LINE_END};

verus! {

/// Where the search for a marker ends when it starts with the window at
/// `start`: behind the first window of `length` distinct characters, or one
/// place behind the signal where no window is left.
pub open spec fn marker_from(signal: Seq<char>, length: int, start: int) -> int
    decreases signal.len() - start,
{
    if length < 1 || start < 0 || start + length > signal.len() {
        start + length
    } else if signal.subrange(start, start + length).no_duplicates() {
        start + length
    } else {
        marker_from(signal, length, start + 1)
    }
}

/// The number of characters up to the end of the first window of `length`
/// distinct characters.
pub open spec fn first_distinct_window_end(signal: Seq<char>, length: int) -> int {
    marker_from(signal, length, 0)
}

/// Whether the `length` characters from `start` on are distinct.
pub fn distinct(signal: &Vec<char>, start: usize, length: usize) -> (yes: bool)
    requires
        start + length <= signal@.len(),
    ensures
        yes == signal@.subrange(start as int, start + length).no_duplicates(),
{
    let ghost w = signal@.subrange(start as int, start + length);
    let n: usize = signal.len();
    let mut i: usize = 0;
    while i < length
        invariant
            i <= length,
            start + length <= n == signal@.len(),
            w == signal@.subrange(start as int, start + length),
            forall|a: int, b: int| 0 <= a < i && a < b < length ==> w[a] != w[b],
        decreases length - i,
    {
        let mut j: usize = i + 1;
        while j < length
            invariant
                i < j <= length,
                start + length <= n == signal@.len(),
                w == signal@.subrange(start as int, start + length),
                forall|b: int| i < b < j ==> w[i as int] != w[b],
            decreases length - j,
        {
            if signal[start + i] == signal[start + j] {
                assert(w[i as int] == w[j as int]);
                return false;
            }
            j += 1;
        }
        i += 1;
    }
    assert forall|a: int, b: int| 0 <= a < w.len() && 0 <= b < w.len() && a != b implies w[a]
        != w[b] by {
        if a < b {
            assert(w[a] != w[b]);
        } else {
            assert(w[b] != w[a]);
        }
    }
    true
}

/// The signal that was received.
pub struct Puzzle {
    pub signal: Vec<char>,
}

/// The signal that a text stands for: its bytes as characters, a final
/// line terminator left aside, where all of them are plain characters
/// below 128.
pub open spec fn signal_of(text: Seq<u8>) -> Option<Seq<char>> {
    let body = trimmed(text);
    if forall|i: int| 0 <= i < body.len() ==> body[i] < 128 {
        Some(Seq::new(body.len(), |i: int| body[i] as char))
    } else {
        None
    }
}

impl Puzzle {
    /// Reads the signal from its text.  A text with other than plain
    /// characters is refused and leaves the puzzle as it was.
    pub fn configure(&mut self, text: &str) -> (done: Result<(), Malformed>)
        ensures
            match done {
                Ok(_) => signal_of(text.spec_bytes()) == Some(final(self).signal@),
                Err(e) => signal_of(text.spec_bytes()) is None && *final(self) == *old(self) && e
                    == Malformed::InvalidFormat,
            },
    {
        let bytes = text.as_bytes();
        let mut n: usize = bytes.len();
        if n > 0 && bytes[n - 1] == LINE_END {
            n = n - 1;
        }
        let ghost body = trimmed(bytes@);
        assert(body == bytes@.take(n as int));
        let mut signal: Vec<char> = Vec::new();
        let mut i: usize = 0;
        while i < n
            invariant
                i <= n <= bytes@.len(),
                body == bytes@.take(n as int),
                body == trimmed(text.spec_bytes()),
                *self == *old(self),
                signal@.len() == i,
                forall|k: int| 0 <= k < i ==> #[trigger] body[k] < 128,
                forall|k: int| 0 <= k < i ==> #[trigger] signal@[k] == body[k] as char,
            decreases n - i,
        {
            let b: u8 = bytes[i];
            assert(b == body[i as int]);
            if b >= 128 {
                return Err(Malformed::InvalidFormat);
            }
            signal.push(b as char);
            i += 1;
        }
        assert(signal@ =~= signal_of(text.spec_bytes())->0);
        self.signal = signal;
        Ok(())
    }

    /// No signal yet.
    pub fn new() -> (p: Puzzle)
        ensures
            p.signal@.len() == 0,
    {
        Puzzle { signal: Vec::new() }
    }

    /// The number of characters up to the end of the first window of
    /// `length` distinct characters; one more than the signal holds where
    /// it has windows but none of them is distinct.
    pub fn find_marker(&self, length: usize) -> (end: usize)
        requires
            length >= 1,
            self.signal@.len() < usize::MAX,
        ensures
            end == first_distinct_window_end(self.signal@, length as int),
    {
        let n: usize = self.signal.len();
        if n < length {
            return length;
        }
        let mut start: usize = 0;
        while start <= n - length
            invariant
                1 <= length <= n,
                n == self.signal@.len(),
                n < usize::MAX,
                start <= n - length + 1,
                first_distinct_window_end(self.signal@, length as int) == marker_from(
                    self.signal@,
                    length as int,
                    start as int,
                ),
            decreases n - length + 1 - start,
        {
            if distinct(&self.signal, start, length) {
                return start + length;
            }
            start += 1;
        }
        start + length
    }

    /// The end of the first window of four distinct characters.
    pub fn part1(&self) -> (end: usize)
        requires
            self.signal@.len() < usize::MAX,
        ensures
            end == first_distinct_window_end(self.signal@, 4),
    {
        self.find_marker(4)
    }

    /// The end of the first window of fourteen distinct characters.
    pub fn part2(&self) -> (end: usize)
        requires
            self.signal@.len() < usize::MAX,
        ensures
            end == first_distinct_window_end(self.signal@, 14),
    {
        self.find_marker(14)
    }
}

} // verus!
