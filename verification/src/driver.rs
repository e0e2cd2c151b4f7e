//! The two questions asked of a puzzle, and how a puzzle is filled in from
//! its text.
use vstd::prelude::*;
use vstd::string::StringSliceAdditionalSpecFns;
use crate::bfs::{decides, shortest_path, steps};
use crate::grid::{Coord, Puzzle};
use crate::parse::{describes, load, well_formed, LoadError};
use crate::rule::Direction;

verus! {

/// Whether `cell` occurs in `cells`.
pub fn contains_cell(cells: &[Coord], cell: Coord) -> (found: bool)
    ensures
        found == cells@.contains(cell),
{
    let mut i: usize = 0;
    while i < cells.len()
        invariant
            i <= cells@.len(),
            forall|j: int| 0 <= j < i ==> cells@[j] != cell,
        decreases cells@.len() - i,
    {
        if cells[i] == cell {
            return true;
        }
        i += 1;
    }
    false
}

impl Puzzle {
    /// The cells of lowest elevation.
    pub open spec fn lowest_cells(&self) -> Set<Coord> {
        Set::new(|c: Coord| self.contains(c) && self.elevation(c) == 0)
    }

    /// The direction in which a search from `from` walks: ascending from
    /// the start, descending from every other cell.
    pub open spec fn direction_from(&self, from: Coord) -> Direction {
        if from == self.start() {
            Direction::Ascending
        } else {
            Direction::Descending
        }
    }

    /// Fills the puzzle in from its text.  A text that is not well formed
    /// is refused and leaves the puzzle as it was.
    pub fn configure(&mut self, text: &str) -> (done: Result<(), LoadError>)
        ensures
            done is Ok <==> well_formed(text.spec_bytes()),
            done is Ok ==> describes(text.spec_bytes(), final(self)),
            done matches Err(e) ==> e == LoadError::InvalidFormat && *final(self) == *old(self),
    {
        match load(text) {
            Ok(p) => {
                *self = p;
                Ok(())
            },
            Err(e) => Err(e),
        }
    }

    /// The least number of moves from `from` to one of the cells `to`:
    /// ascending where `from` is the start, descending from any other cell.
    /// `None` where none of them can be reached.
    pub fn fewest_steps_to_end(&self, from: Coord, to: &[Coord]) -> (found: Option<usize>)
        requires
            self.wf(),
            self.contains(from),
        ensures
            steps(found) == self.nearest(self.direction_from(from), from, to@.to_set()),
            found matches Some(k) ==> k < self.area(),
    {
        let direction = if from == self.start() {
            Direction::Ascending
        } else {
            Direction::Descending
        };
        let is_target = |c: Coord| -> (hit: bool)
            ensures
                hit == to@.contains(c),
            { contains_cell(to, c) };
        let found = shortest_path(self, from, direction, is_target);
        assert(decides(is_target, self, to@.to_set()));
        found
    }

    /// The least number of moves from the start to the end, climbing at
    /// most one unit with each move.  `None` where the end cannot be
    /// reached.
    pub fn part1(&self) -> (found: Option<usize>)
        requires
            self.wf(),
        ensures
            steps(found) == self.nearest(Direction::Ascending, self.start(), set![self.end()]),
            found matches Some(k) ==> k < self.area(),
    {
        proof {
            self.lemma_wf();
        }
        let end = self.end();
        let is_target = |c: Coord| -> (hit: bool)
            ensures
                hit == (c == end),
            { c == end };
        let found = shortest_path(self, self.start(), Direction::Ascending, is_target);
        assert(decides(is_target, self, set![end]));
        found
    }

    /// The least number of moves from the end down to a cell of lowest
    /// elevation, dropping at most one unit with each move: as many moves as
    /// the shortest climb to the end from any lowest cell.  `None` where
    /// the end can be reached from no lowest cell.
    pub fn part2(&self) -> (found: Option<usize>)
        requires
            self.wf(),
        ensures
            steps(found) == self.nearest(Direction::Descending, self.end(), self.lowest_cells()),
            found matches Some(k) ==> k < self.area(),
    {
        proof {
            self.lemma_wf();
        }
        let is_target = |c: Coord| -> (hit: bool)
            requires
                self.contains(c),
            ensures
                hit == (self.elevation(c) == 0),
            { self.elevation(c) == 0 };
        let found = shortest_path(self, self.end(), Direction::Descending, is_target);
        assert(decides(is_target, self, self.lowest_cells()));
        found
    }

    /// Descending from `end` to the nearest of some cells takes as many
    /// moves as the shortest climb to `end` from any of them: a walk down
    /// to a cell in some moves is a climb from that cell in as many.
    pub proof fn lemma_descent_is_best_climb(&self, end: Coord, from: Set<Coord>, moves: nat)
        ensures
            self.target_at(Direction::Descending, end, from, moves) <==> exists|c: Coord|
                from.contains(c) && #[trigger] self.reaches(Direction::Ascending, c, end, moves),
    {
        if self.target_at(Direction::Descending, end, from, moves) {
            let c = choose|c: Coord|
                from.contains(c) && #[trigger] self.reaches(Direction::Descending, end, c, moves);
            self.lemma_reaches_reversed(Direction::Descending, end, c, moves);
            assert(self.reaches(Direction::Ascending, c, end, moves));
        }
        if exists|c: Coord|
            from.contains(c) && #[trigger] self.reaches(Direction::Ascending, c, end, moves) {
            let c = choose|c: Coord|
                from.contains(c) && #[trigger] self.reaches(Direction::Ascending, c, end, moves);
            self.lemma_reaches_reversed(Direction::Descending, end, c, moves);
            assert(self.reaches(Direction::Descending, end, c, moves));
        }
    }
}

} // verus!
