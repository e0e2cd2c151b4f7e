//! The state of a breadth-first search: its frontier, and its record of the
//! cells found so far.
use vstd::prelude::*;
use std::collections::VecDeque;
use crate::grid::{Coord, Puzzle};
use crate::rule::{admissible, admissible_spec, Direction};

verus! {

/// A cell together with the number of moves that led to it.
#[derive(Clone, Copy, Debug, PartialEq, Eq, Structural)]
pub struct Path {
    pub position: Coord,
    pub cost: usize,
}

/// Whether cell `c` occurs among the discovered cells.
pub open spec fn seen(all: Seq<Path>, c: Coord) -> bool {
    exists|i: int| 0 <= i < all.len() && #[trigger] all[i].position == c
}

/// Whether cell `c` occurs among the discovered cells with a cost of at
/// most `bound`.
pub open spec fn seen_within(all: Seq<Path>, c: Coord, bound: int) -> bool {
    exists|i: int| 0 <= i < all.len() && #[trigger] all[i].position == c && all[i].cost <= bound
}

/// The state of one search: the cells waiting to be expanded, in the order
/// in which they were found, and a mark for every cell found so far.
pub struct Search {
    direction: Direction,
    paths: VecDeque<Path>,
    visited: Vec<bool>,
    found: Ghost<Seq<Path>>,
    taken: Ghost<nat>,
}

impl Search {
    /// The direction in which this search walks.
    pub closed spec fn spec_direction(&self) -> Direction {
        self.direction
    }

    /// Every cell found so far with its cost, in the order of discovery.
    pub closed spec fn discovered(&self) -> Seq<Path> {
        self.found@
    }

    /// How many of the discovered cells have been taken from the frontier.
    pub closed spec fn expanded(&self) -> nat {
        self.taken@
    }

    /// The cells waiting to be expanded, earliest first.
    pub closed spec fn frontier(&self) -> Seq<Path> {
        self.paths@
    }

    /// The mark of every cell, row by row.
    pub closed spec fn marks(&self) -> Seq<bool> {
        self.visited@
    }

    /// The cells taken from the frontier so far, earliest first.
    pub open spec fn dequeued(&self) -> Seq<Path> {
        self.discovered().take(self.expanded() as int)
    }

    /// The cell taken from the frontier last.
    pub open spec fn current(&self) -> Path {
        self.discovered()[self.expanded() - 1]
    }

    /// Whether `c` has been found.
    pub open spec fn has_seen(&self, c: Coord) -> bool {
        seen(self.discovered(), c)
    }

    /// The invariant of a search over `grid`.  The frontier is what was
    /// found and not yet taken; exactly the found cells are marked; no cell
    /// was found twice; costs never decrease along the order of discovery;
    /// and no cell was found with a cost more than one above that of the
    /// cell taken last.
    #[verifier::opaque]
    pub open spec fn wf(&self, grid: &Puzzle) -> bool {
        let all = self.discovered();
        &&& grid.wf()
        &&& self.marks().len() == grid.area()
        &&& 1 <= all.len() <= grid.area()
        &&& self.expanded() <= all.len()
        &&& self.frontier() == all.skip(self.expanded() as int)
        &&& all[0].cost == 0
        &&& forall|i: int| 0 <= i < all.len() ==> grid.contains(#[trigger] all[i].position)
        &&& forall|i: int, j: int|
            0 <= i < j < all.len() ==> #[trigger] all[i].position != #[trigger] all[j].position
        &&& forall|c: Coord|
            grid.contains(c) ==> (self.marks()[grid.spec_index_of(c)] <==> #[trigger] seen(all, c))
        &&& forall|i: int, j: int|
            0 <= i <= j < all.len() ==> #[trigger] all[i].cost <= #[trigger] all[j].cost
        &&& forall|i: int| 0 <= i < all.len() ==> #[trigger] all[i].cost <= i
        &&& self.expanded() == 0 ==> all.len() == 1
        &&& self.expanded() > 0 ==> forall|i: int|
            0 <= i < all.len() ==> #[trigger] all[i].cost <= self.current().cost + 1
    }

    /// How many cells a search has found and taken, and what waits.
    pub proof fn lemma_bounds(&self, grid: &Puzzle)
        requires
            self.wf(grid),
        ensures
            grid.wf(),
            1 <= self.discovered().len() <= grid.area(),
            self.expanded() <= self.discovered().len(),
            self.frontier() == self.discovered().skip(self.expanded() as int),
            self.discovered()[0].cost == 0,
    {
        reveal(Search::wf);
    }

    /// The discovered cells lie inside the grid, and their costs never
    /// decrease along the order of discovery.
    pub proof fn lemma_order(&self, grid: &Puzzle)
        requires
            self.wf(grid),
        ensures
            forall|i: int|
                0 <= i < self.discovered().len() ==> grid.contains(
                    #[trigger] self.discovered()[i].position,
                ),
            forall|i: int, j: int|
                0 <= i <= j < self.discovered().len() ==> #[trigger] self.discovered()[i].cost
                    <= #[trigger] self.discovered()[j].cost,
    {
        reveal(Search::wf);
    }

    /// Level order: no cell is taken from the frontier with a cost lower
    /// than that of a cell taken before it, and every cell that waits costs
    /// as much as the cell taken last or one move more.
    pub proof fn lemma_level_order(&self, grid: &Puzzle)
        requires
            self.wf(grid),
        ensures
            forall|i: int, j: int|
                0 <= i <= j < self.dequeued().len() ==> #[trigger] self.dequeued()[i].cost
                    <= #[trigger] self.dequeued()[j].cost,
            forall|i: int|
                0 <= i < self.frontier().len() && self.expanded() > 0 ==> self.current().cost
                    <= #[trigger] self.frontier()[i].cost <= self.current().cost + 1,
    {
        reveal(Search::wf);
        let all = self.discovered();
        assert forall|i: int, j: int|
            0 <= i <= j < self.dequeued().len() implies #[trigger] self.dequeued()[i].cost
            <= #[trigger] self.dequeued()[j].cost by {
            assert(all[i].cost <= all[j].cost);
        }
        assert forall|i: int|
            0 <= i < self.frontier().len() && self.expanded() > 0 implies self.current().cost
            <= #[trigger] self.frontier()[i].cost <= self.current().cost + 1 by {
            let k = self.expanded() + i;
            assert(self.frontier()[i] == all[k]);
            assert(all[self.expanded() - 1].cost <= all[k].cost);
            assert(all[k].cost <= self.current().cost + 1);
        }
    }

    /// Starts a search at `origin`: the origin is found at cost zero, and
    /// waits on the frontier.
    pub fn new(grid: &Puzzle, origin: Coord, direction: Direction) -> (search: Search)
        requires
            grid.wf(),
            grid.contains(origin),
        ensures
            search.wf(grid),
            search.direction() == direction,
            search.discovered() == seq![Path { position: origin, cost: 0 }],
            search.frontier() == seq![Path { position: origin, cost: 0 }],
            search.expanded() == 0,
    {
        proof {
            grid.lemma_wf();
        }
        let cells: usize = grid.rows() * grid.cols();
        let mut visited: Vec<bool> = Vec::new();
        let mut n: usize = 0;
        while n < cells
            invariant
                n <= cells,
                visited@.len() == n,
                forall|i: int| 0 <= i < n ==> !visited@[i],
            decreases cells - n,
        {
            visited.push(false);
            n += 1;
        }
        let first = Path { position: origin, cost: 0 };
        let at: usize = grid.index_of(origin);
        visited.set(at, true);
        let mut paths: VecDeque<Path> = VecDeque::new();
        paths.push_back(first);
        let ghost found: Seq<Path> = seq![first];
        let search = Search { direction, paths, visited, found: Ghost(found), taken: Ghost(0) };
        proof {
            reveal(Search::wf);
            let all = search.discovered();
            assert(search.frontier() == all.skip(0));
            assert forall|c: Coord| grid.contains(c) implies (search.marks()[grid.spec_index_of(c)]
                <==> #[trigger] seen(all, c)) by {
                if c == origin {
                    assert(all[0].position == c);
                } else {
                    if grid.spec_index_of(c) == grid.spec_index_of(origin) {
                        grid.lemma_index_injective(c, origin);
                    }
                }
            }
        }
        search
    }

    /// The direction in which this search walks.
    #[verifier::when_used_as_spec(spec_direction)]
    pub fn direction(&self) -> (d: Direction)
        ensures
            d == self.direction(),
    {
        self.direction
    }

    /// Whether the cell `c` of the grid has been found.
    pub fn visited(&self, grid: &Puzzle, c: Coord) -> (found: bool)
        requires
            self.wf(grid),
            grid.contains(c),
        ensures
            found == self.has_seen(c),
    {
        proof {
            reveal(Search::wf);
        }
        let at: usize = grid.index_of(c);
        self.visited[at]
    }

    /// Takes the earliest cell from the frontier, if any is left.  In a
    /// search that keeps its invariant the cell costs no less than the cell
    /// taken before it, and at most one move more.
    pub fn pop_path(&mut self) -> (taken: Option<Path>)
        ensures
            match taken {
                Some(path) => {
                    &&& old(self).frontier().len() > 0
                    &&& path == old(self).frontier()[0]
                    &&& final(self).frontier() == old(self).frontier().skip(1)
                    &&& final(self).expanded() == old(self).expanded() + 1
                },
                None => {
                    &&& old(self).frontier().len() == 0
                    &&& final(self).frontier() == old(self).frontier()
                    &&& final(self).expanded() == old(self).expanded()
                },
            },
            final(self).discovered() == old(self).discovered(),
            final(self).marks() == old(self).marks(),
            final(self).direction() == old(self).direction(),
            forall|grid: &Puzzle|
                old(self).wf(grid) ==> #[trigger] final(self).wf(grid) && (taken matches Some(path)
                    ==> path == final(self).current() && (old(self).expanded() > 0 ==> old(
                    self,
                ).current().cost <= path.cost <= old(self).current().cost + 1)),
    {
        let taken = self.paths.pop_front();
        proof {
            if taken is Some {
                self.taken = Ghost((self.taken@ + 1) as nat);
            }
            assert forall|grid: &Puzzle| old(self).wf(grid) implies #[trigger] self.wf(grid) && (
            taken matches Some(path) ==> path == self.current() && (old(self).expanded() > 0
                ==> old(self).current().cost <= path.cost <= old(self).current().cost + 1)) by {
                reveal(Search::wf);
                let all = self.discovered();
                let h = old(self).expanded() as int;
                if taken is Some {
                    assert(old(self).frontier()[0] == all[h]);
                    assert(self.frontier() == all.skip(h + 1));
                    assert forall|i: int| 0 <= i < all.len() implies #[trigger] all[i].cost
                        <= self.current().cost + 1 by {
                        if h > 0 {
                            assert(all[i].cost <= old(self).current().cost + 1);
                            assert(all[h - 1].cost <= all[h].cost);
                        } else {
                            assert(all[i].cost <= all[h].cost);
                        }
                    }
                }
            }
        }
        taken
    }
}

impl Puzzle {
    /// Tries the step from the cell taken last to the cell `to`, and
    /// returns whether the step is admissible.  The cell joins the
    /// frontier, one move further than `from`, where the step is admissible
    /// and the cell was not found before; otherwise the search stays as it
    /// is.  Either way a cell to which the step is admissible has been
    /// found afterwards.
    pub fn push_path(&self, search: &mut Search, from: &Path, to: Coord) -> (ok: bool)
        requires
            old(search).wf(self),
            old(search).expanded() > 0,
            *from == old(search).current(),
            self.contains(to),
        ensures
            ok == admissible_spec(
                old(search).direction(),
                self.elevation(from.position) as int,
                self.elevation(to) as int,
            ),
            ok && !old(search).has_seen(to) ==> {
                &&& final(search).discovered() == old(search).discovered().push(
                    Path { position: to, cost: (from.cost + 1) as usize },
                )
                &&& final(search).frontier() == old(search).frontier().push(
                    Path { position: to, cost: (from.cost + 1) as usize },
                )
                &&& final(search).marks() == old(search).marks().update(
                    self.spec_index_of(to),
                    true,
                )
                &&& from.cost + 1 < self.area()
            },
            !(ok && !old(search).has_seen(to)) ==> {
                &&& final(search).discovered() == old(search).discovered()
                &&& final(search).frontier() == old(search).frontier()
                &&& final(search).marks() == old(search).marks()
            },
            ok ==> seen_within(final(search).discovered(), to, from.cost + 1),
            final(search).expanded() == old(search).expanded(),
            final(search).direction() == old(search).direction(),
            final(search).wf(self),
    {
        let ghost all = search.discovered();
        let ghost h = search.expanded() as int;
        proof {
            reveal(Search::wf);
            self.lemma_wf();
            assert(self.contains(all[h - 1].position));
            assert(all[h - 1].cost <= h - 1);
        }
        if !admissible(search.direction, self.elevation(from.position), self.elevation(to)) {
            return false;
        }
        let at: usize = self.index_of(to);
        if search.visited[at] {
            proof {
                assert(seen(all, to));
                let j = choose|j: int| 0 <= j < all.len() && #[trigger] all[j].position == to;
                assert(all[j].cost <= from.cost + 1);
            }
            return true;
        }
        let path = Path { position: to, cost: from.cost + 1 };
        search.visited.set(at, true);
        search.paths.push_back(path);
        proof {
            search.found = Ghost(all.push(path));
            let grown = search.discovered();
            assert(!seen(all, to));
            assert(grown[all.len() as int].position == to);
            assert forall|i: int| 0 <= i < grown.len() implies self.contains(
                #[trigger] grown[i].position,
            ) by {
                if i < all.len() {
                    assert(grown[i] == all[i]);
                }
            }
            assert forall|i: int, j: int|
                0 <= i < j < grown.len() implies #[trigger] grown[i].position
                != #[trigger] grown[j].position by {
                assert(grown[i] == all[i]);
                if j < all.len() {
                    assert(grown[j] == all[j]);
                } else {
                    assert(all[i].position != to);
                }
            }
            let places = Seq::new(grown.len(), |i: int| grown[i].position);
            assert forall|i: int, j: int| 0 <= i < j < places.len() implies places[i]
                != places[j] by {
                assert(grown[i].position != grown[j].position);
            }
            self.lemma_distinct_cells_fit(places);
            assert(search.frontier() == grown.skip(h));
            assert forall|c: Coord| self.contains(c) implies (search.marks()[self.spec_index_of(c)]
                <==> #[trigger] seen(grown, c)) by {
                if c != to {
                    if self.spec_index_of(c) == self.spec_index_of(to) {
                        self.lemma_index_injective(c, to);
                    }
                    if seen(all, c) {
                        let i = choose|i: int|
                            0 <= i < all.len() && #[trigger] all[i].position == c;
                        assert(grown[i].position == c);
                    }
                    if seen(grown, c) {
                        let i = choose|i: int|
                            0 <= i < grown.len() && #[trigger] grown[i].position == c;
                        assert(all[i].position == c);
                    }
                }
            }
            assert forall|i: int, j: int| 0 <= i <= j < grown.len() implies #[trigger] grown[i].cost
                <= #[trigger] grown[j].cost by {
                if j < all.len() {
                    assert(grown[i] == all[i] && grown[j] == all[j]);
                } else if i < all.len() {
                    assert(grown[i] == all[i]);
                    assert(all[i].cost <= all[h - 1].cost + 1);
                }
            }
            assert forall|i: int| 0 <= i < grown.len() implies #[trigger] grown[i].cost <= i by {
                if i < all.len() {
                    assert(grown[i] == all[i]);
                }
            }
            assert forall|i: int| 0 <= i < grown.len() implies #[trigger] grown[i].cost
                <= search.current().cost + 1 by {
                if i < all.len() {
                    assert(grown[i] == all[i]);
                }
            }
            assert(grown[0] == all[0]);
        }
        true
    }
}

} // verus!
