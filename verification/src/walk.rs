//! Walks over the grid and the distance to the nearest target: the
//! mathematical model that the search is proved against.
use vstd::prelude::*;
use crate::grid::{adjacent, Coord, Puzzle};
use crate::rule::{admissible_spec, lemma_admissible_reversed, Direction};

verus! {

impl Puzzle {
    /// A legal single step from cell `a` to cell `b`.
    pub open spec fn step(&self, direction: Direction, a: Coord, b: Coord) -> bool {
        &&& self.contains(a)
        &&& self.contains(b)
        &&& adjacent(a, b)
        &&& admissible_spec(direction, self.elevation(a) as int, self.elevation(b) as int)
    }

    /// A walk is a non-empty sequence of cells of the grid in which every
    /// cell leads to the next by a legal step.  It makes `w.len() - 1` moves.
    pub open spec fn is_walk(&self, direction: Direction, w: Seq<Coord>) -> bool {
        &&& w.len() >= 1
        &&& self.contains(w[0])
        &&& forall|i: int| 0 <= i < w.len() - 1 ==> self.step(direction, #[trigger] w[i], w[i + 1])
    }

    /// Some walk leads from `from` to `to` in exactly `moves` moves.
    pub open spec fn reaches(
        &self,
        direction: Direction,
        from: Coord,
        to: Coord,
        moves: nat,
    ) -> bool {
        exists|w: Seq<Coord>|
            #[trigger] self.is_walk(direction, w) && w.len() == moves + 1 && w[0] == from
                && w.last() == to
    }

    /// Some walk leads from `origin` to a target in exactly `moves` moves.
    pub open spec fn target_at(
        &self,
        direction: Direction,
        origin: Coord,
        targets: Set<Coord>,
        moves: nat,
    ) -> bool {
        exists|c: Coord| targets.contains(c) && #[trigger] self.reaches(direction, origin, c, moves)
    }

    /// `moves` is the least number of moves that lead from `origin` to a
    /// target.
    pub open spec fn is_nearest(
        &self,
        direction: Direction,
        origin: Coord,
        targets: Set<Coord>,
        moves: nat,
    ) -> bool {
        &&& self.target_at(direction, origin, targets, moves)
        &&& forall|m: nat| #[trigger] self.target_at(direction, origin, targets, m) ==> moves <= m
    }

    /// The least number of moves that lead from `origin` to a target, or
    /// `None` where no walk from `origin` ends in a target.
    pub open spec fn nearest(
        &self,
        direction: Direction,
        origin: Coord,
        targets: Set<Coord>,
    ) -> Option<nat> {
        if exists|m: nat| self.target_at(direction, origin, targets, m) {
            Some(choose|m: nat| self.is_nearest(direction, origin, targets, m))
        } else {
            None
        }
    }

    /// A walk stays a walk when a legal step is added at its end.
    pub proof fn lemma_walk_push(&self, direction: Direction, w: Seq<Coord>, c: Coord)
        requires
            self.is_walk(direction, w),
            self.step(direction, w.last(), c),
        ensures
            self.is_walk(direction, w.push(c)),
    {
        let v = w.push(c);
        assert forall|i: int| 0 <= i < v.len() - 1 implies self.step(
            direction,
            #[trigger] v[i],
            v[i + 1],
        ) by {
            if i < w.len() - 1 {
                assert(self.step(direction, w[i], w[i + 1]));
            }
        }
    }

    /// A walk of at least one move ends with a legal step, and is a walk
    /// without it.
    pub proof fn lemma_walk_drop_last(&self, direction: Direction, w: Seq<Coord>)
        requires
            self.is_walk(direction, w),
            w.len() >= 2,
        ensures
            self.is_walk(direction, w.drop_last()),
            self.step(direction, w[w.len() - 2], w.last()),
            w.drop_last()[0] == w[0],
            w.drop_last().last() == w[w.len() - 2],
    {
        let v = w.drop_last();
        assert forall|i: int| 0 <= i < v.len() - 1 implies self.step(
            direction,
            #[trigger] v[i],
            v[i + 1],
        ) by {
            assert(self.step(direction, w[i], w[i + 1]));
        }
        assert(self.step(direction, w[w.len() - 2], w[w.len() - 2 + 1]));
    }

    /// Every cell of a walk lies inside the grid.
    pub proof fn lemma_walk_inside(&self, direction: Direction, w: Seq<Coord>, i: int)
        requires
            self.is_walk(direction, w),
            0 <= i < w.len(),
        ensures
            self.contains(w[i]),
    {
        if i > 0 {
            assert(self.step(direction, w[i - 1], w[i - 1 + 1]));
        }
    }

    /// A walk read backwards is a walk in the reversed direction.
    pub proof fn lemma_walk_reverse(&self, direction: Direction, w: Seq<Coord>)
        requires
            self.is_walk(direction, w),
        ensures
            self.is_walk(direction.reversed(), w.reverse()),
            w.reverse().len() == w.len(),
            w.reverse()[0] == w.last(),
            w.reverse().last() == w[0],
    {
        let v = w.reverse();
        self.lemma_walk_inside(direction, w, w.len() - 1);
        assert forall|i: int| 0 <= i < v.len() - 1 implies self.step(
            direction.reversed(),
            #[trigger] v[i],
            v[i + 1],
        ) by {
            let j = w.len() - 2 - i;
            assert(self.step(direction, w[j], w[j + 1]));
            assert(v[i] == w[j + 1]);
            assert(v[i + 1] == w[j]);
            lemma_admissible_reversed(
                direction,
                self.elevation(w[j]) as int,
                self.elevation(w[j + 1]) as int,
            );
        }
    }

    /// A walk that meets a cell twice can leave out what lies between the
    /// two meetings.
    pub proof fn lemma_walk_cut(&self, direction: Direction, w: Seq<Coord>, i: int, j: int)
        requires
            self.is_walk(direction, w),
            0 <= i < j < w.len(),
            w[i] == w[j],
        ensures
            self.is_walk(direction, w.take(i + 1) + w.skip(j + 1)),
            (w.take(i + 1) + w.skip(j + 1)).len() == w.len() - (j - i),
            (w.take(i + 1) + w.skip(j + 1))[0] == w[0],
            (w.take(i + 1) + w.skip(j + 1)).last() == w.last(),
    {
        let v = w.take(i + 1) + w.skip(j + 1);
        assert forall|k: int| 0 <= k < v.len() - 1 implies self.step(
            direction,
            #[trigger] v[k],
            v[k + 1],
        ) by {
            if k < i {
                assert(self.step(direction, w[k], w[k + 1]));
            } else if k == i {
                assert(self.step(direction, w[j], w[j + 1]));
            } else {
                let at = k + (j - i);
                assert(self.step(direction, w[at], w[at + 1]));
            }
        }
    }

    /// A walk longer than the grid has cells meets some cell twice.
    pub proof fn lemma_long_walk_repeats(&self, direction: Direction, w: Seq<Coord>) -> (at: (
        int,
        int,
    ))
        requires
            self.wf(),
            self.is_walk(direction, w),
            w.len() > self.area(),
        ensures
            0 <= at.0 < at.1 < w.len(),
            w[at.0] == w[at.1],
    {
        if forall|i: int, j: int| 0 <= i < j < w.len() ==> w[i] != w[j] {
            assert forall|i: int| 0 <= i < w.len() implies self.contains(#[trigger] w[i]) by {
                self.lemma_walk_inside(direction, w, i);
            }
            self.lemma_distinct_cells_fit(w);
            (0, 0)
        } else {
            let (i, j) = choose|i: int, j: int| 0 <= i < j < w.len() && w[i] == w[j];
            (i, j)
        }
    }

    /// A cell that can be reached at all is reached in fewer moves than
    /// the grid has cells.
    pub proof fn lemma_reaches_soon(
        &self,
        direction: Direction,
        from: Coord,
        to: Coord,
        moves: nat,
    ) -> (soon: nat)
        requires
            self.wf(),
            self.reaches(direction, from, to, moves),
        ensures
            soon <= moves,
            soon < self.area(),
            self.reaches(direction, from, to, soon),
        decreases moves,
    {
        if moves < self.area() {
            moves
        } else {
            let w = choose|w: Seq<Coord>|
                #[trigger] self.is_walk(direction, w) && w.len() == moves + 1 && w[0] == from
                    && w.last() == to;
            let at = self.lemma_long_walk_repeats(direction, w);
            self.lemma_walk_cut(direction, w, at.0, at.1);
            let v = w.take(at.0 + 1) + w.skip(at.1 + 1);
            let fewer = (v.len() - 1) as nat;
            assert(self.is_walk(direction, v) && v.len() == fewer + 1 && v[0] == from && v.last()
                == to);
            self.lemma_reaches_soon(direction, from, to, fewer)
        }
    }

    /// The distance to the nearest target is less than the number of
    /// cells.
    pub proof fn lemma_nearest_below_area(
        &self,
        direction: Direction,
        origin: Coord,
        targets: Set<Coord>,
    )
        requires
            self.wf(),
        ensures
            self.nearest(direction, origin, targets) matches Some(moves) ==> moves < self.area(),
    {
        self.lemma_nearest(direction, origin, targets);
        if let Some(moves) = self.nearest(direction, origin, targets) {
            let c = choose|c: Coord|
                targets.contains(c) && #[trigger] self.reaches(direction, origin, c, moves);
            let soon = self.lemma_reaches_soon(direction, origin, c, moves);
            assert(self.target_at(direction, origin, targets, soon));
        }
    }

    /// The nearest target is where a target is found and none is nearer.
    pub proof fn lemma_nearest_some(
        &self,
        direction: Direction,
        origin: Coord,
        targets: Set<Coord>,
        moves: nat,
    )
        requires
            self.is_nearest(direction, origin, targets, moves),
        ensures
            self.nearest(direction, origin, targets) == Some(moves),
    {
        let m = choose|m: nat| self.is_nearest(direction, origin, targets, m);
        assert(self.is_nearest(direction, origin, targets, m));
        assert(self.target_at(direction, origin, targets, m));
        assert(self.target_at(direction, origin, targets, moves));
    }

    /// Where a target can be reached at all, one is reached in a least
    /// number of moves.
    pub proof fn lemma_least_exists(
        &self,
        direction: Direction,
        origin: Coord,
        targets: Set<Coord>,
        moves: nat,
    ) -> (least: nat)
        requires
            self.target_at(direction, origin, targets, moves),
        ensures
            least <= moves,
            self.is_nearest(direction, origin, targets, least),
        decreases moves,
    {
        if exists|m: nat| m < moves && self.target_at(direction, origin, targets, m) {
            let m = choose|m: nat| m < moves && self.target_at(direction, origin, targets, m);
            self.lemma_least_exists(direction, origin, targets, m)
        } else {
            moves
        }
    }

    /// What `nearest` says: `Some(moves)` exactly where `moves` is the least
    /// number of moves to a target, `None` exactly where no target can be
    /// reached.
    pub proof fn lemma_nearest(&self, direction: Direction, origin: Coord, targets: Set<Coord>)
        ensures
            match self.nearest(direction, origin, targets) {
                Some(moves) => self.is_nearest(direction, origin, targets, moves),
                None => forall|m: nat| !self.target_at(direction, origin, targets, m),
            },
    {
        if exists|m: nat| self.target_at(direction, origin, targets, m) {
            let m = choose|m: nat| self.target_at(direction, origin, targets, m);
            let least = self.lemma_least_exists(direction, origin, targets, m);
            self.lemma_nearest_some(direction, origin, targets, least);
        }
    }

    /// An origin that is itself a target is at distance zero.
    pub proof fn lemma_nearest_at_origin(
        &self,
        direction: Direction,
        origin: Coord,
        targets: Set<Coord>,
    )
        requires
            self.contains(origin),
            targets.contains(origin),
        ensures
            self.nearest(direction, origin, targets) == Some(0nat),
    {
        let w = seq![origin];
        assert(self.is_walk(direction, w));
        assert(self.reaches(direction, origin, origin, 0));
        assert(self.target_at(direction, origin, targets, 0));
        self.lemma_nearest_some(direction, origin, targets, 0);
    }

    /// Reaching `to` from `from` is reaching `from` from `to` in the
    /// reversed direction, in as many moves.
    pub proof fn lemma_reaches_reversed(
        &self,
        direction: Direction,
        from: Coord,
        to: Coord,
        moves: nat,
    )
        ensures
            self.reaches(direction, from, to, moves) == self.reaches(
                direction.reversed(),
                to,
                from,
                moves,
            ),
    {
        if self.reaches(direction, from, to, moves) {
            let w = choose|w: Seq<Coord>|
                #[trigger] self.is_walk(direction, w) && w.len() == moves + 1 && w[0] == from
                    && w.last() == to;
            self.lemma_walk_reverse(direction, w);
            assert(self.is_walk(direction.reversed(), w.reverse()));
        }
        if self.reaches(direction.reversed(), to, from, moves) {
            let w = choose|w: Seq<Coord>|
                #[trigger] self.is_walk(direction.reversed(), w) && w.len() == moves + 1 && w[0]
                    == to && w.last() == from;
            self.lemma_walk_reverse(direction.reversed(), w);
            assert(self.is_walk(direction, w.reverse()));
        }
    }

    /// Reciprocity: the distance from `a` to the single cell `b` is the
    /// distance from `b` to the single cell `a` in the reversed direction.
    /// In particular a descending search from the end to a low cell finds
    /// what an ascending search from that cell to the end finds.
    pub proof fn lemma_reciprocity(&self, direction: Direction, a: Coord, b: Coord)
        ensures
            self.nearest(direction, a, set![b]) == self.nearest(direction.reversed(), b, set![a]),
    {
        let back = direction.reversed();
        assert forall|m: nat|
            self.target_at(direction, a, set![b], m) == self.target_at(back, b, set![a], m) by {
            self.lemma_reaches_reversed(direction, a, b, m);
            if self.target_at(direction, a, set![b], m) {
                assert(self.reaches(back, b, a, m));
            }
            if self.target_at(back, b, set![a], m) {
                assert(self.reaches(direction, a, b, m));
            }
        }
        self.lemma_nearest(direction, a, set![b]);
        self.lemma_nearest(back, b, set![a]);
        match self.nearest(direction, a, set![b]) {
            Some(m) => {
                assert(self.target_at(back, b, set![a], m));
                let n = self.nearest(back, b, set![a])->0;
                assert(self.target_at(direction, a, set![b], n));
            },
            None => {
                if self.nearest(back, b, set![a]) is Some {
                    let n = self.nearest(back, b, set![a])->0;
                    assert(self.target_at(direction, a, set![b], n));
                }
            },
        }
    }
}

} // verus!
