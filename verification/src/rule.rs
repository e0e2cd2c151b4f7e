//! The rule that says which steps are legal.
use vstd::prelude::*;

verus! {

/// The two ways a search may traverse the grid.
#[derive(Clone, Copy, Debug, PartialEq, Eq, Structural)]
pub enum Direction {
    /// Walking forward: a step may drop by any amount and climb by at most
    /// one unit.
    Ascending,
    /// Walking the same edges backwards: a step may climb by any amount and
    /// drop by at most one unit.
    Descending,
}

impl Direction {
    /// The direction that walks the same edges the other way round.
    pub open spec fn spec_reversed(self) -> Direction {
        match self {
            Direction::Ascending => Direction::Descending,
            Direction::Descending => Direction::Ascending,
        }
    }

    /// The direction that walks the same edges the other way round.
    #[verifier::when_used_as_spec(spec_reversed)]
    pub fn reversed(self) -> (r: Direction)
        ensures
            r == self.reversed(),
    {
        match self {
            Direction::Ascending => Direction::Descending,
            Direction::Descending => Direction::Ascending,
        }
    }
}

/// Whether a single step from elevation `e_from` to elevation `e_to` is
/// legal for a direction.
pub open spec fn admissible_spec(direction: Direction, e_from: int, e_to: int) -> bool {
    match direction {
        Direction::Ascending => e_to <= e_from + 1,
        Direction::Descending => e_from <= e_to + 1,
    }
}

/// Decides whether a step from elevation `e_from` to elevation `e_to` is
/// legal for a direction.
pub fn admissible(direction: Direction, e_from: u8, e_to: u8) -> (ok: bool)
    ensures
        ok == admissible_spec(direction, e_from as int, e_to as int),
{
    match direction {
        Direction::Ascending => e_to as u16 <= e_from as u16 + 1,
        Direction::Descending => e_from as u16 <= e_to as u16 + 1,
    }
}

/// A step is legal when ascending exactly when the step back is legal when
/// descending.
pub proof fn lemma_admissible_symmetric(a: int, b: int)
    ensures
        admissible_spec(Direction::Ascending, a, b) == admissible_spec(Direction::Descending, b, a),
{
}

/// A step is legal in one direction exactly when the step back is legal in
/// the reversed direction.
pub proof fn lemma_admissible_reversed(direction: Direction, a: int, b: int)
    ensures
        admissible_spec(direction, a, b) == admissible_spec(direction.reversed(), b, a),
        direction.reversed().reversed() == direction,
{
}

} // verus!
