//! The breadth-first search for the nearest target, and the proof that the
//! first target it finds lies nearest.
use vstd::prelude::*;
use crate::grid::{adjacent, Coord, Puzzle};
use crate::rule::{admissible_spec, Direction};
use crate::search::{seen_within, Path, Search};

verus! {

/// The set `targets` is what the predicate `is_target` decides on the cells
/// of `grid`: whatever the predicate may answer for a cell says whether the
/// cell belongs to the set.
pub open spec fn decides<F: Fn(Coord) -> bool>(
    is_target: F,
    grid: &Puzzle,
    targets: Set<Coord>,
) -> bool {
    forall|c: Coord, answer: bool|
        grid.contains(c) && #[trigger] is_target.ensures((c,), answer) ==> answer
            == targets.contains(c)
}

/// A number of steps as a natural number.
pub open spec fn steps(found: Option<usize>) -> Option<nat> {
    match found {
        Some(k) => Some(k as nat),
        None => None,
    }
}

/// `after` is `before` with discoveries added at its end.
spec fn extends(before: Seq<Path>, after: Seq<Path>) -> bool {
    &&& before.len() <= after.len()
    &&& forall|i: int| 0 <= i < before.len() ==> #[trigger] after[i] == before[i]
}

/// Every discovered cell is reached from `origin` by a walk of as many
/// moves as its cost.
#[verifier::opaque]
spec fn costs_are_walks(
    grid: &Puzzle,
    direction: Direction,
    origin: Coord,
    all: Seq<Path>,
) -> bool {
    forall|i: int|
        0 <= i < all.len() ==> grid.reaches(
            direction,
            origin,
            (#[trigger] all[i]).position,
            all[i].cost as nat,
        )
}

/// Every legal step from one of the first `upto` discovered cells leads to
/// a discovered cell that costs at most one move more.
#[verifier::opaque]
spec fn steps_are_seen(grid: &Puzzle, direction: Direction, all: Seq<Path>, upto: int) -> bool {
    forall|i: int, c: Coord|
        0 <= i < upto && #[trigger] grid.step(direction, all[i].position, c) ==> seen_within(
            all,
            c,
            all[i].cost + 1,
        )
}

/// Every legal step from `cur` to one of the first `upto` of `cells` leads
/// to a discovered cell that costs at most one move more.
#[verifier::opaque]
spec fn tried(
    grid: &Puzzle,
    direction: Direction,
    all: Seq<Path>,
    cur: Path,
    cells: Seq<Coord>,
    upto: int,
) -> bool {
    forall|k: int|
        0 <= k < upto && grid.step(direction, cur.position, #[trigger] cells[k]) ==> seen_within(
            all,
            cells[k],
            cur.cost + 1,
        )
}

/// The predicate has answered no for every discovered cell.
#[verifier::opaque]
spec fn none_is_target<F: Fn(Coord) -> bool>(is_target: F, all: Seq<Path>) -> bool {
    forall|i: int| 0 <= i < all.len() ==> is_target.ensures(((#[trigger] all[i]).position,), false)
}

/// A discovered cell stays discovered, at the same cost, when more are
/// found.
proof fn lemma_seen_within_extends(before: Seq<Path>, after: Seq<Path>, c: Coord, bound: int)
    requires
        extends(before, after),
        seen_within(before, c, bound),
    ensures
        seen_within(after, c, bound),
{
    let i = choose|i: int|
        0 <= i < before.len() && #[trigger] before[i].position == c && before[i].cost <= bound;
    assert(after[i] == before[i]);
    assert(after[i].position == c);
}

/// A cell reached in some moves leads by one legal step to a cell reached
/// in one move more.
proof fn lemma_reaches_step(
    grid: &Puzzle,
    direction: Direction,
    origin: Coord,
    via: Coord,
    to: Coord,
    moves: nat,
)
    requires
        grid.reaches(direction, origin, via, moves),
        grid.step(direction, via, to),
    ensures
        grid.reaches(direction, origin, to, moves + 1),
{
    let w = choose|w: Seq<Coord>|
        #[trigger] grid.is_walk(direction, w) && w.len() == moves + 1 && w[0] == origin && w.last()
            == via;
    grid.lemma_walk_push(direction, w, to);
    let v = w.push(to);
    assert(grid.is_walk(direction, v) && v.len() == moves + 2 && v[0] == origin && v.last() == to);
}

/// What the search knows stays true when the step from the cell at place
/// `at` to its neighbour `to` has been tried: costs are still lengths of
/// walks, the steps from earlier cells are still seen, and so are the
/// neighbours tried before; and the step to `to`, where legal, is seen.
proof fn lemma_tried_one(
    grid: &Puzzle,
    direction: Direction,
    origin: Coord,
    before: Seq<Path>,
    after: Seq<Path>,
    at: int,
    cells: Seq<Coord>,
    n: int,
    pushed: bool,
)
    requires
        0 <= at < before.len(),
        0 <= n < cells.len(),
        grid.contains(before[at].position),
        grid.contains(cells[n]),
        adjacent(before[at].position, cells[n]),
        costs_are_walks(grid, direction, origin, before),
        steps_are_seen(grid, direction, before, at),
        tried(grid, direction, before, before[at], cells, n),
        pushed ==> admissible_spec(
            direction,
            grid.elevation(before[at].position) as int,
            grid.elevation(cells[n]) as int,
        ),
        pushed ==> after == before.push(
            Path { position: cells[n], cost: (before[at].cost + 1) as usize },
        ) && before[at].cost + 1 <= usize::MAX,
        !pushed ==> after == before,
        admissible_spec(
            direction,
            grid.elevation(before[at].position) as int,
            grid.elevation(cells[n]) as int,
        ) ==> seen_within(after, cells[n], before[at].cost + 1),
    ensures
        extends(before, after),
        after[at] == before[at],
        costs_are_walks(grid, direction, origin, after),
        steps_are_seen(grid, direction, after, at),
        tried(grid, direction, after, before[at], cells, n + 1),
{
    reveal(costs_are_walks);
    reveal(steps_are_seen);
    reveal(tried);
    let cur = before[at];
    let to = cells[n];
    assert(extends(before, after));
    assert forall|i: int| 0 <= i < after.len() implies grid.reaches(
        direction,
        origin,
        (#[trigger] after[i]).position,
        after[i].cost as nat,
    ) by {
        if i < before.len() {
            assert(after[i] == before[i]);
        } else {
            lemma_reaches_step(grid, direction, origin, cur.position, to, cur.cost as nat);
        }
    }
    assert forall|i: int, c: Coord|
        0 <= i < at && #[trigger] grid.step(direction, after[i].position, c) implies seen_within(
        after,
        c,
        after[i].cost + 1,
    ) by {
        assert(after[i] == before[i]);
        assert(grid.step(direction, before[i].position, c));
        lemma_seen_within_extends(before, after, c, before[i].cost + 1);
    }
    assert forall|k: int|
        0 <= k < n + 1 && grid.step(
            direction,
            cur.position,
            #[trigger] cells[k],
        ) implies seen_within(after, cells[k], cur.cost + 1) by {
        if k < n {
            lemma_seen_within_extends(before, after, cells[k], cur.cost + 1);
        }
    }
}

/// When every neighbour of the cell at place `at` has been tried, every
/// legal step from it is seen.
proof fn lemma_tried_all(grid: &Puzzle, direction: Direction, all: Seq<Path>, at: int)
    requires
        0 <= at < all.len(),
        grid.contains(all[at].position),
        steps_are_seen(grid, direction, all, at),
        tried(
            grid,
            direction,
            all,
            all[at],
            grid.spec_neighbors(all[at].position),
            grid.spec_neighbors(all[at].position).len() as int,
        ),
    ensures
        steps_are_seen(grid, direction, all, at + 1),
{
    reveal(steps_are_seen);
    reveal(tried);
    let cells = grid.spec_neighbors(all[at].position);
    assert forall|i: int, c: Coord|
        0 <= i < at + 1 && #[trigger] grid.step(direction, all[i].position, c) implies seen_within(
        all,
        c,
        all[i].cost + 1,
    ) by {
        if i == at {
            grid.lemma_neighbors(all[at].position, c);
            let k = choose|k: int| 0 <= k < cells.len() && cells[k] == c;
            assert(grid.step(direction, all[at].position, cells[k]));
        }
    }
}

/// Where every discovered cell cheaper than `bound` is among the first
/// `upto`, and every step from those is seen, a walk of at most `bound`
/// moves from the origin ends in a discovered cell that costs no more than
/// the walk has moves.
proof fn lemma_walk_is_seen(
    grid: &Puzzle,
    direction: Direction,
    all: Seq<Path>,
    upto: int,
    bound: int,
    w: Seq<Coord>,
)
    requires
        all.len() >= 1,
        all[0].cost == 0,
        grid.is_walk(direction, w),
        w[0] == all[0].position,
        w.len() - 1 <= bound,
        steps_are_seen(grid, direction, all, upto),
        forall|i: int| 0 <= i < all.len() && (#[trigger] all[i]).cost < bound ==> i < upto,
    ensures
        seen_within(all, w.last(), w.len() - 1),
    decreases w.len(),
{
    reveal(steps_are_seen);
    if w.len() == 1 {
        assert(all[0].position == w.last());
    } else {
        let before = w.drop_last();
        grid.lemma_walk_drop_last(direction, w);
        lemma_walk_is_seen(grid, direction, all, upto, bound, before);
        let i = choose|i: int|
            0 <= i < all.len() && #[trigger] all[i].position == before.last() && all[i].cost
                <= before.len() - 1;
        assert(all[i].cost < bound);
        assert(grid.step(direction, all[i].position, w.last()));
    }
}

/// Once every discovered cell has been expanded and none is a target, no
/// walk from the origin ends in a target.
proof fn lemma_no_target_left<F: Fn(Coord) -> bool>(
    grid: &Puzzle,
    direction: Direction,
    origin: Coord,
    all: Seq<Path>,
    is_target: F,
    targets: Set<Coord>,
)
    requires
        grid.contains(origin),
        all.len() >= 1,
        all[0] == (Path { position: origin, cost: 0 }),
        steps_are_seen(grid, direction, all, all.len() as int),
        none_is_target(is_target, all),
        decides(is_target, grid, targets),
    ensures
        grid.nearest(direction, origin, targets) is None,
        !targets.contains(origin),
{
    reveal(none_is_target);
    assert forall|m: nat| !grid.target_at(direction, origin, targets, m) by {
        if grid.target_at(direction, origin, targets, m) {
            let c = choose|c: Coord|
                targets.contains(c) && #[trigger] grid.reaches(direction, origin, c, m);
            let w = choose|w: Seq<Coord>|
                #[trigger] grid.is_walk(direction, w) && w.len() == m + 1 && w[0] == origin
                    && w.last() == c;
            lemma_walk_is_seen(grid, direction, all, all.len() as int, m as int, w);
            grid.lemma_walk_inside(direction, w, w.len() - 1);
            let i = choose|i: int|
                0 <= i < all.len() && #[trigger] all[i].position == c && all[i].cost <= m;
            assert(is_target.ensures((all[i].position,), false));
        }
    }
    assert(is_target.ensures((all[0].position,), false));
}

/// The first target found lies nearest.  Where the cell at place `at` is
/// being expanded, the steps from every cell before it are seen, no cell
/// discovered earlier is a target, and the cell discovered last is a
/// target one move further than the cell at `at`, that cell's cost is the
/// least number of moves to a target.
proof fn lemma_first_target<F: Fn(Coord) -> bool>(
    search: &Search,
    grid: &Puzzle,
    direction: Direction,
    origin: Coord,
    is_target: F,
    targets: Set<Coord>,
)
    requires
        search.wf(grid),
        search.expanded() >= 1,
        search.discovered().len() >= 2,
        search.discovered()[0].position == origin,
        search.discovered().last().cost == search.current().cost + 1,
        costs_are_walks(grid, direction, origin, search.discovered()),
        steps_are_seen(grid, direction, search.discovered(), search.expanded() - 1),
        none_is_target(is_target, search.discovered().drop_last()),
        is_target.ensures((search.discovered().last().position,), true),
        decides(is_target, grid, targets),
    ensures
        grid.nearest(direction, origin, targets) == Some(search.discovered().last().cost as nat),
        !targets.contains(origin),
{
    reveal(costs_are_walks);
    reveal(none_is_target);
    let all = search.discovered();
    let at = search.expanded() - 1;
    let to = all.last().position;
    let k = all.last().cost as nat;
    search.lemma_bounds(grid);
    search.lemma_order(grid);
    assert(grid.contains(to));
    assert(targets.contains(to));
    assert(grid.reaches(direction, origin, to, k));
    assert(grid.target_at(direction, origin, targets, k));
    assert forall|m: nat| #[trigger]
        grid.target_at(direction, origin, targets, m) implies k <= m by {
        if m < k {
            let c = choose|c: Coord|
                targets.contains(c) && #[trigger] grid.reaches(direction, origin, c, m);
            let w = choose|w: Seq<Coord>|
                #[trigger] grid.is_walk(direction, w) && w.len() == m + 1 && w[0] == origin
                    && w.last() == c;
            assert forall|i: int| 0 <= i < all.len() && (#[trigger] all[i]).cost
                < all[at].cost implies i < at by {
                if i >= at {
                    assert(all[at].cost <= all[i].cost);
                }
            }
            lemma_walk_is_seen(grid, direction, all, at, all[at].cost as int, w);
            grid.lemma_walk_inside(direction, w, w.len() - 1);
            let i = choose|i: int|
                0 <= i < all.len() && #[trigger] all[i].position == c && all[i].cost <= m;
            assert(all.drop_last()[i] == all[i]);
            assert(is_target.ensures((all.drop_last()[i].position,), false));
        }
    }
    grid.lemma_nearest_some(direction, origin, targets, k);
    assert(all.drop_last()[0] == all[0]);
    assert(is_target.ensures((all.drop_last()[0].position,), false));
}

/// The cell discovered last is reached by a walk of as many moves as its
/// cost.
proof fn lemma_last_is_reached(grid: &Puzzle, direction: Direction, origin: Coord, all: Seq<Path>)
    requires
        all.len() >= 1,
        costs_are_walks(grid, direction, origin, all),
    ensures
        grid.reaches(direction, origin, all.last().position, all.last().cost as nat),
{
    reveal(costs_are_walks);
}

/// Once every discovered cell has been expanded and the predicate has
/// answered no for each, it has answered no for every cell that a walk
/// from the origin reaches.
proof fn lemma_reached_is_refused<F: Fn(Coord) -> bool>(
    grid: &Puzzle,
    direction: Direction,
    origin: Coord,
    all: Seq<Path>,
    is_target: F,
    c: Coord,
    m: nat,
)
    requires
        all.len() >= 1,
        all[0] == (Path { position: origin, cost: 0 }),
        steps_are_seen(grid, direction, all, all.len() as int),
        none_is_target(is_target, all),
        grid.reaches(direction, origin, c, m),
    ensures
        is_target.ensures((c,), false),
{
    reveal(none_is_target);
    let w = choose|w: Seq<Coord>|
        #[trigger] grid.is_walk(direction, w) && w.len() == m + 1 && w[0] == origin && w.last()
            == c;
    lemma_walk_is_seen(grid, direction, all, all.len() as int, m as int, w);
    let i = choose|i: int|
        0 <= i < all.len() && #[trigger] all[i].position == c && all[i].cost <= m;
    assert(is_target.ensures((all[i].position,), false));
}

/// While the cell taken last is being expanded, the predicate has
/// answered no for every cell that a walk from the origin reaches in
/// fewer moves than the cell discovered last costs, if that cell lies one
/// move further than the cell taken last and every earlier cell was
/// refused.
proof fn lemma_nearer_is_refused<F: Fn(Coord) -> bool>(
    search: &Search,
    grid: &Puzzle,
    direction: Direction,
    origin: Coord,
    is_target: F,
    c: Coord,
    m: nat,
)
    requires
        search.wf(grid),
        search.expanded() >= 1,
        search.discovered().len() >= 2,
        search.discovered()[0].position == origin,
        search.discovered().last().cost == search.current().cost + 1,
        steps_are_seen(grid, direction, search.discovered(), search.expanded() - 1),
        none_is_target(is_target, search.discovered().drop_last()),
        grid.reaches(direction, origin, c, m),
        m < search.discovered().last().cost,
    ensures
        is_target.ensures((c,), false),
{
    reveal(none_is_target);
    let all = search.discovered();
    let at = search.expanded() - 1;
    search.lemma_bounds(grid);
    search.lemma_order(grid);
    let w = choose|w: Seq<Coord>|
        #[trigger] grid.is_walk(direction, w) && w.len() == m + 1 && w[0] == origin && w.last()
            == c;
    assert forall|i: int| 0 <= i < all.len() && (#[trigger] all[i]).cost < all[at].cost implies i
        < at by {
        if i >= at {
            assert(all[at].cost <= all[i].cost);
        }
    }
    lemma_walk_is_seen(grid, direction, all, at, all[at].cost as int, w);
    let i = choose|i: int|
        0 <= i < all.len() && #[trigger] all[i].position == c && all[i].cost <= m;
    assert(all.drop_last()[i] == all[i]);
    assert(is_target.ensures((all.drop_last()[i].position,), false));
}

/// No discovered cell is a target once the predicate has answered no for
/// the cell discovered last.
proof fn lemma_none_is_target_push<F: Fn(Coord) -> bool>(
    is_target: F,
    before: Seq<Path>,
    path: Path,
)
    requires
        none_is_target(is_target, before),
        is_target.ensures((path.position,), false),
    ensures
        none_is_target(is_target, before.push(path)),
{
    reveal(none_is_target);
    let all = before.push(path);
    assert forall|i: int| 0 <= i < all.len() implies is_target.ensures(
        ((#[trigger] all[i]).position,),
        false,
    ) by {
        if i < before.len() {
            assert(all[i] == before[i]);
        }
    }
}

/// At the start of a search only the origin is discovered: a walk of no
/// moves reaches it, nothing has been expanded, and the predicate has
/// answered no for it.
proof fn lemma_search_begins<F: Fn(Coord) -> bool>(
    grid: &Puzzle,
    direction: Direction,
    origin: Coord,
    is_target: F,
)
    requires
        grid.contains(origin),
        is_target.ensures((origin,), false),
    ensures
        costs_are_walks(grid, direction, origin, seq![Path { position: origin, cost: 0 }]),
        steps_are_seen(grid, direction, seq![Path { position: origin, cost: 0 }], 0),
        none_is_target(is_target, seq![Path { position: origin, cost: 0 }]),
{
    reveal(costs_are_walks);
    reveal(steps_are_seen);
    reveal(none_is_target);
    assert(grid.is_walk(direction, seq![origin]));
    assert(grid.reaches(direction, origin, origin, 0));
}

/// Finds the least number of legal moves that lead from `origin` to a cell
/// for which `is_target` holds, by a breadth-first search.  An origin that
/// is itself a target is at distance zero.  `None` means that no target can
/// be reached.  A distance is always less than the number of cells.
///
/// The predicate is asked about cells of the grid only.  Whatever set of
/// cells it decides, the result is the distance from `origin` to the
/// nearest cell of that set.  Whatever the predicate answers, a distance
/// is the length of a walk to a cell that it accepted, and it refused
/// every cell that a shorter walk reaches; without a distance it refused
/// every cell that any walk reaches.
pub fn shortest_path<F: Fn(Coord) -> bool>(
    grid: &Puzzle,
    origin: Coord,
    direction: Direction,
    is_target: F,
) -> (found: Option<usize>)
    requires
        grid.wf(),
        grid.contains(origin),
        forall|c: Coord| grid.contains(c) ==> is_target.requires((c,)),
    ensures
        forall|targets: Set<Coord>| #[trigger]
            decides(is_target, grid, targets) ==> steps(found) == grid.nearest(
                direction,
                origin,
                targets,
            ),
        forall|targets: Set<Coord>| #[trigger]
            decides(is_target, grid, targets) && targets.contains(origin) ==> found == Some(
                0usize,
            ),
        found matches Some(k) ==> k < grid.area(),
        found matches Some(k) ==> exists|c: Coord|
            #[trigger] grid.reaches(direction, origin, c, k as nat) && is_target.ensures(
                (c,),
                true,
            ),
        forall|c: Coord, m: nat|
            (found matches Some(k) ==> m < k) && #[trigger] grid.reaches(direction, origin, c, m)
                ==> is_target.ensures((c,), false),
{
    proof {
        grid.lemma_wf();
    }
    if is_target(origin) {
        proof {
            assert(grid.is_walk(direction, seq![origin]));
            assert(grid.reaches(direction, origin, origin, 0));
            assert forall|targets: Set<Coord>| #[trigger]
                decides(is_target, grid, targets) implies steps(Some(0usize)) == grid.nearest(
                direction,
                origin,
                targets,
            ) by {
                grid.lemma_nearest_at_origin(direction, origin, targets);
            }
        }
        return Some(0);
    }
    let mut search = Search::new(grid, origin, direction);
    proof {
        lemma_search_begins(grid, direction, origin, is_target);
    }
    loop
        invariant
            grid.wf(),
            grid.contains(origin),
            forall|c: Coord| grid.contains(c) ==> is_target.requires((c,)),
            search.wf(grid),
            search.direction() == direction,
            search.discovered()[0] == (Path { position: origin, cost: 0 }),
            costs_are_walks(grid, direction, origin, search.discovered()),
            steps_are_seen(grid, direction, search.discovered(), search.expanded() as int),
            none_is_target(is_target, search.discovered()),
            grid.area() <= usize::MAX,
        decreases grid.area() - search.expanded(),
    {
        proof {
            search.lemma_bounds(grid);
        }
        let taken = search.pop_path();
        proof {
            search.lemma_bounds(grid);
        }
        let cur = match taken {
            Some(path) => path,
            None => {
                proof {
                    let all = search.discovered();
                    assert forall|targets: Set<Coord>| #[trigger]
                        decides(is_target, grid, targets) implies grid.nearest(
                        direction,
                        origin,
                        targets,
                    ) is None && !targets.contains(origin) by {
                        lemma_no_target_left(grid, direction, origin, all, is_target, targets);
                    }
                    assert forall|c: Coord, m: nat| #[trigger]
                        grid.reaches(direction, origin, c, m) implies is_target.ensures(
                        (c,),
                        false,
                    ) by {
                        lemma_reached_is_refused(grid, direction, origin, all, is_target, c, m);
                    }
                }
                return None;
            },
        };
        let ghost at = search.expanded() - 1;
        proof {
            search.lemma_order(grid);
            assert(grid.contains(search.discovered()[at].position));
        }
        let cells = grid.neighbors(cur.position);
        proof {
            assert(tried(grid, direction, search.discovered(), cur, cells@, 0)) by {
                reveal(tried);
            }
        }
        let mut i: usize = 0;
        while i < cells.len()
            invariant
                grid.wf(),
                grid.contains(origin),
                forall|c: Coord| grid.contains(c) ==> is_target.requires((c,)),
                search.wf(grid),
                search.direction() == direction,
                search.discovered()[0] == (Path { position: origin, cost: 0 }),
                costs_are_walks(grid, direction, origin, search.discovered()),
                steps_are_seen(grid, direction, search.discovered(), at),
                none_is_target(is_target, search.discovered()),
                search.expanded() == at + 1,
                0 <= at < search.discovered().len(),
                search.discovered()[at] == cur,
                grid.contains(cur.position),
                cells@ == grid.spec_neighbors(cur.position),
                i <= cells.len(),
                tried(grid, direction, search.discovered(), cur, cells@, i as int),
                grid.area() <= usize::MAX,
            decreases cells.len() - i,
        {
            let to = cells[i];
            let ghost before = search.discovered();
            proof {
                assert(cells@.contains(cells@[i as int]));
                grid.lemma_neighbors(cur.position, to);
            }
            let fresh = !search.visited(grid, to);
            let pushed = grid.push_path(&mut search, &cur, to) && fresh;
            proof {
                lemma_tried_one(
                    grid,
                    direction,
                    origin,
                    before,
                    search.discovered(),
                    at,
                    cells@,
                    i as int,
                    pushed,
                );
            }
            if pushed {
                if is_target(to) {
                    proof {
                        assert(search.discovered().drop_last() == before);
                        lemma_last_is_reached(grid, direction, origin, search.discovered());
                        assert forall|c: Coord, m: nat|
                            m < cur.cost + 1 && #[trigger] grid.reaches(
                                direction,
                                origin,
                                c,
                                m,
                            ) implies is_target.ensures((c,), false) by {
                            lemma_nearer_is_refused(
                                &search,
                                grid,
                                direction,
                                origin,
                                is_target,
                                c,
                                m,
                            );
                        }
                        assert forall|targets: Set<Coord>| #[trigger]
                            decides(is_target, grid, targets) implies grid.nearest(
                            direction,
                            origin,
                            targets,
                        ) == Some((cur.cost + 1) as nat) && !targets.contains(origin) by {
                            lemma_first_target(
                                &search,
                                grid,
                                direction,
                                origin,
                                is_target,
                                targets,
                            );
                        }
                    }
                    return Some(cur.cost + 1);
                }
                proof {
                    lemma_none_is_target_push(
                        is_target,
                        before,
                        Path { position: to, cost: (cur.cost + 1) as usize },
                    );
                }
            }
            i += 1;
        }
        proof {
            lemma_tried_all(grid, direction, search.discovered(), at);
        }
    }
}

} // verus!
