use advent::bfs::shortest_path;
use advent::grid::{Coord, Puzzle};
use advent::parse::load;
use advent::rule::Direction;
use advent::search::{Path, Search};

const SAMPLE: &str = "Sabqponm\nabcryxxl\naccszExk\nacctuvwj\nabdefghi\n";

fn at(row: usize, col: usize) -> Coord {
    Coord { row, col }
}

fn cells(puzzle: &Puzzle) -> Vec<Coord> {
    let mut all = Vec::new();
    for row in 0..puzzle.rows() {
        for col in 0..puzzle.cols() {
            all.push(at(row, col));
        }
    }
    all
}

#[test]
fn origin_that_is_a_target_costs_nothing() {
    let puzzle = load(SAMPLE).unwrap();
    for origin in cells(&puzzle) {
        for direction in [Direction::Ascending, Direction::Descending] {
            assert_eq!(shortest_path(&puzzle, origin, direction, |c| c == origin), Some(0));
        }
    }
}

#[test]
fn origin_among_other_targets_costs_nothing() {
    let puzzle = load(SAMPLE).unwrap();
    assert_eq!(shortest_path(&puzzle, at(2, 2), Direction::Ascending, |_| true), Some(0));
}

#[test]
fn neighbour_costs_one_move() {
    let puzzle = load(SAMPLE).unwrap();
    assert_eq!(shortest_path(&puzzle, at(0, 0), Direction::Ascending, |c| c == at(0, 1)), Some(1));
    assert_eq!(shortest_path(&puzzle, at(0, 0), Direction::Ascending, |c| c == at(1, 0)), Some(1));
}

#[test]
fn steep_step_needs_a_detour() {
    let puzzle = load(SAMPLE).unwrap();
    // From `b` at (0, 2) the cell `q` at (0, 3) is too high to step on.
    assert_eq!(shortest_path(&puzzle, at(0, 2), Direction::Ascending, |c| c == at(1, 2)), Some(1));
    assert_eq!(
        shortest_path(&puzzle, at(0, 2), Direction::Ascending, |c| c == at(0, 3)),
        Some(17)
    );
    // Walking the edges backwards, the drop from `q` to `b` is as illegal.
    assert_eq!(
        shortest_path(&puzzle, at(0, 3), Direction::Descending, |c| c == at(0, 2)),
        Some(17)
    );
    // Descending may climb freely.
    assert_eq!(shortest_path(&puzzle, at(0, 2), Direction::Descending, |c| c == at(0, 3)), Some(1));
}

#[test]
fn nearest_of_several_targets_is_found() {
    let puzzle = load(SAMPLE).unwrap();
    let found = shortest_path(&puzzle, at(0, 0), Direction::Ascending, |c| {
        c == at(4, 0) || c == at(0, 2)
    });
    assert_eq!(found, Some(2));
}

#[test]
fn sample_ascending_from_start_to_end() {
    let puzzle = load(SAMPLE).unwrap();
    let end = puzzle.end();
    let found = shortest_path(&puzzle, puzzle.start(), Direction::Ascending, |c| c == end);
    assert_eq!(found, Some(31));
}

#[test]
fn sample_descending_from_end_to_lowest() {
    let puzzle = load(SAMPLE).unwrap();
    let found = shortest_path(&puzzle, puzzle.end(), Direction::Descending, |c| {
        puzzle.elevation(c) == 0
    });
    assert_eq!(found, Some(29));
}

#[test]
fn unreachable_end_is_reported_as_absent() {
    let puzzle = load("SbE\n").unwrap();
    let end = puzzle.end();
    assert_eq!(shortest_path(&puzzle, puzzle.start(), Direction::Ascending, |c| c == end), None);
}

#[test]
fn search_without_targets_finds_nothing() {
    let puzzle = load(SAMPLE).unwrap();
    assert_eq!(shortest_path(&puzzle, at(0, 0), Direction::Ascending, |_| false), None);
    assert_eq!(shortest_path(&puzzle, at(2, 5), Direction::Descending, |_| false), None);
}

#[test]
fn target_outside_the_grid_is_never_found() {
    let puzzle = load(SAMPLE).unwrap();
    assert_eq!(shortest_path(&puzzle, at(0, 0), Direction::Ascending, |c| c == at(5, 0)), None);
}

#[test]
fn costs_stay_below_the_number_of_cells() {
    let puzzle = load(SAMPLE).unwrap();
    let area = puzzle.rows() * puzzle.cols();
    for origin in cells(&puzzle) {
        for target in cells(&puzzle) {
            for direction in [Direction::Ascending, Direction::Descending] {
                if let Some(cost) = shortest_path(&puzzle, origin, direction, |c| c == target) {
                    assert!(cost < area);
                }
            }
        }
    }
}

#[test]
fn longest_possible_walk_visits_every_cell() {
    let puzzle = load("SabcdefghijklmnopqrstuvwxyE\n").unwrap();
    let end = puzzle.end();
    assert_eq!(puzzle.cols(), 27);
    let found = shortest_path(&puzzle, puzzle.start(), Direction::Ascending, |c| c == end);
    assert_eq!(found, Some(26));
}

#[test]
fn descending_from_end_mirrors_ascending_from_low_cell() {
    let puzzle = load(SAMPLE).unwrap();
    let end = puzzle.end();
    let mut reached = 0;
    for low in cells(&puzzle) {
        if puzzle.elevation(low) != 0 {
            continue;
        }
        let down = shortest_path(&puzzle, end, Direction::Descending, |c| c == low);
        let up = shortest_path(&puzzle, low, Direction::Ascending, |c| c == end);
        assert_eq!(down, up);
        if down.is_some() {
            reached += 1;
        }
    }
    assert_eq!(reached, 6);
}

#[test]
fn reversed_search_mirrors_between_any_two_cells() {
    let puzzle = load(SAMPLE).unwrap();
    for a in cells(&puzzle) {
        for b in cells(&puzzle) {
            let forth = shortest_path(&puzzle, a, Direction::Ascending, |c| c == b);
            let back = shortest_path(&puzzle, b, Direction::Descending, |c| c == a);
            assert_eq!(forth, back);
        }
    }
}

#[test]
fn new_search_waits_at_the_origin() {
    let puzzle = load(SAMPLE).unwrap();
    let mut search = Search::new(&puzzle, at(2, 5), Direction::Descending);
    assert_eq!(search.direction(), Direction::Descending);
    assert_eq!(search.pop_path(), Some(Path { position: at(2, 5), cost: 0 }));
    assert_eq!(search.pop_path(), None);
}

#[test]
fn push_path_enqueues_an_admissible_new_cell() {
    let puzzle = load(SAMPLE).unwrap();
    let mut search = Search::new(&puzzle, at(0, 0), Direction::Ascending);
    let origin = search.pop_path().unwrap();
    assert!(puzzle.push_path(&mut search, &origin, at(0, 1)));
    assert_eq!(search.pop_path(), Some(Path { position: at(0, 1), cost: 1 }));
    assert_eq!(search.pop_path(), None);
}

#[test]
fn push_path_enqueues_a_cell_only_once() {
    let puzzle = load(SAMPLE).unwrap();
    let mut search = Search::new(&puzzle, at(0, 0), Direction::Ascending);
    let origin = search.pop_path().unwrap();
    assert!(!search.visited(&puzzle, at(0, 1)));
    assert!(puzzle.push_path(&mut search, &origin, at(0, 1)));
    assert!(search.visited(&puzzle, at(0, 1)));
    // The step stays admissible, but the cell does not join again.
    assert!(puzzle.push_path(&mut search, &origin, at(0, 1)));
    let second = search.pop_path().unwrap();
    assert_eq!(second, Path { position: at(0, 1), cost: 1 });
    assert!(puzzle.push_path(&mut search, &second, at(0, 0)));
    assert_eq!(search.pop_path(), None);
}

#[test]
fn push_path_answers_alike_for_a_step_and_its_reverse() {
    let puzzle = load(SAMPLE).unwrap();
    for row in 0..puzzle.rows() {
        for col in 0..puzzle.cols() {
            let p = at(row, col);
            for q in puzzle.neighbors(p) {
                let mut up = Search::new(&puzzle, p, Direction::Ascending);
                let from_p = up.pop_path().unwrap();
                let mut down = Search::new(&puzzle, q, Direction::Descending);
                let from_q = down.pop_path().unwrap();
                let forth = puzzle.push_path(&mut up, &from_p, q);
                let back = puzzle.push_path(&mut down, &from_q, p);
                assert_eq!(forth, back);
                assert_eq!(forth, puzzle.elevation(q) <= puzzle.elevation(p) + 1);
            }
        }
    }
}

#[test]
fn push_path_skips_an_inadmissible_step() {
    let puzzle = load(SAMPLE).unwrap();
    let mut search = Search::new(&puzzle, at(0, 2), Direction::Ascending);
    let origin = search.pop_path().unwrap();
    assert!(!puzzle.push_path(&mut search, &origin, at(0, 3)));
    assert_eq!(search.pop_path(), None);
    let mut back = Search::new(&puzzle, at(0, 3), Direction::Descending);
    let origin = back.pop_path().unwrap();
    assert!(!puzzle.push_path(&mut back, &origin, at(0, 2)));
    assert!(puzzle.push_path(&mut back, &origin, at(1, 3)));
    assert_eq!(back.pop_path(), Some(Path { position: at(1, 3), cost: 1 }));
}

#[test]
fn cells_leave_the_frontier_in_level_order() {
    let puzzle = load(SAMPLE).unwrap();
    for direction in [Direction::Ascending, Direction::Descending] {
        let mut search = Search::new(&puzzle, at(2, 5), direction);
        let mut last = 0;
        let mut taken = 0;
        while let Some(cur) = search.pop_path() {
            assert!(cur.cost >= last);
            assert!(cur.cost <= last + 1);
            last = cur.cost;
            taken += 1;
            for to in puzzle.neighbors(cur.position) {
                puzzle.push_path(&mut search, &cur, to);
            }
        }
        assert!(taken <= 40);
    }
}

#[test]
fn every_cell_is_taken_at_most_once() {
    let puzzle = load(SAMPLE).unwrap();
    let mut search = Search::new(&puzzle, at(0, 0), Direction::Ascending);
    let mut seen: Vec<Coord> = Vec::new();
    while let Some(cur) = search.pop_path() {
        assert!(!seen.contains(&cur.position));
        seen.push(cur.position);
        for to in puzzle.neighbors(cur.position) {
            puzzle.push_path(&mut search, &cur, to);
        }
    }
    assert_eq!(seen.len(), 40);
}
