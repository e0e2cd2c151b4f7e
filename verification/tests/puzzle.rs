use advent::driver::contains_cell;
use advent::grid::{Coord, Puzzle};
use advent::parse::load;

const SAMPLE: &str = "Sabqponm\nabcryxxl\naccszExk\nacctuvwj\nabdefghi\n";

fn at(row: usize, col: usize) -> Coord {
    Coord { row, col }
}

fn lowest(puzzle: &Puzzle) -> Vec<Coord> {
    let mut low = Vec::new();
    for row in 0..puzzle.rows() {
        for col in 0..puzzle.cols() {
            if puzzle.elevation(at(row, col)) == 0 {
                low.push(at(row, col));
            }
        }
    }
    low
}

/// The sample of the puzzle's statement.
#[test]
fn day12_test01() {
    let mut puzzle = Puzzle::new();
    puzzle.configure(SAMPLE).unwrap();
    assert_eq!(puzzle.part1(), Some(31));
    assert_eq!(puzzle.part2(), Some(29));
}

#[test]
fn loaded_sample_answers_both_parts() {
    let puzzle = load(SAMPLE).unwrap();
    assert_eq!(puzzle.part1(), Some(31));
    assert_eq!(puzzle.part2(), Some(29));
}

#[test]
fn unreachable_end_has_no_answer() {
    let puzzle = load("SbE\n").unwrap();
    assert_eq!(puzzle.part1(), None);
    assert_eq!(puzzle.part2(), None);
}

#[test]
fn walled_end_has_no_answer() {
    let puzzle = load("Saaa\naccc\nacEc\naccc\n").unwrap();
    assert_eq!(puzzle.part1(), None);
    assert_eq!(puzzle.part2(), None);
}

#[test]
fn straight_climb_counts_every_letter() {
    let puzzle = load("SabcdefghijklmnopqrstuvwxyzE\n").unwrap();
    assert_eq!(puzzle.part1(), Some(27));
    assert_eq!(puzzle.part2(), Some(26));
}

#[test]
fn second_part_starts_from_the_nearest_low_cell() {
    let puzzle = load("SbcdefghijklmnopqrstuvwxyE\nabcdefghijklmnopqrstuvwxaa\n").unwrap();
    assert_eq!(puzzle.part1(), Some(25));
    assert_eq!(puzzle.part2(), Some(25));
    let short = load("SbcdefghijklmnopqrstuvwxyE\nabcdefghijklmnopqrstuvwxyz\n").unwrap();
    assert_eq!(short.part1(), Some(25));
    assert_eq!(short.part2(), Some(25));
}

/// Twenty-six terraces, one for each letter, ten cells wide: every step
/// down the page climbs one unit.
fn terraces() -> String {
    let mut text = String::new();
    for letter in b'a'..=b'z' {
        for col in 0..10 {
            let cell = match (letter, col) {
                (b'a', 0) => 'S',
                (b'z', 9) => 'E',
                _ => letter as char,
            };
            text.push(cell);
        }
        text.push('\n');
    }
    text
}

#[test]
fn terraces_are_climbed_one_by_one() {
    let puzzle = load(&terraces()).unwrap();
    assert_eq!(puzzle.rows(), 26);
    assert_eq!(puzzle.cols(), 10);
    assert_eq!(puzzle.start(), at(0, 0));
    assert_eq!(puzzle.end(), at(25, 9));
    // Twenty-five rows down and nine columns across.
    assert_eq!(puzzle.part1(), Some(34));
    // Straight up the last column to the lowest terrace.
    assert_eq!(puzzle.part2(), Some(25));
}

#[test]
fn second_part_never_exceeds_the_first() {
    let puzzle = load(SAMPLE).unwrap();
    assert!(puzzle.part2().unwrap() <= puzzle.part1().unwrap());
}

#[test]
fn fewest_steps_from_start_ascend() {
    let puzzle = load(SAMPLE).unwrap();
    assert_eq!(puzzle.fewest_steps_to_end(puzzle.start(), &[puzzle.end()]), Some(31));
}

#[test]
fn fewest_steps_from_elsewhere_descend() {
    let puzzle = load(SAMPLE).unwrap();
    let low = lowest(&puzzle);
    assert_eq!(low.len(), 6);
    assert_eq!(puzzle.fewest_steps_to_end(puzzle.end(), &low), Some(29));
    assert_eq!(puzzle.fewest_steps_to_end(puzzle.end(), &[puzzle.start()]), Some(31));
    // From `q` the drop to `b` is too steep when descending.
    assert_eq!(puzzle.fewest_steps_to_end(at(0, 3), &[at(0, 2)]), Some(17));
}

#[test]
fn fewest_steps_to_the_origin_itself() {
    let puzzle = load(SAMPLE).unwrap();
    assert_eq!(puzzle.fewest_steps_to_end(at(3, 3), &[at(0, 0), at(3, 3)]), Some(0));
}

#[test]
fn fewest_steps_to_nothing() {
    let puzzle = load(SAMPLE).unwrap();
    assert_eq!(puzzle.fewest_steps_to_end(puzzle.start(), &[]), None);
    assert_eq!(puzzle.fewest_steps_to_end(puzzle.start(), &[at(9, 9)]), None);
}

#[test]
fn contains_cell_looks_through_the_list() {
    let list = [at(1, 2), at(3, 4)];
    assert!(contains_cell(&list, at(1, 2)));
    assert!(contains_cell(&list, at(3, 4)));
    assert!(!contains_cell(&list, at(2, 1)));
    assert!(!contains_cell(&[], at(0, 0)));
}
