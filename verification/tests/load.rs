use advent::grid::{Coord, Puzzle, MAX_ELEVATION};
use advent::parse::{load, LoadError};

const SAMPLE: &str = "Sabqponm\nabcryxxl\naccszExk\nacctuvwj\nabdefghi\n";

fn at(row: usize, col: usize) -> Coord {
    Coord { row, col }
}

#[test]
fn sample_has_five_rows_of_eight_columns() {
    let puzzle = load(SAMPLE).unwrap();
    assert_eq!(puzzle.rows(), 5);
    assert_eq!(puzzle.cols(), 8);
}

#[test]
fn sample_marks_are_located() {
    let puzzle = load(SAMPLE).unwrap();
    assert_eq!(puzzle.start(), at(0, 0));
    assert_eq!(puzzle.end(), at(2, 5));
}

#[test]
fn marks_are_normalised_to_lowest_and_highest() {
    let puzzle = load(SAMPLE).unwrap();
    assert_eq!(puzzle.elevation(puzzle.start()), 0);
    assert_eq!(puzzle.elevation(puzzle.end()), 25);
    assert_eq!(MAX_ELEVATION, 25);
}

#[test]
fn letters_become_elevations() {
    let puzzle = load(SAMPLE).unwrap();
    assert_eq!(puzzle.elevation(at(0, 1)), 0);
    assert_eq!(puzzle.elevation(at(0, 2)), 1);
    assert_eq!(puzzle.elevation(at(0, 3)), 16);
    assert_eq!(puzzle.elevation(at(1, 3)), 17);
    assert_eq!(puzzle.elevation(at(2, 4)), 25);
    assert_eq!(puzzle.elevation(at(4, 7)), 8);
    assert_eq!(puzzle.elevation(at(4, 0)), 0);
}

#[test]
fn every_cell_of_the_sample_matches_its_letter() {
    let puzzle = load(SAMPLE).unwrap();
    let lines: Vec<&str> = SAMPLE.lines().collect();
    for (row, line) in lines.iter().enumerate() {
        for (col, letter) in line.bytes().enumerate() {
            let expected = match letter {
                b'S' => 0,
                b'E' => 25,
                other => other - b'a',
            };
            assert_eq!(puzzle.elevation(at(row, col)), expected);
        }
    }
}

#[test]
fn final_line_terminator_is_optional() {
    let with = load("Sab\nxyE\n").unwrap();
    let without = load("Sab\nxyE").unwrap();
    assert_eq!(with.rows(), 2);
    assert_eq!(without.rows(), 2);
    assert_eq!(with.cols(), 3);
    assert_eq!(without.cols(), 3);
    assert_eq!(with.end(), without.end());
    assert_eq!(with.elevation(at(1, 0)), without.elevation(at(1, 0)));
}

#[test]
fn single_row_is_loaded() {
    let puzzle = load("SE").unwrap();
    assert_eq!(puzzle.rows(), 1);
    assert_eq!(puzzle.cols(), 2);
    assert_eq!(puzzle.start(), at(0, 0));
    assert_eq!(puzzle.end(), at(0, 1));
}

#[test]
fn single_column_is_loaded() {
    let puzzle = load("S\na\nE\n").unwrap();
    assert_eq!(puzzle.rows(), 3);
    assert_eq!(puzzle.cols(), 1);
    assert_eq!(puzzle.end(), at(2, 0));
}

#[test]
fn ragged_rows_are_refused() {
    assert_eq!(load("Sab\nxy\nabE\n").err(), Some(LoadError::InvalidFormat));
    assert_eq!(load("Sab\nxyzz\nabE\n").err(), Some(LoadError::InvalidFormat));
    assert_eq!(load("Sab\nxyE\nab\n").err(), Some(LoadError::InvalidFormat));
    assert_eq!(load("Sa\nxyE\n").err(), Some(LoadError::InvalidFormat));
}

#[test]
fn ragged_rows_give_no_puzzle() {
    assert!(load("Sabqponm\nabcryxxl\naccszExk\nacctuvw\nabdefghi\n").is_err());
}

#[test]
fn empty_text_is_refused() {
    assert_eq!(load("").err(), Some(LoadError::InvalidFormat));
    assert_eq!(load("\n").err(), Some(LoadError::InvalidFormat));
}

#[test]
fn blank_lines_are_refused() {
    assert_eq!(load("\nSE\n").err(), Some(LoadError::InvalidFormat));
    assert_eq!(load("SE\n\n").err(), Some(LoadError::InvalidFormat));
    assert_eq!(load("Sa\n\nbE\n").err(), Some(LoadError::InvalidFormat));
}

#[test]
fn illegal_characters_are_refused() {
    assert_eq!(load("SaBE\n").err(), Some(LoadError::InvalidFormat));
    assert_eq!(load("Sa E\n").err(), Some(LoadError::InvalidFormat));
    assert_eq!(load("Sa1E\n").err(), Some(LoadError::InvalidFormat));
    assert_eq!(load("Sa\r\nbE\r\n").err(), Some(LoadError::InvalidFormat));
    assert_eq!(load("Sa\u{e9}E\n").err(), Some(LoadError::InvalidFormat));
    assert_eq!(load("S{E\n").err(), Some(LoadError::InvalidFormat));
    assert_eq!(load("S`E\n").err(), Some(LoadError::InvalidFormat));
}

#[test]
fn missing_marks_are_refused() {
    assert_eq!(load("abc\ndeE\n").err(), Some(LoadError::InvalidFormat));
    assert_eq!(load("Sbc\ndef\n").err(), Some(LoadError::InvalidFormat));
    assert_eq!(load("abc\ndef\n").err(), Some(LoadError::InvalidFormat));
}

#[test]
fn duplicate_marks_are_refused() {
    assert_eq!(load("SbS\ndeE\n").err(), Some(LoadError::InvalidFormat));
    assert_eq!(load("SbE\ndeE\n").err(), Some(LoadError::InvalidFormat));
}

#[test]
fn new_puzzle_is_empty() {
    let puzzle = Puzzle::new();
    assert_eq!(puzzle.rows(), 0);
    assert_eq!(puzzle.cols(), 0);
    assert_eq!(puzzle.start(), at(0, 0));
    assert_eq!(puzzle.end(), at(0, 0));
    assert!(!puzzle.contains(at(0, 0)));
}

#[test]
fn configure_fills_the_puzzle_in() {
    let mut puzzle = Puzzle::new();
    assert_eq!(puzzle.configure(SAMPLE), Ok(()));
    assert_eq!(puzzle.rows(), 5);
    assert_eq!(puzzle.cols(), 8);
    assert_eq!(puzzle.end(), at(2, 5));
}

#[test]
fn configure_leaves_the_puzzle_alone_on_error() {
    let mut puzzle = Puzzle::new();
    puzzle.configure("Sab\nxyE\n").unwrap();
    assert_eq!(puzzle.configure("Sab\nxy\n"), Err(LoadError::InvalidFormat));
    assert_eq!(puzzle.rows(), 2);
    assert_eq!(puzzle.cols(), 3);
    assert_eq!(puzzle.end(), at(1, 2));
    assert_eq!(puzzle.elevation(at(1, 0)), 23);
}

#[test]
fn grid_knows_its_cells() {
    let puzzle = load(SAMPLE).unwrap();
    assert!(puzzle.contains(at(0, 0)));
    assert!(puzzle.contains(at(4, 7)));
    assert!(!puzzle.contains(at(5, 0)));
    assert!(!puzzle.contains(at(0, 8)));
    assert_eq!(puzzle.index_of(at(0, 0)), 0);
    assert_eq!(puzzle.index_of(at(2, 5)), 21);
    assert_eq!(puzzle.index_of(at(4, 7)), 39);
}

#[test]
fn neighbours_come_below_above_right_left() {
    let puzzle = load(SAMPLE).unwrap();
    assert_eq!(puzzle.neighbors(at(2, 5)), vec![at(3, 5), at(1, 5), at(2, 6), at(2, 4)]);
    assert_eq!(puzzle.neighbors(at(0, 0)), vec![at(1, 0), at(0, 1)]);
    assert_eq!(puzzle.neighbors(at(4, 7)), vec![at(3, 7), at(4, 6)]);
    assert_eq!(puzzle.neighbors(at(0, 3)), vec![at(1, 3), at(0, 4), at(0, 2)]);
    let line = load("SE").unwrap();
    assert_eq!(line.neighbors(at(0, 0)), vec![at(0, 1)]);
}
