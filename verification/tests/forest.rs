use advent::cycles;
use advent::sand;
use advent::text::Malformed;
use advent::trees;

const FOREST: &str = "30373\n25512\n65332\n33549\n35390\n";

#[test]
fn day08_test01() {
    let mut puzzle = trees::Puzzle::new();
    assert_eq!(puzzle.configure(FOREST), Ok(()));
    assert_eq!(puzzle.part1(), 21);
    assert_eq!(puzzle.part2(), 8);
}

#[test]
fn forest_is_read_by_rows_and_by_columns() {
    let mut puzzle = trees::Puzzle::new();
    puzzle.configure("123\n456\n").unwrap();
    assert_eq!(puzzle.rows, vec![vec![1, 2, 3], vec![4, 5, 6]]);
    assert_eq!(puzzle.columns, vec![vec![1, 4], vec![2, 5], vec![3, 6]]);
    assert_eq!(puzzle.part1(), 6);
    assert_eq!(puzzle.part2(), 0);
    for text in ["", "12\n3\n", "1\n23\n", "1a\n", "12\n\n", "\n12\n"] {
        assert_eq!(puzzle.configure(text), Err(Malformed::InvalidFormat));
        assert_eq!(puzzle.rows.len(), 2);
        assert_eq!(puzzle.columns.len(), 3);
    }
    assert_eq!(puzzle.configure("7"), Ok(()));
    assert_eq!(puzzle.part1(), 1);
    assert_eq!(puzzle.part2(), 0);
}

#[test]
fn hidden_tree_is_not_counted() {
    let mut puzzle = trees::Puzzle::new();
    puzzle.configure("999\n919\n999\n").unwrap();
    assert_eq!(puzzle.part1(), 8);
    assert_eq!(puzzle.part2(), 1);
    let empty = trees::Puzzle::new();
    assert_eq!(empty.part1(), 0);
}

#[test]
fn screen_draws_forty_pixels_to_the_line() {
    let mut puzzle = cycles::Puzzle::new();
    puzzle.instructions = vec![0; 41];
    let mut expected = String::from("###.....................................\n");
    expected.push('#');
    assert_eq!(puzzle.part2(), expected);
    // The register moves to 19 at the end of the second cycle.
    puzzle.instructions = vec![0, 18, 0, 0];
    assert_eq!(puzzle.part2(), "##..");
    // The sprite stands at 2, then at 0, then at 3.
    puzzle.instructions = vec![-2, 0, 3, 0, 0];
    assert_eq!(puzzle.part2(), "#..#.");
    puzzle.instructions = vec![];
    assert_eq!(puzzle.part2(), "");
}

fn cave_with(rocks: &[(usize, usize)], floor: usize) -> sand::Puzzle {
    let mut puzzle = sand::Puzzle::new();
    puzzle.cave = vec![vec!['.'; 1000]; 1000];
    for &(x, y) in rocks {
        puzzle.cave[y][x] = '#';
    }
    puzzle.floor = floor;
    puzzle
}

fn sample_rocks() -> Vec<(usize, usize)> {
    let mut rocks = Vec::new();
    for y in 4..=6 {
        rocks.push((498, y));
    }
    for x in 496..=498 {
        rocks.push((x, 6));
    }
    for x in 502..=503 {
        rocks.push((x, 4));
    }
    for y in 4..=9 {
        rocks.push((502, y));
    }
    for x in 494..=502 {
        rocks.push((x, 9));
    }
    rocks
}

#[test]
fn day14_test01() {
    let mut puzzle = sand::Puzzle::new();
    puzzle.configure("498,4 -> 498,6 -> 496,6\n503,4 -> 502,4 -> 502,9 -> 494,9\n").unwrap();
    assert_eq!(puzzle.part1(), 24);
    assert_eq!(puzzle.part2(), 93);
}

#[test]
fn sand_without_rock_falls_straight_into_the_abyss() {
    let puzzle = cave_with(&[], 2);
    assert_eq!(puzzle.part1(), 0);
    // With the floor two rows down four units make a heap up to the source.
    assert_eq!(puzzle.part2(), 4);
    let fresh = sand::Puzzle::new();
    assert_eq!(fresh.floor, 2);
    assert!(fresh.cave.is_empty());
}

#[test]
fn cave_is_read_from_its_paths() {
    let mut puzzle = sand::Puzzle::new();
    let text = "498,4 -> 498,6 -> 496,6\n503,4 -> 502,4 -> 502,9 -> 494,9\n";
    assert_eq!(puzzle.configure(text), Ok(()));
    assert_eq!(puzzle.floor, 11);
    assert_eq!(puzzle.cave.len(), 1000);
    assert_eq!(puzzle.cave[999].len(), 1000);
    let expected = cave_with(&sample_rocks(), 11);
    assert_eq!(puzzle.cave, expected.cave);
    assert_eq!(puzzle.part1(), 24);
    assert_eq!(puzzle.part2(), 93);
}

#[test]
fn slanted_step_lays_an_angle_of_rock() {
    let mut puzzle = sand::Puzzle::new();
    assert_eq!(puzzle.configure("5,1 -> 7,3\n0,0\n"), Ok(()));
    let expected = cave_with(&[(5, 1), (5, 2), (5, 3), (6, 1), (7, 1)], 5);
    assert_eq!(puzzle.cave, expected.cave);
    assert_eq!(puzzle.floor, 5);
    for text in ["", "1,2 ->\n", "1,2 -> \n", "1,2->3,4\n", "1000,2\n", "1,1000\n", "1,2\n\n",
        "1;2\n", "1,2 -> 3\n", ",2\n"]
    {
        assert_eq!(puzzle.configure(text), Err(Malformed::InvalidFormat));
        assert_eq!(puzzle.floor, 5);
        assert_eq!(puzzle.cave[1][6], '#');
    }
    assert_eq!(sand::read_points(&b"12,3 -> 4,56".to_vec()), Some(vec![(12, 3), (4, 56)]));
    assert_eq!(sand::read_points(&b"12,3 -> ".to_vec()), None);
    let mut cave = sand::empty_cave();
    sand::set_rock(&mut cave, 3, 4);
    sand::draw_step(&mut cave, (9, 9), (9, 7));
    assert_eq!(cave[4][3], '#');
    assert_eq!(cave[8][9], '#');
    assert_eq!(cave[7][9], '#');
    assert_eq!(cave[6][9], '.');
    assert_eq!(cave[3][4], '.');
}
