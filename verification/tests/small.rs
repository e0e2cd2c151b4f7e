use advent::calories;
use advent::cycles;
use advent::monkeys::Monkey;
use advent::packets::{find_list_end, Item, Packet};
use advent::rucksack;
use advent::sand::move_sand;
use advent::signal;
use advent::sizes;
use advent::strategy;
use advent::trees::{is_visible, scenic};

fn sacks(lines: &[&str]) -> rucksack::Puzzle {
    let mut puzzle = rucksack::Puzzle::new();
    let mut text = String::new();
    for line in lines {
        text.push_str(line);
        text.push('\n');
    }
    puzzle.configure(&text).unwrap();
    puzzle
}

fn signal_of(text: &str) -> signal::Puzzle {
    let mut puzzle = signal::Puzzle::new();
    puzzle.configure(&format!("{text}\n")).unwrap();
    puzzle
}

#[test]
fn day01_test01() {
    let mut puzzle = calories::Puzzle::new();
    puzzle
        .configure("1000\n2000\n3000\n\n4000\n\n5000\n6000\n\n7000\n8000\n9000\n\n10000\n")
        .unwrap();
    assert_eq!(puzzle.part1(), 24000);
    assert_eq!(puzzle.part2(), 45000);
}

#[test]
fn day02_test01() {
    let mut puzzle = strategy::Puzzle::new();
    puzzle.configure("A Y\nB X\nC Z\n").unwrap();
    assert_eq!(puzzle.part1(), 15);
    assert_eq!(puzzle.part2(), 12);
}

#[test]
fn every_round_scores_as_the_rules_say() {
    let mut puzzle = strategy::Puzzle::new();
    puzzle.guide = vec![(1, 1), (1, 2), (1, 3), (2, 1), (2, 2), (2, 3), (3, 1), (3, 2), (3, 3)];
    // Shapes: 1 + 3, 2 + 6, 3 + 0, 1 + 0, 2 + 3, 3 + 6, 1 + 6, 2 + 0, 3 + 3.
    assert_eq!(puzzle.part1(), 45);
    // Outcomes: 3, 1 + 3, 2 + 6, 1, 2 + 3, 3 + 6, 2, 3 + 3, 1 + 6.
    assert_eq!(puzzle.part2(), 45);
    puzzle.guide = vec![(1, 3)];
    assert_eq!(puzzle.part1(), 3);
    assert_eq!(puzzle.part2(), 8);
}

#[test]
fn day03_test01() {
    let puzzle = sacks(&[
        "vJrwpWtwJgWrhcsFMMfFFhFp",
        "jqHRNqRjqzjGDLGLrsFMfFZSrLrFZsSL",
        "PmmdzqPrVvPwwTWBwg",
        "wMqvLMZHhHMvwLHjbvcjnnSBnvTQFn",
        "ttgJtRGJQctTZtZT",
        "CrZsJsPPZsGzwwsLwLmpwMDw",
    ]);
    assert_eq!(puzzle.part1(), 157);
    assert_eq!(puzzle.part2(), 70);
}

#[test]
fn priorities_run_from_one_to_fifty_two() {
    assert_eq!(rucksack::Puzzle::char_to_priority('a'), 1);
    assert_eq!(rucksack::Puzzle::char_to_priority('p'), 16);
    assert_eq!(rucksack::Puzzle::char_to_priority('z'), 26);
    assert_eq!(rucksack::Puzzle::char_to_priority('A'), 27);
    assert_eq!(rucksack::Puzzle::char_to_priority('L'), 38);
    assert_eq!(rucksack::Puzzle::char_to_priority('Z'), 52);
}

#[test]
fn rucksack_without_a_shared_item_adds_nothing() {
    let puzzle = sacks(&["abcd", "aa", "bcd"]);
    assert_eq!(puzzle.part1(), 1);
    assert_eq!(puzzle.part2(), 0);
    assert_eq!(rucksack::find_shared(&vec!['x', 'b'], 2, &vec!['b'], 0, &vec!['c', 'b'], 0), Some('b'));
    assert_eq!(rucksack::find_shared(&vec!['x', 'b'], 1, &vec!['b'], 0, &vec!['c', 'b'], 0), None);
    assert!(rucksack::holds(&vec!['a', 'b'], 1, 'b'));
    assert!(!rucksack::holds(&vec!['a', 'b'], 1, 'a'));
}

#[test]
fn day06_test01() {
    let puzzle = signal_of("mjqjpqmgbljsphdztnvjfqwrcgsmlb");
    assert_eq!(puzzle.part1(), 7);
    assert_eq!(puzzle.part2(), 19);
}

#[test]
fn day06_test02() {
    let puzzle = signal_of("bvwbjplbgvbhsrlpgdmjqwftvncz");
    assert_eq!(puzzle.part1(), 5);
    assert_eq!(puzzle.part2(), 23);
}

#[test]
fn day06_test03() {
    let puzzle = signal_of("nppdvjthqldpwncqszvftbrmjlhg");
    assert_eq!(puzzle.part1(), 6);
    assert_eq!(puzzle.part2(), 23);
}

#[test]
fn test04() {
    let puzzle = signal_of("nznrnfrfntjfmvfwmzdfjlvtqnbhcprsg");
    assert_eq!(puzzle.part1(), 10);
    assert_eq!(puzzle.part2(), 29);
}

#[test]
fn test05() {
    let puzzle = signal_of("zcfzfwzzqfrljwzlrfnpqdbhtmscgvjw");
    assert_eq!(puzzle.part1(), 11);
    assert_eq!(puzzle.part2(), 26);
}

#[test]
fn marker_search_runs_off_the_end() {
    assert_eq!(signal_of("aaaa").find_marker(2), 5);
    assert_eq!(signal_of("ab").find_marker(4), 4);
    assert_eq!(signal_of("").find_marker(1), 1);
    assert_eq!(signal_of("aab").find_marker(2), 3);
    assert_eq!(signal_of("abc").find_marker(1), 1);
    assert!(signal::distinct(&vec!['a', 'b', 'a'], 0, 2));
    assert!(!signal::distinct(&vec!['a', 'b', 'a'], 0, 3));
}

#[test]
fn day07_test01() {
    let mut puzzle = sizes::Puzzle::new();
    let listing = "$ cd /\n$ ls\ndir a\n14848514 b.txt\n8504156 c.dat\ndir d\n$ cd a\n$ ls\n\
                   dir e\n29116 f\n2557 g\n62596 h.lst\n$ cd e\n$ ls\n584 i\n$ cd ..\n$ cd ..\n\
                   $ cd d\n$ ls\n4060174 j\n8033020 d.log\n5626152 d.ext\n7214296 k\n";
    puzzle.configure(listing).unwrap();
    assert_eq!(puzzle.part1(), 95437);
    assert_eq!(puzzle.part2(), 24933642);
}

#[test]
fn no_directory_is_large_enough() {
    let mut puzzle = sizes::Puzzle::new();
    puzzle.directories_size = vec![40_000_000, 100_000, 100_001];
    assert_eq!(puzzle.part1(), 100_000);
    // Nothing needs to be freed, so the smallest directory will do.
    assert_eq!(puzzle.part2(), 100_000);
    puzzle.directories_size = vec![70_000_000];
    assert_eq!(puzzle.part2(), 70_000_000);
}

#[test]
fn trees_are_seen_from_either_end() {
    let line = [2, 5, 5, 1, 2];
    assert!(is_visible(0, &line));
    assert!(is_visible(1, &line));
    assert!(is_visible(2, &line));
    assert!(!is_visible(3, &line));
    assert!(is_visible(4, &line));
    assert!(!is_visible(2, &[6, 5, 3, 3, 2, 3, 7]));
    assert!(is_visible(0, &[4]));
}

#[test]
fn scenic_score_counts_up_to_the_first_blocker() {
    // The middle 5 of the second row, and of the fourth row, of the well
    // known five by five forest.
    assert_eq!(scenic(2, &[2, 5, 5, 1, 2]), 2);
    assert_eq!(scenic(2, &[3, 3, 5, 4, 9]), 4);
    assert_eq!(scenic(3, &[3, 5, 3, 5, 3]), 2);
    assert_eq!(scenic(0, &[3, 5, 3]), 0);
    assert_eq!(scenic(2, &[3, 5, 3]), 0);
    assert_eq!(scenic(1, &[1, 9, 1, 1]), 2);
}

#[test]
fn register_is_sampled_at_the_twentieth_cycle() {
    let mut puzzle = cycles::Puzzle::new();
    puzzle.instructions = vec![0; 19];
    assert_eq!(puzzle.part1(), 0);
    puzzle.instructions = vec![0; 20];
    assert_eq!(puzzle.part1(), 20);
    let mut program = vec![0; 18];
    program.push(4);
    program.push(7);
    program.extend(vec![0; 40]);
    // 5 during cycle 20, 12 during cycle 60.
    puzzle.instructions = program;
    assert_eq!(puzzle.part1(), 5 * 20 + 12 * 60);
}

#[test]
fn new_monkey_holds_nothing() {
    let monkey = Monkey::new();
    assert!(monkey.items.is_empty());
    assert!(!monkey.multiply);
    assert_eq!(monkey.worry_operand, None);
    assert_eq!(monkey.divisibility, 0);
    assert_eq!(monkey.true_to, 0);
    assert_eq!(monkey.false_to, 0);
}

#[test]
fn monkey_raises_worry_and_picks_a_target() {
    let mut monkey = Monkey::new();
    monkey.multiply = true;
    monkey.worry_operand = Some(19);
    monkey.divisibility = 23;
    monkey.true_to = 2;
    monkey.false_to = 3;
    assert_eq!(monkey.inspect_and_throw(79, true), (500, 3));
    assert_eq!(monkey.inspect_and_throw(79, false), (1501, 3));
    assert_eq!(monkey.inspect_and_throw(23, false), (437, 2));
    monkey.worry_operand = None;
    assert_eq!(monkey.inspect_and_throw(12, false), (144, 3));
    monkey.multiply = false;
    assert_eq!(monkey.inspect_and_throw(12, true), (8, 3));
    assert_eq!(monkey.inspect_and_throw(69, true), (46, 2));
}

#[test]
fn list_end_matches_its_start() {
    // [[1],[2,[3]],4]
    let packet = Packet {
        items: vec![
            Item::ListStart,
            Item::ListStart,
            Item::Integer(1),
            Item::ListEnd,
            Item::ListStart,
            Item::Integer(2),
            Item::ListStart,
            Item::Integer(3),
            Item::ListEnd,
            Item::ListEnd,
            Item::Integer(4),
            Item::ListEnd,
        ],
    };
    assert_eq!(find_list_end(&packet, 0), 11);
    assert_eq!(find_list_end(&packet, 1), 3);
    assert_eq!(find_list_end(&packet, 4), 9);
    assert_eq!(find_list_end(&packet, 6), 8);
}

fn cave(rows: &[&str]) -> Vec<Vec<char>> {
    rows.iter().map(|row| row.chars().collect()).collect()
}

#[test]
fn sand_falls_straight_then_left_then_right() {
    let mut grid = cave(&["...", "...", "###"]);
    let mut pos = (1, 0);
    assert!(!move_sand(&mut grid, &mut pos));
    assert_eq!(pos, (1, 1));
    assert_eq!(grid, cave(&["...", "...", "###"]));
    let mut grid = cave(&["...", ".#.", "###"]);
    let mut pos = (1, 0);
    assert!(!move_sand(&mut grid, &mut pos));
    assert_eq!(pos, (0, 1));
    let mut grid = cave(&["...", "o#.", "###"]);
    let mut pos = (1, 0);
    assert!(!move_sand(&mut grid, &mut pos));
    assert_eq!(pos, (2, 1));
}

#[test]
fn blocked_sand_rests_and_a_new_unit_enters() {
    let mut grid = cave(&["...", "...", "###"]);
    let mut pos = (1, 1);
    assert!(move_sand(&mut grid, &mut pos));
    assert_eq!(pos, (500, 0));
    assert_eq!(grid, cave(&["...", ".o.", "###"]));
}

#[test]
fn day09_test01() {
    let mut puzzle = advent::rope::Puzzle::new();
    puzzle.configure("R 4\nU 4\nL 3\nD 1\nR 4\nD 1\nL 5\nR 2\n").unwrap();
    assert_eq!(puzzle.part1(), 13);
    assert_eq!(puzzle.part2(), 1);
}

#[test]
fn day09_test02() {
    let mut puzzle = advent::rope::Puzzle::new();
    puzzle.configure("R 5\nU 8\nL 8\nD 3\nR 17\nD 10\nL 25\nU 20\n").unwrap();
    assert_eq!(puzzle.part2(), 36);
}

#[test]
fn rope_of_one_knot_is_its_own_tail() {
    let mut puzzle = advent::rope::Puzzle::new();
    assert_eq!(puzzle.move_rope(1), 1);
    assert_eq!(puzzle.move_rope(3), 1);
    puzzle.motions = vec!['R', 'R', 'L', 'U'];
    assert_eq!(puzzle.move_rope(1), 4);
    assert_eq!(puzzle.move_rope(2), 2);
    assert!(advent::rope::was_visited(&vec![(0, 0), (1, -1)], (1, -1)));
    assert!(!advent::rope::was_visited(&vec![(0, 0), (1, -1)], (-1, 1)));
}

fn sample_monkeys() -> advent::monkeys::Puzzle {
    let mut puzzle = advent::monkeys::Puzzle::new();
    let notes: [(&str, &str, u64, usize, usize); 4] = [
        ("79, 98", "* 19", 23, 2, 3),
        ("54, 65, 75, 74", "+ 6", 19, 2, 0),
        ("79, 60, 97", "* old", 13, 1, 3),
        ("74", "+ 3", 17, 0, 1),
    ];
    let mut text = String::new();
    for (number, (items, operation, divisor, yes, no)) in notes.iter().enumerate() {
        if number > 0 {
            text.push('\n');
        }
        text.push_str(&format!(
            "Monkey {number}:\n  Starting items: {items}\n  Operation: new = old {operation}\n  \
             Test: divisible by {divisor}\n    If true: throw to monkey {yes}\n    \
             If false: throw to monkey {no}\n"
        ));
    }
    puzzle.configure(&text).unwrap();
    puzzle
}

#[test]
fn day11_test01() {
    let puzzle = sample_monkeys();
    assert_eq!(puzzle.part1(), 10605);
    assert_eq!(puzzle.part2(), 2713310158);
}

#[test]
fn one_round_counts_every_item_once_where_none_comes_back() {
    let puzzle = sample_monkeys();
    // After one round the four monkeys have inspected 2, 4, 3 and 5 items.
    assert_eq!(puzzle.monkey_business(1, true), 20);
    assert_eq!(puzzle.monkey_business(0, true), 0);
}
