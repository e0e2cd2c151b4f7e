use advent::cycles;
use advent::distress;
use advent::packets::{is_balanced, read_packet, Item};
use advent::rucksack;
use advent::strategy;
use advent::text::{read_number, split_lines, split_records, Malformed};

fn bytes(text: &str) -> Vec<u8> {
    text.as_bytes().to_vec()
}

#[test]
fn lines_are_what_stands_between_terminators() {
    assert_eq!(split_lines(b"ab\ncd\n"), vec![bytes("ab"), bytes("cd")]);
    assert_eq!(split_lines(b"ab\ncd"), vec![bytes("ab"), bytes("cd")]);
    assert_eq!(split_lines(b"ab\n\ncd\n"), vec![bytes("ab"), bytes(""), bytes("cd")]);
    assert_eq!(split_lines(b"ab\n\n"), vec![bytes("ab"), bytes("")]);
    assert_eq!(split_lines(b""), vec![bytes("")]);
    assert_eq!(split_lines(b"\n"), vec![bytes("")]);
    assert_eq!(split_lines(b"\nx"), vec![bytes(""), bytes("x")]);
}

#[test]
fn empty_text_has_no_record() {
    assert_eq!(split_records(b""), Vec::<Vec<u8>>::new());
    assert_eq!(split_records(b"\n"), Vec::<Vec<u8>>::new());
    assert_eq!(split_records(b"a\n"), vec![bytes("a")]);
    assert_eq!(split_records(b"\n\n"), vec![bytes(""), bytes("")]);
}

#[test]
fn numbers_are_read_digit_by_digit() {
    assert_eq!(read_number(&bytes("x120y"), 1, 4), Some(120));
    assert_eq!(read_number(&bytes("007"), 0, 3), Some(7));
    assert_eq!(read_number(&bytes("0"), 0, 1), Some(0));
    assert_eq!(read_number(&bytes("12"), 1, 1), None);
    assert_eq!(read_number(&bytes("1a"), 0, 2), None);
    assert_eq!(read_number(&bytes("-1"), 0, 2), None);
    assert_eq!(read_number(&bytes("18446744073709551615"), 0, 20), Some(18446744073709551615));
    assert_eq!(read_number(&bytes("18446744073709551616"), 0, 20), None);
    assert_eq!(read_number(&bytes("99999999999999999999"), 0, 20), None);
}

#[test]
fn guide_is_read_round_by_round() {
    let mut puzzle = strategy::Puzzle::new();
    assert_eq!(puzzle.configure("A Y\nB X\nC Z\n"), Ok(()));
    assert_eq!(puzzle.guide, vec![(1, 2), (2, 1), (3, 3)]);
    assert_eq!(puzzle.part1(), 15);
    assert_eq!(puzzle.part2(), 12);
    assert_eq!(puzzle.configure(""), Ok(()));
    assert_eq!(puzzle.guide, vec![]);
}

#[test]
fn guide_with_another_line_is_refused() {
    let mut puzzle = strategy::Puzzle::new();
    puzzle.configure("A X\n").unwrap();
    for text in ["A Y\nD X\n", "A W\n", "AY\n", "A  Y\n", "A Y \n", "A Y\n\n", "a y\n"] {
        assert_eq!(puzzle.configure(text), Err(Malformed::InvalidFormat));
        assert_eq!(puzzle.guide, vec![(1, 1)]);
    }
    assert_eq!(strategy::read_round(&bytes("C X")), Some((3, 1)));
    assert_eq!(strategy::read_round(&bytes("C")), None);
}

#[test]
fn rucksacks_are_read_line_by_line() {
    let mut puzzle = rucksack::Puzzle::new();
    let text = "vJrwpWtwJgWrhcsFMMfFFhFp\njqHRNqRjqzjGDLGLrsFMfFZSrLrFZsSL\nPmmdzqPrVvPwwTWBwg\n\
                wMqvLMZHhHMvwLHjbvcjnnSBnvTQFn\nttgJtRGJQctTZtZT\nCrZsJsPPZsGzwwsLwLmpwMDw\n";
    assert_eq!(puzzle.configure(text), Ok(()));
    assert_eq!(puzzle.rucksacks.len(), 6);
    assert_eq!(puzzle.rucksacks[4], "ttgJtRGJQctTZtZT".chars().collect::<Vec<char>>());
    assert_eq!(puzzle.part1(), 157);
    assert_eq!(puzzle.part2(), 70);
    assert_eq!(puzzle.configure("ab\nc-d\n"), Err(Malformed::InvalidFormat));
    assert_eq!(puzzle.rucksacks.len(), 6);
    assert_eq!(rucksack::read_sack(&bytes("aZ")), Some(vec!['a', 'Z']));
    assert_eq!(rucksack::read_sack(&bytes("a1")), None);
}

#[test]
fn program_is_read_cycle_by_cycle() {
    let mut puzzle = cycles::Puzzle::new();
    assert_eq!(puzzle.configure("noop\naddx 3\naddx -5\n"), Ok(()));
    assert_eq!(puzzle.instructions, vec![0, 0, 3, 0, -5]);
    assert_eq!(puzzle.configure("addx 2147483647\naddx -2147483648\n"), Ok(()));
    assert_eq!(puzzle.instructions, vec![0, i32::MAX, 0, i32::MIN]);
    for text in ["", "noop\n\n", "addx\n", "addx \n", "addx 2147483648\n", "addx -2147483649\n",
        "addx --1\n", "nop\n", "addx 1 \n", "noop \n", "jump 3\n"]
    {
        assert_eq!(puzzle.configure(text), Err(Malformed::InvalidFormat));
        assert_eq!(puzzle.instructions, vec![0, i32::MAX, 0, i32::MIN]);
    }
    assert_eq!(cycles::read_added(&bytes("addx -12")), Some(-12));
    assert_eq!(cycles::read_added(&bytes("noop")), None);
}

const PACKETS: &str = "[1,1,3,1,1]\n[1,1,5,1,1]\n\n[[1],[2,3,4]]\n[[1],4]\n\n[9]\n[[8,7,6]]\n\n\
                       [[4,4],4,4]\n[[4,4],4,4,4]\n\n[7,7,7,7]\n[7,7,7]\n\n[]\n[3]\n\n[[[]]]\n[[]]\n\n\
                       [1,[2,[3,[4,[5,6,7]]]],8,9]\n[1,[2,[3,[4,[5,6,0]]]],8,9]\n";

#[test]
fn packets_are_read_item_by_item() {
    let mut puzzle = distress::Puzzle::new();
    assert_eq!(puzzle.configure(PACKETS), Ok(()));
    assert_eq!(puzzle.packets.len(), 16);
    assert_eq!(
        puzzle.packets[3].items,
        vec![
            Item::ListStart,
            Item::ListStart,
            Item::Integer(1),
            Item::ListEnd,
            Item::Integer(4),
            Item::ListEnd
        ]
    );
    assert_eq!(puzzle.packets[10].items, vec![Item::ListStart, Item::ListEnd]);
    assert_eq!(puzzle.part1(), 13);
    assert_eq!(puzzle.part2(), 140);
}

#[test]
fn malformed_packets_are_refused() {
    let mut puzzle = distress::Puzzle::new();
    puzzle.configure("[10]\n").unwrap();
    for text in ["[1,2\n", "1,2]\n", "[a]\n", "[1]]\n", "[1][2]\n", "[4294967296]\n", "[1]2\n",
        "[1[2]]\n", "[ 1]\n", "7\n"]
    {
        assert_eq!(puzzle.configure(text), Err(Malformed::InvalidFormat));
        assert_eq!(puzzle.packets.len(), 1);
        assert_eq!(puzzle.packets[0].items[1], Item::Integer(10));
    }
    assert_eq!(puzzle.configure("[4294967295]\n\n\n[]"), Ok(()));
    assert_eq!(puzzle.packets.len(), 2);
    assert_eq!(puzzle.configure(""), Ok(()));
    assert_eq!(puzzle.packets.len(), 0);
    assert!(read_packet(&bytes("[[],1]")).is_some());
    assert!(read_packet(&bytes("[],1")).is_none());
    assert!(is_balanced(&vec![Item::ListStart, Item::ListEnd]));
    assert!(!is_balanced(&vec![Item::ListStart, Item::ListEnd, Item::ListStart, Item::ListEnd]));
    assert!(!is_balanced(&vec![Item::ListStart]));
    assert!(!is_balanced(&vec![Item::Integer(1), Item::ListEnd]));
}

#[test]
fn calories_are_summed_and_sorted() {
    let mut puzzle = advent::calories::Puzzle::new();
    let text = "1000\n2000\n3000\n\n4000\n\n5000\n6000\n\n7000\n8000\n9000\n\n10000\n";
    assert_eq!(puzzle.configure(text), Ok(()));
    assert_eq!(puzzle.calories, vec![24000, 11000, 10000, 6000, 4000]);
    assert_eq!(puzzle.part1(), 24000);
    assert_eq!(puzzle.part2(), 45000);
    assert_eq!(puzzle.configure("5\n\n5\n\n7"), Ok(()));
    assert_eq!(puzzle.calories, vec![7, 5, 5]);
    for text in ["", "\n", "1\n\n\n2\n", "\n1\n", "1\n\n", "1\nx\n", "1 \n", "18446744073709551615\n1\n"] {
        assert_eq!(puzzle.configure(text), Err(Malformed::InvalidFormat));
        assert_eq!(puzzle.calories, vec![7, 5, 5]);
    }
    assert_eq!(advent::calories::sorted_descending(&vec![3, 9, 3, 1, 10]), vec![10, 9, 3, 3, 1]);
    let mut row = vec![8, 4, 4, 2];
    advent::calories::insert_descending(&mut row, 4);
    advent::calories::insert_descending(&mut row, 9);
    advent::calories::insert_descending(&mut row, 0);
    assert_eq!(row, vec![9, 8, 4, 4, 4, 2, 0]);
}

const CRATES: &str = "    [D]    \n[N] [C]    \n[Z] [M] [P]\n 1   2   3 \n\nmove 1 from 2 to 1\n\
                      move 3 from 1 to 3\nmove 2 from 2 to 1\nmove 1 from 1 to 2\n";

#[test]
fn stacks_are_read_from_their_drawing() {
    let mut puzzle = advent::stacks::Puzzle::new();
    assert_eq!(puzzle.configure(CRATES), Ok(()));
    assert_eq!(puzzle.crates_stacks, vec![vec!['Z', 'N'], vec!['M', 'C', 'D'], vec!['P']]);
    assert_eq!(puzzle.instructions, vec![(1, 2, 1), (3, 1, 3), (2, 2, 1), (1, 1, 2)]);
    assert_eq!(puzzle.part1(), "CMZ");
    assert_eq!(puzzle.part2(), "MCD");
}

#[test]
fn malformed_stacks_are_refused() {
    let mut puzzle = advent::stacks::Puzzle::new();
    puzzle.configure(" 1 \n\nmove 0 from 1 to 1\n").unwrap();
    assert_eq!(puzzle.crates_stacks, vec![Vec::<char>::new()]);
    assert_eq!(puzzle.instructions, vec![(0, 1, 1)]);
    for text in [
        "",
        "[A]\n 1 \n",
        "[A]\n 1 \n\n",
        "[A]\n 1 \n\nmove 1 from 1\n",
        "[A]\n 1 \n\nmove 1 from 1 to x\n",
        "[A]\n 1 \n\nmove 1  from 1 to 1\n",
        "[A]\n 1 \n\nmove 1 from 1 to 1 \n",
        "[A]\n 1 \n\nmove  from 1 to 1\n",
        "[A]\n 1 \n\nlift 1 from 1 to 1\n",
        "[A]\n 1\n\nmove 1 from 1 to 1\n",
        "[A]\n 1   2 \n\nmove 1 from 1 to 1\n",
        "\nmove 1 from 1 to 1\n",
    ] {
        assert_eq!(puzzle.configure(text), Err(Malformed::InvalidFormat));
        assert_eq!(puzzle.instructions, vec![(0, 1, 1)]);
    }
    assert_eq!(advent::stacks::read_move(&bytes("move 12 from 3 to 45")), Some((12, 3, 45)));
    assert_eq!(advent::stacks::read_move(&bytes("move 12 from 3 to")), None);
    assert!(advent::text::has_word(&bytes("a to b"), 1, b" to "));
    assert!(!advent::text::has_word(&bytes("a to"), 1, b" to "));
    assert_eq!(advent::text::skip_digits(&bytes("ab123c"), 2), 5);
    assert_eq!(advent::text::skip_digits(&bytes("ab123"), 2), 5);
    assert_eq!(advent::text::skip_digits(&bytes("ab"), 1), 1);
}

const LISTING: &str = "$ cd /\n$ ls\ndir a\n14848514 b.txt\n8504156 c.dat\ndir d\n$ cd a\n$ ls\ndir e\n\
                       29116 f\n2557 g\n62596 h.lst\n$ cd e\n$ ls\n584 i\n$ cd ..\n$ cd ..\n$ cd d\n$ ls\n\
                       4060174 j\n8033020 d.log\n5626152 d.ext\n7214296 k\n";

#[test]
fn directories_are_sized_from_the_listing() {
    let mut puzzle = advent::sizes::Puzzle::new();
    assert_eq!(puzzle.configure(LISTING), Ok(()));
    assert_eq!(puzzle.directories_size, vec![48381165, 94853, 24933642, 584]);
    assert_eq!(puzzle.part1(), 95437);
    assert_eq!(puzzle.part2(), 24933642);
}

#[test]
fn malformed_listings_are_refused() {
    let mut puzzle = advent::sizes::Puzzle::new();
    assert_eq!(puzzle.configure("$ cd /\ndir a\ndir a\n$ cd a\n5 x\n$ cd ..\n7 y\n"), Ok(()));
    assert_eq!(puzzle.directories_size, vec![12, 5]);
    for text in [
        "",
        "5 x\n",
        "dir a\n",
        "$ cd ..\n",
        "$ cd /\n$ cd ..\n",
        "$ cd /\n$ cd a\n5 x\n",
        "$ cd /\n$ cd \n",
        "$ cd /\nx 5\n",
        "$ cd /\n5\n",
        "$ cd /\n$ pwd\n",
        "$ cd /\n18446744073709551615 x\n1 y\n",
        "$ cd /\n18446744073709551616 x\n",
        "$ cd /\n\n",
    ] {
        assert_eq!(puzzle.configure(text), Err(Malformed::InvalidFormat));
        assert_eq!(puzzle.directories_size, vec![12, 5]);
    }
    assert_eq!(puzzle.configure("$ cd /\n$ ls\n"), Ok(()));
    assert_eq!(puzzle.directories_size, vec![0]);
    assert_eq!(advent::sizes::build_path(&vec![bytes("a"), bytes("bc")]), bytes("/a/bc/"));
    assert_eq!(advent::sizes::build_path(&vec![]), bytes("/"));
    assert_eq!(advent::sizes::find_directory(&vec![bytes("/"), bytes("/a/")], &bytes("/a/")), 1);
    assert_eq!(advent::sizes::find_directory(&vec![bytes("/"), bytes("/a/")], &bytes("/b/")), 2);
    assert!(advent::sizes::begins_with(&bytes("/a/b/"), &bytes("/a/")));
    assert!(!advent::sizes::begins_with(&bytes("/ab/"), &bytes("/a/")));
    assert!(advent::sizes::same_bytes(&bytes("ab"), &bytes("ab")));
    assert!(!advent::sizes::same_bytes(&bytes("ab"), &bytes("ac")));
    assert!(advent::sizes::is_line(&bytes("$ ls"), b"$ ls"));
    assert!(!advent::sizes::is_line(&bytes("$ ls "), b"$ ls"));
    assert_eq!(advent::sizes::rest_of(&bytes("dir abc"), 4), bytes("abc"));
    assert_eq!(advent::sizes::find_blank(&bytes("12 ab")), 2);
    assert_eq!(advent::sizes::find_blank(&bytes("12")), 2);
}

#[test]
fn signal_is_read_character_by_character() {
    let mut puzzle = advent::signal::Puzzle::new();
    assert_eq!(puzzle.configure("mjqjpqmgbljsphdztnvjfqwrcgsmlb\n"), Ok(()));
    assert_eq!(puzzle.signal.len(), 30);
    assert_eq!(puzzle.part1(), 7);
    assert_eq!(puzzle.part2(), 19);
    assert_eq!(puzzle.configure("ab\u{e9}"), Err(Malformed::InvalidFormat));
    assert_eq!(puzzle.signal.len(), 30);
    assert_eq!(puzzle.configure("a\nb"), Ok(()));
    assert_eq!(puzzle.signal, vec!['a', '\n', 'b']);
    assert_eq!(puzzle.configure(""), Ok(()));
    assert_eq!(puzzle.signal, Vec::<char>::new());
}

#[test]
fn motions_are_read_cell_by_cell() {
    let mut puzzle = advent::rope::Puzzle::new();
    assert_eq!(puzzle.configure("R 4\nU 4\nL 3\nD 1\nR 4\nD 1\nL 5\nR 2\n"), Ok(()));
    assert_eq!(puzzle.motions.len(), 24);
    assert_eq!(puzzle.motions[3], 'R');
    assert_eq!(puzzle.motions[4], 'U');
    assert_eq!(puzzle.part1(), 13);
    assert_eq!(puzzle.part2(), 1);
    assert_eq!(puzzle.configure("U 0\nL 12\n"), Ok(()));
    assert_eq!(puzzle.motions, vec!['L'; 12]);
    for text in ["", "R\n", "R 1\n\n", "X 3\n", "R  3\n", "R 3 \n", "r 3\n", "R -1\n"] {
        assert_eq!(puzzle.configure(text), Err(Malformed::InvalidFormat));
        assert_eq!(puzzle.motions.len(), 12);
    }
    assert_eq!(advent::rope::read_motion(&bytes("D 10")), Some(('D', 10)));
    assert_eq!(advent::rope::read_motion(&bytes("D10")), None);
}

const MONKEYS: &str = "Monkey 0:\n  Starting items: 79, 98\n  Operation: new = old * 19\n  Test: divisible by 23\n    If true: throw to monkey 2\n    If false: throw to monkey 3\n\nMonkey 1:\n  Starting items: 54, 65, 75, 74\n  Operation: new = old + 6\n  Test: divisible by 19\n    If true: throw to monkey 2\n    If false: throw to monkey 0\n\nMonkey 2:\n  Starting items: 79, 60, 97\n  Operation: new = old * old\n  Test: divisible by 13\n    If true: throw to monkey 1\n    If false: throw to monkey 3\n\nMonkey 3:\n  Starting items: 74\n  Operation: new = old + 3\n  Test: divisible by 17\n    If true: throw to monkey 0\n    If false: throw to monkey 1\n";

#[test]
fn monkeys_are_read_from_their_notes() {
    let mut puzzle = advent::monkeys::Puzzle::new();
    assert_eq!(puzzle.configure(MONKEYS), Ok(()));
    assert_eq!(puzzle.monkeys.len(), 4);
    assert_eq!(puzzle.monkeys[1].items, vec![54, 65, 75, 74]);
    assert!(!puzzle.monkeys[1].multiply);
    assert_eq!(puzzle.monkeys[1].worry_operand, Some(6));
    assert!(puzzle.monkeys[2].multiply);
    assert_eq!(puzzle.monkeys[2].worry_operand, None);
    assert_eq!(puzzle.monkeys[2].divisibility, 13);
    assert_eq!(puzzle.monkeys[2].true_to, 1);
    assert_eq!(puzzle.monkeys[2].false_to, 3);
    assert_eq!(puzzle.part1(), 10605);
    assert_eq!(puzzle.part2(), 2713310158);
}

#[test]
fn malformed_notes_are_refused() {
    let mut puzzle = advent::monkeys::Puzzle::new();
    puzzle.configure(MONKEYS).unwrap();
    let one = "Monkey 0:\n  Starting items: 1\n  Operation: new = old + 1\n  Test: divisible by 2\n    If true: throw to monkey 1\n    If false: throw to monkey 1\n";
    for text in [
        String::new(),
        one.replace("items: 1", "items: "),
        one.replace("items: 1", "items: 1,2"),
        one.replace("items: 1", "items: 1, "),
        one.replace("old + 1", "old - 1"),
        one.replace("old + 1", "old + new"),
        one.replace("old + 1", "old +1"),
        one.replace("by 2", "by two"),
        one.replace("true: throw to monkey 1", "true: throw to monkey"),
        one.replace("  Test", "Test"),
        format!("{one}\n"),
        format!("{one}{one}"),
        one.replace("    If false: throw to monkey 1\n", ""),
    ] {
        assert_eq!(puzzle.configure(&text), Err(Malformed::InvalidFormat));
        assert_eq!(puzzle.monkeys.len(), 4);
    }
    assert_eq!(puzzle.configure(one), Ok(()));
    assert_eq!(puzzle.monkeys.len(), 1);
    assert_eq!(advent::monkeys::read_list(&bytes("x 1, 22, 3"), 2), Some(vec![1, 22, 3]));
    assert_eq!(advent::monkeys::read_list(&bytes("x 1,22"), 2), None);
    assert_eq!(advent::monkeys::read_behind(&bytes("by 23"), b"by "), Some(23));
    assert_eq!(advent::monkeys::read_behind(&bytes("bye 23"), b"by "), None);
    assert_eq!(
        advent::monkeys::read_operation(&bytes("  Operation: new = old * old")),
        Some((true, None))
    );
    assert_eq!(
        advent::monkeys::read_operation(&bytes("  Operation: new = old + 12")),
        Some((false, Some(12)))
    );
    assert_eq!(advent::monkeys::read_operation(&bytes("  Operation: new = old * ")), None);
}
