use std::cmp::Ordering;

use advent::distress::{compare, Puzzle};
use advent::packets::{items_between, list_of, Item, Packet};
use advent::stacks;

fn packet(text: &str) -> Packet {
    let mut items = Vec::new();
    let mut integer: Option<u32> = None;
    for c in text.chars() {
        if let Some(digit) = c.to_digit(10) {
            integer = Some(integer.unwrap_or(0) * 10 + digit);
            continue;
        }
        if let Some(value) = integer.take() {
            items.push(Item::Integer(value));
        }
        match c {
            '[' => items.push(Item::ListStart),
            ']' => items.push(Item::ListEnd),
            _ => {}
        }
    }
    Packet { items }
}

const SAMPLE: [&str; 16] = [
    "[1,1,3,1,1]",
    "[1,1,5,1,1]",
    "[[1],[2,3,4]]",
    "[[1],4]",
    "[9]",
    "[[8,7,6]]",
    "[[4,4],4,4]",
    "[[4,4],4,4,4]",
    "[7,7,7,7]",
    "[7,7,7]",
    "[]",
    "[3]",
    "[[[]]]",
    "[[]]",
    "[1,[2,[3,[4,[5,6,7]]]],8,9]",
    "[1,[2,[3,[4,[5,6,0]]]],8,9]",
];

fn sample() -> Puzzle {
    let mut puzzle = Puzzle::new();
    let mut text = String::new();
    for (number, line) in SAMPLE.iter().enumerate() {
        if number > 0 && number % 2 == 0 {
            text.push('\n');
        }
        text.push_str(line);
        text.push('\n');
    }
    puzzle.configure(&text).unwrap();
    puzzle
}

#[test]
fn pairs_of_the_sample_compare_as_told() {
    let expected = [
        Ordering::Less,
        Ordering::Less,
        Ordering::Greater,
        Ordering::Less,
        Ordering::Greater,
        Ordering::Less,
        Ordering::Greater,
        Ordering::Greater,
    ];
    for (pair, order) in expected.iter().enumerate() {
        let first = packet(SAMPLE[2 * pair]);
        let second = packet(SAMPLE[2 * pair + 1]);
        assert_eq!(compare(&first, 0, &second, 0), *order);
        assert_eq!(compare(&second, 0, &first, 0), order.reverse());
    }
}

#[test]
fn packet_equals_itself_and_its_wrapped_integer() {
    for text in SAMPLE {
        assert_eq!(compare(&packet(text), 0, &packet(text), 0), Ordering::Equal);
    }
    assert_eq!(compare(&packet("[1]"), 0, &packet("[[1]]"), 0), Ordering::Equal);
    assert_eq!(compare(&packet("[[[2]]]"), 0, &packet("[2]"), 0), Ordering::Equal);
    assert_eq!(compare(&packet("[1,5]"), 0, &packet("[[1],4]"), 0), Ordering::Greater);
    assert_eq!(compare(&packet("[[1,2],0]"), 0, &packet("[1,9]"), 0), Ordering::Greater);
    assert_eq!(compare(&packet("[10]"), 0, &packet("[9]"), 0), Ordering::Greater);
}

#[test]
fn comparison_goes_on_from_places_inside() {
    // From the second item on: 1,3 against 1,5.
    assert_eq!(compare(&packet("[7,1,3]"), 2, &packet("[1,5]"), 1), Ordering::Less);
    assert_eq!(compare(&packet("[7,1,3]"), 2, &packet("[1]"), 1), Ordering::Greater);
}

#[test]
fn day13_test01() {
    let puzzle = sample();
    assert_eq!(puzzle.part1(), 13);
    assert_eq!(puzzle.part2(), 140);
}

#[test]
fn dividers_take_their_places() {
    let mut puzzle = Puzzle::new();
    assert_eq!(puzzle.part2(), 0);
    puzzle.packets.push(packet("[1]"));
    puzzle.packets.push(packet("[9]"));
    puzzle.packets.push(packet("[[4]]"));
    // [1] [[2]] [[4]] [[6]] [9]: places 2 and 4.
    assert_eq!(puzzle.part2(), 8);
    let mut low = Puzzle::new();
    low.packets.push(packet("[1]"));
    assert_eq!(low.part2(), 0);
}

#[test]
fn odd_packet_is_paired_with_itself() {
    let mut puzzle = Puzzle::new();
    puzzle.packets.push(packet("[2]"));
    puzzle.packets.push(packet("[1]"));
    puzzle.packets.push(packet("[3]"));
    assert_eq!(puzzle.part1(), 2);
}

#[test]
fn integer_becomes_a_list_of_its_own() {
    assert_eq!(list_of(7).items, vec![Item::ListStart, Item::Integer(7), Item::ListEnd]);
    let whole = packet("[[1],4]");
    assert_eq!(items_between(&whole.items, 1, 3), packet("[1]").items);
}

fn crates() -> stacks::Puzzle {
    let mut puzzle = stacks::Puzzle::new();
    puzzle
        .configure(
            "    [D]    \n[N] [C]    \n[Z] [M] [P]\n 1   2   3 \n\nmove 1 from 2 to 1\n\
             move 3 from 1 to 3\nmove 2 from 2 to 1\nmove 1 from 1 to 2\n",
        )
        .unwrap();
    puzzle
}

#[test]
fn day05_test01() {
    let puzzle = crates();
    assert_eq!(puzzle.part1(), "CMZ");
    assert_eq!(puzzle.part2(), "MCD");
}

#[test]
fn empty_stacks_show_no_crate() {
    let mut puzzle = stacks::Puzzle::new();
    puzzle.crates_stacks = vec![vec!['A', 'B'], vec![], vec!['C']];
    puzzle.instructions = vec![(2, 1, 2), (0, 3, 1)];
    assert_eq!(puzzle.part1(), "AC");
    assert_eq!(puzzle.part2(), "BC");
    assert_eq!(stacks::read_tops(&vec![vec![], vec!['x', 'y']]), "y");
    assert_eq!(stacks::copy_of(&vec![vec!['q'], vec![]]), vec![vec!['q'], vec![]]);
}

#[test]
fn crates_moved_onto_their_own_stack() {
    let mut puzzle = stacks::Puzzle::new();
    puzzle.crates_stacks = vec![vec!['A', 'B', 'C']];
    puzzle.instructions = vec![(2, 1, 1)];
    // One at a time nothing changes; at once the crates set down are cut
    // off with as many again.
    assert_eq!(puzzle.part1(), "C");
    assert_eq!(puzzle.part2(), "A");
}
