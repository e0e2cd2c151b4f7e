use advent::rule::{admissible, Direction};

#[test]
fn ascending_climbs_at_most_one_unit() {
    assert!(admissible(Direction::Ascending, 3, 4));
    assert!(admissible(Direction::Ascending, 3, 3));
    assert!(!admissible(Direction::Ascending, 3, 5));
    assert!(!admissible(Direction::Ascending, 0, 25));
}

#[test]
fn ascending_drops_any_amount() {
    assert!(admissible(Direction::Ascending, 25, 0));
    assert!(admissible(Direction::Ascending, 7, 6));
}

#[test]
fn descending_drops_at_most_one_unit() {
    assert!(admissible(Direction::Descending, 4, 3));
    assert!(admissible(Direction::Descending, 4, 4));
    assert!(!admissible(Direction::Descending, 5, 3));
    assert!(!admissible(Direction::Descending, 25, 0));
}

#[test]
fn descending_climbs_any_amount() {
    assert!(admissible(Direction::Descending, 0, 25));
    assert!(admissible(Direction::Descending, 6, 7));
}

#[test]
fn admissible_at_the_ends_of_the_byte_range() {
    assert!(admissible(Direction::Ascending, 254, 255));
    assert!(admissible(Direction::Ascending, 255, 255));
    assert!(admissible(Direction::Ascending, 255, 0));
    assert!(!admissible(Direction::Ascending, 0, 255));
    assert!(admissible(Direction::Descending, 255, 254));
    assert!(!admissible(Direction::Descending, 255, 0));
}

#[test]
fn admissibility_is_symmetric_between_directions() {
    for a in 0u8..=25 {
        for b in 0u8..=25 {
            assert_eq!(
                admissible(Direction::Ascending, a, b),
                admissible(Direction::Descending, b, a)
            );
        }
    }
}

#[test]
fn reversed_swaps_the_directions() {
    assert_eq!(Direction::Ascending.reversed(), Direction::Descending);
    assert_eq!(Direction::Descending.reversed(), Direction::Ascending);
    assert_eq!(Direction::Ascending.reversed().reversed(), Direction::Ascending);
}
