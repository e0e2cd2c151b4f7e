//! Thirteen small puzzles, solved and proved.
//!
//! The largest is the climb over an elevation grid: a puzzle is a
//! rectangular table of elevations with a marked start and a marked end, a
//! step leads to an orthogonal neighbour and may climb by at most one unit,
//! and a breadth-first search finds the fewest steps, proved to be the
//! length of a shortest walk.
//!
//! * [`grid`] holds the table of elevations and its coordinates.
//! * [`rule`] says which single steps are legal.
//! * [`walk`] defines walks and the distance to the nearest target.
//! * [`search`] keeps the frontier and the record of the cells found.
//! * [`bfs`] is the search itself.
//! * [`parse`] reads a puzzle from its text.
//! * [`driver`] asks the two questions.
//!
//! The other modules hold one puzzle each, with the reader of its text:
//!
//! * [`calories`]: the elves that carry most.
//! * [`strategy`]: the score of a guide for rock, paper, scissors.
//! * [`rucksack`]: the items that compartments and groups share.
//! * [`stacks`]: crates moved by a crane.
//! * [`signal`]: the first run of distinct characters.
//! * [`sizes`]: the sizes of the directories of a device.
//! * [`trees`]: the trees that can be seen, and the best view.
//! * [`rope`]: the cells that the tail of a rope visits.
//! * [`cycles`]: a register sampled cycle by cycle, and the screen it draws.
//! * [`monkeys`]: items thrown from monkey to monkey.
//! * [`packets`] and [`distress`]: nested lists and their order.
//! * [`sand`]: sand that falls through a cave.
//!
//! [`text`] splits a text into lines and reads numbers.
pub mod bfs;
pub mod calories;
pub mod cycles;
pub mod distress;
pub mod driver;
pub mod grid;
pub mod parse;
pub mod monkeys;
pub mod packets;
pub mod rope;
pub mod rucksack;
pub mod sand;
pub mod signal;
pub mod sizes;
pub mod stacks;
pub mod strategy;
pub mod text;
pub mod trees;
pub mod rule;
pub mod search;
pub mod walk;
