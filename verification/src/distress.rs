//! Pairs of packets, and whether they arrive in the right order.
use vstd::prelude::*;
use std::cmp::Ordering;
use vstd::string::StringSliceAdditionalSpecFns;
use crate::text::{lines, rows, split_lines, Malformed};
use crate::packets::{
    all_balanced, balanced, items_of, lemma_packets_stop, packets_of, read_packet, text_lines,
    whole, count_where, divider, divider_packet, find_list_end, items_between,
    lemma_as_list_balanced, lemma_cut_balanced, lemma_divider_balanced, lemma_inner_list_ends,
    lemma_list_end_unique, lemma_not_last, lemma_right_order_sum, list_of, mixed, order_at,
    pairs_of, partner, number_of, place, place_of_six, place_of_two, remaining, right_order_sum,
    Item, Order, Packet,
};

verus! {

/// Whether `order` is the order that `expected` names.
pub open spec fn same_order(order: Ordering, expected: Order) -> bool {
    match expected {
        Order::Less => order == Ordering::Less,
        Order::Equal => order == Ordering::Equal,
        Order::Greater => order == Ordering::Greater,
    }
}

/// Compares the first packet from `first_i` on with the second from
/// `second_i` on.  Both places are at the start of the packets, or both
/// behind it.
pub fn compare(first: &Packet, first_i: usize, second: &Packet, second_i: usize) -> (order:
    Ordering)
    requires
        balanced(first.items@),
        balanced(second.items@),
        first_i < first.items@.len(),
        second_i < second.items@.len(),
        (first_i == 0) == (second_i == 0),
    ensures
        same_order(order, order_at(first.items@, first_i, second.items@, second_i)),
    decreases remaining(first.items@, place(first_i), second.items@, place(second_i)),
        (if mixed(first.items@[place(first_i)], second.items@[place(second_i)]) {
            1int
        } else {
            0int
        }),
{
    let left: Item = first.items[first_i];
    let right: Item = second.items[second_i];
    let first_last: usize = first.items.len() - 1;
    let second_last: usize = second.items.len() - 1;
    match (left, right) {
        (Item::ListStart, Item::ListStart) => {
            proof {
                lemma_not_last(first.items@, place(first_i));
                lemma_not_last(second.items@, place(second_i));
            }
            compare(first, first_i + 1, second, second_i + 1)
        },
        (Item::ListEnd, Item::ListEnd) => {
            if first_i == first_last && second_i == second_last {
                Ordering::Equal
            } else if first_i == first_last {
                Ordering::Less
            } else if second_i == second_last {
                Ordering::Greater
            } else {
                compare(first, first_i + 1, second, second_i + 1)
            }
        },
        (Item::Integer(a), Item::Integer(b)) => {
            if a < b {
                Ordering::Less
            } else if a > b {
                Ordering::Greater
            } else {
                proof {
                    lemma_not_last(first.items@, place(first_i));
                    lemma_not_last(second.items@, place(second_i));
                }
                compare(first, first_i + 1, second, second_i + 1)
            }
        },
        (Item::Integer(a), Item::ListStart) => {
            proof {
                let end = lemma_inner_list_ends(second.items@, place(second_i));
                lemma_list_end_unique(second.items@, place(second_i), end);
                lemma_cut_balanced(second.items@, place(second_i), end);
                lemma_as_list_balanced(a);
                lemma_not_last(first.items@, place(first_i));
            }
            let packet = list_of(a);
            let index: usize = find_list_end(second, second_i);
            proof {
                lemma_list_end_unique(second.items@, place(second_i), place(index));
            }
            let other = Packet { items: items_between(&second.items, second_i, index) };
            let order = compare(&packet, 0, &other, 0);
            match order {
                Ordering::Equal => compare(first, first_i + 1, second, index + 1),
                Ordering::Less => Ordering::Less,
                Ordering::Greater => Ordering::Greater,
            }
        },
        (Item::ListStart, Item::Integer(b)) => {
            proof {
                let end = lemma_inner_list_ends(first.items@, place(first_i));
                lemma_list_end_unique(first.items@, place(first_i), end);
                lemma_cut_balanced(first.items@, place(first_i), end);
                lemma_as_list_balanced(b);
                lemma_not_last(second.items@, place(second_i));
            }
            let packet = list_of(b);
            let index: usize = find_list_end(first, first_i);
            proof {
                lemma_list_end_unique(first.items@, place(first_i), place(index));
            }
            let other = Packet { items: items_between(&first.items, first_i, index) };
            let order = compare(&other, 0, &packet, 0);
            match order {
                Ordering::Equal => compare(first, index + 1, second, second_i + 1),
                Ordering::Less => Ordering::Less,
                Ordering::Greater => Ordering::Greater,
            }
        },
        (Item::Integer(_), Item::ListEnd) => Ordering::Greater,
        (Item::ListEnd, Item::Integer(_)) => Ordering::Less,
        (Item::ListStart, Item::ListEnd) => Ordering::Greater,
        (Item::ListEnd, Item::ListStart) => Ordering::Less,
    }
}

/// The packets that were received, pair after pair.
pub struct Puzzle {
    pub packets: Vec<Packet>,
}

impl Puzzle {
    /// Reads the packets from their text, one on each line; empty lines
    /// part the pairs.  A text that holds anything else is refused and
    /// leaves the puzzle as it was.
    pub fn configure(&mut self, text: &str) -> (done: Result<(), Malformed>)
        ensures
            match done {
                Ok(_) => packets_of(text_lines(text), whole(text_lines(text))) == Some(
                    items_of(final(self).packets@),
                ) && all_balanced(final(self).packets@),
                Err(e) => packets_of(text_lines(text), whole(text_lines(text))) is None
                    && *final(self) == *old(self) && e == Malformed::InvalidFormat,
            },
    {
        let found = split_lines(text.as_bytes());
        let ghost all = text_lines(text);
        let mut packets: Vec<Packet> = Vec::new();
        let mut i: usize = 0;
        while i < found.len()
            invariant
                i <= found@.len(),
                rows(found@) == all,
                all == text_lines(text),
                *self == *old(self),
                packets_of(all, place(i)) == Some(items_of(packets@)),
                all_balanced(packets@),
            decreases found@.len() - i,
        {
            let line = &found[i];
            assert(all[place(i)] == line@);
            if line.len() > 0 {
                match read_packet(line) {
                    Some(packet) => {
                        assert(items_of(packets@.push(packet)) =~= items_of(packets@).push(
                            packet.items@,
                        ));
                        packets.push(packet);
                    },
                    None => {
                        proof {
                            lemma_packets_stop(all, place(i), whole(all));
                        }
                        return Err(Malformed::InvalidFormat);
                    },
                }
            }
            i += 1;
        }
        self.packets = packets;
        Ok(())
    }

    /// No packet yet.
    pub fn new() -> (p: Puzzle)
        ensures
            p.packets@.len() == 0,
    {
        Puzzle { packets: Vec::new() }
    }

    /// The sum of the numbers of the pairs that are in the right order.  A
    /// last packet without a partner is paired with itself.
    pub fn part1(&self) -> (sum: usize)
        requires
            all_balanced(self.packets@),
            pairs_of(self.packets@) * pairs_of(self.packets@) <= usize::MAX,
        ensures
            sum == right_order_sum(self.packets@, pairs_of(self.packets@)),
    {
        let n: usize = self.packets.len();
        let pairs: usize = n / 2 + n % 2;
        let mut sum: usize = 0;
        let mut index: usize = 0;
        while index < pairs
            invariant
                n == self.packets@.len(),
                pairs == pairs_of(self.packets@),
                index <= pairs,
                pairs * pairs <= usize::MAX,
                all_balanced(self.packets@),
                sum == right_order_sum(self.packets@, place(index)),
            decreases pairs - index,
        {
            let at: usize = 2 * index;
            let with: usize = if at + 1 < n {
                at + 1
            } else {
                at
            };
            let first = &self.packets[at];
            let second = &self.packets[with];
            proof {
                lemma_right_order_sum(self.packets@, place(index) + 1);
                assert((index + 1) * (index + 1) <= pairs * pairs) by (nonlinear_arith)
                    requires
                        0 <= index < pairs,
                ;
                assert(place(with) == partner(self.packets@, place(at)));
            }
            match compare(first, 0, second, 0) {
                Ordering::Greater => {},
                Ordering::Less => {
                    sum = sum + (index + 1);
                },
                Ordering::Equal => {
                    sum = sum + (index + 1);
                },
            }
            index += 1;
        }
        sum
    }

    /// The product of the places that the dividers `[[2]]` and `[[6]]` take
    /// among the packets in order.
    pub fn part2(&self) -> (key: usize)
        requires
            all_balanced(self.packets@),
            (number_of(self.packets@) + 1) * (number_of(self.packets@) + 2) <= usize::MAX,
        ensures
            key == place_of_two(self.packets@) * place_of_six(self.packets@),
    {
        let n: usize = self.packets.len();
        let divider_two = divider_packet(2);
        let divider_six = divider_packet(6);
        proof {
            lemma_divider_balanced(2);
            lemma_divider_balanced(6);
        }
        let mut below: usize = 0;
        let mut above: usize = 0;
        let mut index: usize = 0;
        while index < n
            invariant
                index <= n,
                number_of(self.packets@) == n,
                all_balanced(self.packets@),
                balanced(divider(2)),
                balanced(divider(6)),
                divider_two.items@ == divider(2),
                divider_six.items@ == divider(6),
                below == count_where(self.packets@, divider(2), Order::Greater, place(index)),
                above == count_where(self.packets@, divider(6), Order::Less, place(index)),
                below <= index,
                above <= index,
            decreases n - index,
        {
            let packet = &self.packets[index];
            match compare(&divider_two, 0, packet, 0) {
                Ordering::Greater => {
                    below = below + 1;
                },
                Ordering::Less => {},
                Ordering::Equal => {},
            }
            match compare(&divider_six, 0, packet, 0) {
                Ordering::Less => {
                    above = above + 1;
                },
                Ordering::Greater => {},
                Ordering::Equal => {},
            }
            index += 1;
        }
        proof {
            assert(n + 2 <= (n + 1) * (n + 2)) by (nonlinear_arith)
                requires
                    n >= 0,
            ;
        }
        let index_two: usize = if below < n {
            below + 1
        } else {
            0
        };
        let index_six: usize = if above < n {
            n - above + 2
        } else {
            0
        };
        proof {
            assert(index_two * index_six <= (n + 1) * (n + 2)) by (nonlinear_arith)
                requires
                    0 <= index_two <= n + 1,
                    0 <= index_six <= n + 2,
            ;
        }
        index_two * index_six
    }
}

} // verus!
