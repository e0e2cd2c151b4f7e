//! Packets: nested lists of integers, written as a flat row of items.
use vstd::prelude::*;
use vstd::string::StringSliceAdditionalSpecFns;
use crate::text::{is_digit, lines, ZERO};

verus! {

/// One item of a packet: where a list starts, where it ends, or an integer.
#[derive(Clone, Copy, Debug, PartialEq, Eq, Structural)]
pub enum Item {
    ListStart,
    ListEnd,
    Integer(u32),
}

/// A packet as the row of its items.
pub struct Packet {
    pub items: Vec<Item>,
}

/// How an item changes the number of open lists.
pub open spec fn delta(item: Item) -> int {
    match item {
        Item::ListStart => 1,
        Item::ListEnd => -1,
        Item::Integer(_) => 0,
    }
}

/// The number of lists that are open behind the item at `e`, counted from
/// the list that starts at `start`.
pub open spec fn depth(items: Seq<Item>, start: int, e: int) -> int
    decreases e - start,
{
    if e <= start {
        1
    } else {
        depth(items, start, e - 1) + delta(items[e])
    }
}

/// Finds the item that ends the list that starts at `start`.
pub fn find_list_end(packet: &Packet, start: usize) -> (end: usize)
    requires
        start < packet.items@.len(),
        packet.items@[start as int] == Item::ListStart,
        exists|e: int| start < e < packet.items@.len() && depth(packet.items@, start as int, e)
            == 0,
    ensures
        start < end < packet.items@.len(),
        packet.items@[end as int] == Item::ListEnd,
        depth(packet.items@, start as int, end as int) == 0,
        forall|e: int| start <= e < end ==> depth(packet.items@, start as int, e) > 0,
{
    let ghost last = choose|e: int|
        start < e < packet.items@.len() && depth(packet.items@, start as int, e) == 0;
    let n: usize = packet.items.len();
    let mut index: usize = start;
    let mut level: usize = 1;
    while level != 0
        invariant
            n == packet.items@.len(),
            start <= index < packet.items@.len(),
            start < last < packet.items@.len(),
            depth(packet.items@, start as int, last) == 0,
            level == depth(packet.items@, start as int, index as int),
            level <= index - start + 1,
            forall|e: int| start <= e < index ==> depth(packet.items@, start as int, e) > 0,
            level == 0 ==> index > start && packet.items@[index as int] == Item::ListEnd,
        decreases last - index + (if level != 0 { 1int } else { 0int }),
    {
        assert(index < last) by {
            if index >= last {
                assert(depth(packet.items@, start as int, last) > 0 || last == index);
            }
        }
        index += 1;
        match packet.items[index] {
            Item::ListStart => {
                level += 1;
            },
            Item::ListEnd => {
                level -= 1;
            },
            Item::Integer(_) => {},
        }
    }
    index
}

/// How two packets compare.
#[derive(Clone, Copy, Debug, PartialEq, Eq, Structural)]
pub enum Order {
    Less,
    Equal,
    Greater,
}

/// A place in a row of items as a number.
pub open spec fn place(i: usize) -> int {
    i as int
}

/// The items are one list: they start with a list start, and the list
/// that it opens stays open up to the last item, which ends it.
pub open spec fn balanced(items: Seq<Item>) -> bool {
    &&& items.len() >= 2
    &&& items[0] == Item::ListStart
    &&& depth(items, 0, items.len() - 1) == 0
    &&& forall|e: int| 0 <= e < items.len() - 1 ==> depth(items, 0, e) > 0
}

/// The item at `end` ends the list that starts at `start`.
pub open spec fn is_list_end(items: Seq<Item>, start: int, end: int) -> bool {
    &&& 0 <= start < end < items.len()
    &&& depth(items, start, end) == 0
    &&& forall|e: int| start <= e < end ==> depth(items, start, e) > 0
}

/// The place of the item that ends the list that starts at `start`.
pub open spec fn list_end(items: Seq<Item>, start: int) -> int {
    choose|end: int| is_list_end(items, start, end)
}

/// An integer as a list of its own.
pub open spec fn as_list(value: u32) -> Seq<Item> {
    seq![Item::ListStart, Item::Integer(value), Item::ListEnd]
}

/// Whether an integer faces the start of a list.
pub open spec fn mixed(left: Item, right: Item) -> bool {
    (left is Integer && right is ListStart) || (left is ListStart && right is Integer)
}

/// How much of two rows of items is still to compare: the number of items
/// from the two places on.
pub open spec fn remaining(
    first: Seq<Item>,
    first_i: int,
    second: Seq<Item>,
    second_i: int,
) -> int {
    (first.len() - first_i) + (second.len() - second_i)
}

/// How the first packet from `first_i` on compares with the second from
/// `second_i` on.  Items are compared in turn.  The smaller of two
/// integers decides.  A list that ends before the other is less.  An
/// integer that faces a list is taken as a list of that integer alone, and
/// where the two are equal the comparison goes on behind them.
pub open spec fn order_from(
    first: Seq<Item>,
    first_i: int,
    second: Seq<Item>,
    second_i: int,
) -> Order
    decreases remaining(first, first_i, second, second_i),
        (if 0 <= first_i < first.len() && 0 <= second_i < second.len() && mixed(
            first[first_i],
            second[second_i],
        ) {
            1int
        } else {
            0int
        }),
{
    if !(0 <= first_i < first.len() && 0 <= second_i < second.len()) {
        Order::Equal
    } else {
        let left = first[first_i];
        let right = second[second_i];
        match (left, right) {
            (Item::ListStart, Item::ListStart) => order_from(
                first,
                first_i + 1,
                second,
                second_i + 1,
            ),
            (Item::ListEnd, Item::ListEnd) => {
                if first_i == first.len() - 1 && second_i == second.len() - 1 {
                    Order::Equal
                } else if first_i == first.len() - 1 {
                    Order::Less
                } else if second_i == second.len() - 1 {
                    Order::Greater
                } else {
                    order_from(first, first_i + 1, second, second_i + 1)
                }
            },
            (Item::Integer(a), Item::Integer(b)) => {
                if a < b {
                    Order::Less
                } else if a > b {
                    Order::Greater
                } else {
                    order_from(first, first_i + 1, second, second_i + 1)
                }
            },
            (Item::Integer(a), Item::ListStart) => {
                let end = list_end(second, second_i);
                if !(is_list_end(second, second_i, end) && end + 1 < second.len() && first_i + 1
                    < first.len()) {
                    Order::Equal
                } else {
                    let inner = order_from(as_list(a), 0, second.subrange(second_i, end + 1), 0);
                    if inner == Order::Equal {
                        order_from(first, first_i + 1, second, end + 1)
                    } else {
                        inner
                    }
                }
            },
            (Item::ListStart, Item::Integer(b)) => {
                let end = list_end(first, first_i);
                if !(is_list_end(first, first_i, end) && end + 1 < first.len() && second_i + 1
                    < second.len()) {
                    Order::Equal
                } else {
                    let inner = order_from(first.subrange(first_i, end + 1), 0, as_list(b), 0);
                    if inner == Order::Equal {
                        order_from(first, end + 1, second, second_i + 1)
                    } else {
                        inner
                    }
                }
            },
            (Item::Integer(_), Item::ListEnd) => Order::Greater,
            (Item::ListEnd, Item::Integer(_)) => Order::Less,
            (Item::ListStart, Item::ListEnd) => Order::Greater,
            (Item::ListEnd, Item::ListStart) => Order::Less,
        }
    }
}

/// How the first packet from `first_i` on compares with the second from
/// `second_i` on.
pub open spec fn order_at(
    first: Seq<Item>,
    first_i: usize,
    second: Seq<Item>,
    second_i: usize,
) -> Order {
    order_from(first, first_i as int, second, second_i as int)
}

/// A list has one end only.
pub proof fn lemma_list_end_unique(items: Seq<Item>, start: int, end: int)
    requires
        is_list_end(items, start, end),
    ensures
        list_end(items, start) == end,
{
    let other = list_end(items, start);
    assert(is_list_end(items, start, other));
    if other < end {
        assert(depth(items, start, other) > 0);
    } else if end < other {
        assert(depth(items, start, end) > 0);
    }
}

/// The depth counted from the start of the whole row is the depth in
/// front of a list plus the depth counted from that list on.
pub proof fn lemma_depth_split(items: Seq<Item>, start: int, e: int)
    requires
        1 <= start <= e < items.len(),
        items[start] == Item::ListStart,
    ensures
        depth(items, 0, e) == depth(items, 0, start - 1) + depth(items, start, e),
    decreases e - start,
{
    if e > start {
        lemma_depth_split(items, start, e - 1);
    }
}

/// Where the depth has fallen to zero or below, it was zero at some item
/// on the way.
pub proof fn lemma_depth_reaches_zero(items: Seq<Item>, start: int, e: int) -> (zero: int)
    requires
        start < e,
        depth(items, start, e) <= 0,
    ensures
        start < zero <= e,
        depth(items, start, zero) == 0,
    decreases e - start,
{
    if depth(items, start, e) == 0 {
        e
    } else {
        assert(depth(items, start, e) == depth(items, start, e - 1) + delta(items[e]));
        assert(depth(items, start, start) == 1);
        lemma_depth_reaches_zero(items, start, e - 1)
    }
}

/// The first item at which the depth is zero ends the list.
pub proof fn lemma_first_zero(items: Seq<Item>, start: int, zero: int) -> (end: int)
    requires
        0 <= start < zero < items.len(),
        depth(items, start, zero) == 0,
    ensures
        start < end <= zero,
        is_list_end(items, start, end),
    decreases zero - start,
{
    if exists|e: int| start < e < zero && depth(items, start, e) == 0 {
        let e = choose|e: int| start < e < zero && depth(items, start, e) == 0;
        lemma_first_zero(items, start, e)
    } else {
        assert forall|e: int| start <= e < zero implies depth(items, start, e) > 0 by {
            lemma_depth_stays_open(items, start, e);
        }
        zero
    }
}

/// The depth is above zero up to the first item at which it is zero.
pub proof fn lemma_depth_stays_open(items: Seq<Item>, start: int, e: int)
    requires
        start <= e,
        forall|k: int| start < k <= e ==> depth(items, start, k) != 0,
    ensures
        depth(items, start, e) > 0,
    decreases e - start,
{
    if e > start {
        lemma_depth_stays_open(items, start, e - 1);
    }
}

/// A list inside a balanced row of items has an end, and more items
/// follow it.
pub proof fn lemma_inner_list_ends(items: Seq<Item>, start: int) -> (end: int)
    requires
        balanced(items),
        1 <= start < items.len(),
        items[start] == Item::ListStart,
    ensures
        is_list_end(items, start, end),
        end + 1 < items.len(),
{
    let last = items.len() - 1;
    assert(depth(items, 0, start - 1) > 0);
    assert(start < last) by {
        if start == last {
            assert(depth(items, 0, last) == depth(items, 0, last - 1) + delta(items[last]));
        }
    }
    lemma_depth_split(items, start, last);
    let zero = lemma_depth_reaches_zero(items, start, last);
    let end = lemma_first_zero(items, start, zero);
    lemma_depth_split(items, start, end);
    end
}

/// The depth inside a list cut out of a row is the depth counted from the
/// start of that list in the row.
pub proof fn lemma_depth_cut(items: Seq<Item>, start: int, end: int, e: int)
    requires
        0 <= start <= end < items.len(),
        0 <= e <= end - start,
    ensures
        depth(items.subrange(start, end + 1), 0, e) == depth(items, start, start + e),
    decreases e,
{
    if e > 0 {
        lemma_depth_cut(items, start, end, e - 1);
    }
}

/// A list cut out of a row of items is balanced.
pub proof fn lemma_cut_balanced(items: Seq<Item>, start: int, end: int)
    requires
        is_list_end(items, start, end),
        items[start] == Item::ListStart,
    ensures
        balanced(items.subrange(start, end + 1)),
{
    let cut = items.subrange(start, end + 1);
    lemma_depth_cut(items, start, end, end - start);
    assert forall|e: int| 0 <= e < cut.len() - 1 implies depth(cut, 0, e) > 0 by {
        lemma_depth_cut(items, start, end, e);
    }
}

/// An integer as a list of its own is balanced.
pub proof fn lemma_as_list_balanced(value: u32)
    ensures
        balanced(as_list(value)),
{
    let items = as_list(value);
    reveal_with_fuel(depth, 4);
    assert(depth(items, 0, 0) == 1);
    assert(depth(items, 0, 1) == 1);
    assert(depth(items, 0, 2) == 0);
}

/// In a balanced row only the last item brings the depth to zero, so an
/// item that is no list end is followed by another.
pub proof fn lemma_not_last(items: Seq<Item>, i: int)
    requires
        balanced(items),
        0 <= i < items.len(),
        items[i] != Item::ListEnd,
    ensures
        i + 1 < items.len(),
{
    let last = items.len() - 1;
    if i == last {
        assert(depth(items, 0, last) == depth(items, 0, last - 1) + delta(items[last]));
    }
}

/// A copy of the items from `from` up to and with `to`.
pub fn items_between(items: &Vec<Item>, from: usize, to: usize) -> (copy: Vec<Item>)
    requires
        from <= to < items@.len(),
    ensures
        copy@ == items@.subrange(from as int, to + 1),
{
    let n: usize = items.len();
    let mut copy: Vec<Item> = Vec::new();
    let mut i: usize = from;
    while i <= to
        invariant
            from <= i <= to + 1,
            to < n == items@.len(),
            copy@ == items@.subrange(from as int, i as int),
        decreases to + 1 - i,
    {
        copy.push(items[i]);
        assert(items@.subrange(from as int, i + 1) == items@.subrange(from as int, i as int).push(
            items@[i as int],
        ));
        i += 1;
    }
    copy
}

/// An integer as a packet of its own.
pub fn list_of(value: u32) -> (packet: Packet)
    ensures
        packet.items@ == as_list(value),
{
    let mut items: Vec<Item> = Vec::new();
    items.push(Item::ListStart);
    items.push(Item::Integer(value));
    items.push(Item::ListEnd);
    assert(items@ =~= as_list(value));
    Packet { items }
}

/// The second packet of the pair that starts at `first`: the packet behind
/// it, or the same packet where none is left.
pub open spec fn partner(packets: Seq<Packet>, first: int) -> int {
    if first + 1 < packets.len() {
        first + 1
    } else {
        first
    }
}

/// Whether the pair that starts at `first` is in the right order: its first
/// packet is not greater than its second.
pub open spec fn in_order(packets: Seq<Packet>, first: int) -> bool {
    order_from(packets[first].items@, 0, packets[partner(packets, first)].items@, 0)
        != Order::Greater
}

/// The sum of the numbers, counted from one, of those of the first `pairs`
/// pairs that are in the right order.
pub open spec fn right_order_sum(packets: Seq<Packet>, pairs: int) -> int
    decreases pairs,
{
    if pairs <= 0 {
        0
    } else if in_order(packets, 2 * (pairs - 1)) {
        right_order_sum(packets, pairs - 1) + pairs
    } else {
        right_order_sum(packets, pairs - 1)
    }
}

/// The number of pairs: a last packet without a partner counts as a pair.
pub open spec fn pairs_of(packets: Seq<Packet>) -> int {
    (packets.len() as int + 1) / 2
}

/// Every packet is one balanced list.
pub open spec fn all_balanced(packets: Seq<Packet>) -> bool {
    forall|i: int| 0 <= i < packets.len() ==> balanced((#[trigger] packets[i]).items@)
}

/// The sum over the first `pairs` pairs is at most `pairs` times the
/// number of the last.
pub proof fn lemma_right_order_sum(packets: Seq<Packet>, pairs: int)
    requires
        0 <= pairs,
    ensures
        0 <= right_order_sum(packets, pairs) <= pairs * pairs,
    decreases pairs,
{
    if pairs > 0 {
        lemma_right_order_sum(packets, pairs - 1);
        assert((pairs - 1) * (pairs - 1) + pairs <= pairs * pairs) by (nonlinear_arith)
            requires
                pairs >= 1,
        ;
    }
}

/// A divider packet: the integer in a list in a list.
pub open spec fn divider(value: u32) -> Seq<Item> {
    seq![Item::ListStart, Item::ListStart, Item::Integer(value), Item::ListEnd, Item::ListEnd]
}

/// A divider is balanced.
pub proof fn lemma_divider_balanced(value: u32)
    ensures
        balanced(divider(value)),
{
    let items = divider(value);
    reveal_with_fuel(depth, 6);
    assert(depth(items, 0, 0) == 1);
    assert(depth(items, 0, 1) == 2);
    assert(depth(items, 0, 2) == 2);
    assert(depth(items, 0, 3) == 1);
    assert(depth(items, 0, 4) == 0);
}

/// A divider as a packet.
pub fn divider_packet(value: u32) -> (packet: Packet)
    ensures
        packet.items@ == divider(value),
{
    let mut items: Vec<Item> = Vec::new();
    items.push(Item::ListStart);
    items.push(Item::ListStart);
    items.push(Item::Integer(value));
    items.push(Item::ListEnd);
    items.push(Item::ListEnd);
    assert(items@ =~= divider(value));
    Packet { items }
}

/// How many of the first `upto` packets the packet `mark` compares to as
/// `wanted` says.
pub open spec fn count_where(packets: Seq<Packet>, mark: Seq<Item>, wanted: Order, upto: int) -> int
    decreases upto,
{
    if upto <= 0 {
        0
    } else if order_from(mark, 0, packets[upto - 1].items@, 0) == wanted {
        count_where(packets, mark, wanted, upto - 1) + 1
    } else {
        count_where(packets, mark, wanted, upto - 1)
    }
}

/// No more packets are counted than there are.
pub proof fn lemma_count_where(packets: Seq<Packet>, mark: Seq<Item>, wanted: Order, upto: int)
    requires
        0 <= upto,
    ensures
        0 <= count_where(packets, mark, wanted, upto) <= upto,
    decreases upto,
{
    if upto > 0 {
        lemma_count_where(packets, mark, wanted, upto - 1);
    }
}

/// The place, counted from one, that the divider `[[2]]` takes among the
/// packets in order: behind every packet that it is greater than.  Zero
/// where it is greater than all of them.
pub open spec fn place_of_two(packets: Seq<Packet>) -> int {
    let below = count_where(packets, divider(2), Order::Greater, packets.len() as int);
    if below < packets.len() {
        below + 1
    } else {
        0
    }
}

/// The place, counted from one, that the divider `[[6]]` takes among the
/// packets in order with `[[2]]` before it: two behind the packets that it
/// is not less than.  Zero where it is less than all of them.
pub open spec fn place_of_six(packets: Seq<Packet>) -> int {
    let above = count_where(packets, divider(6), Order::Less, packets.len() as int);
    if above < packets.len() {
        packets.len() - above + 2
    } else {
        0
    }
}

/// The number of packets.
pub open spec fn number_of(packets: Seq<Packet>) -> int {
    packets.len() as int
}

/// The items read so far from a line, and the integer whose digits are
/// being read.
pub struct Scan {
    pub items: Seq<Item>,
    pub pending: Option<u32>,
}

/// The items with the pending integer, if there is one, at their end.
pub open spec fn flushed(scan: Scan) -> Seq<Item> {
    match scan.pending {
        Some(value) => scan.items.push(Item::Integer(value)),
        None => scan.items,
    }
}

/// What one more byte makes of what was read.  `[` starts a list, `]` ends
/// one, a comma parts two items, and digits make up an integer of at most
/// 32 bits.  Nothing else may stand in a packet, and no list may start in
/// the middle of an integer.
pub open spec fn scan_byte(scan: Scan, b: u8) -> Option<Scan> {
    if b == 91 {
        if scan.pending is Some {
            None
        } else {
            Some(Scan { items: scan.items.push(Item::ListStart), pending: None })
        }
    } else if b == 93 {
        Some(Scan { items: flushed(scan).push(Item::ListEnd), pending: None })
    } else if b == 44 {
        Some(Scan { items: flushed(scan), pending: None })
    } else if is_digit(b) {
        let before: int = match scan.pending {
            Some(value) => value as int,
            None => 0,
        };
        if before * 10 + (b - ZERO) <= u32::MAX {
            Some(Scan { items: scan.items, pending: Some((before * 10 + (b - ZERO)) as u32) })
        } else {
            None
        }
    } else {
        None
    }
}

/// What the first `upto` bytes of a line make.
pub open spec fn scanned(line: Seq<u8>, upto: int) -> Option<Scan>
    decreases upto,
{
    if upto <= 0 {
        Some(Scan { items: seq![], pending: None })
    } else {
        match scanned(line, upto - 1) {
            Some(scan) => scan_byte(scan, line[upto - 1]),
            None => None,
        }
    }
}

/// The packet that a line stands for: its items, where they make one
/// balanced list and no integer is left over.
pub open spec fn packet_of(line: Seq<u8>) -> Option<Seq<Item>> {
    match scanned(line, line.len() as int) {
        Some(scan) => if scan.pending is None && balanced(scan.items) {
            Some(scan.items)
        } else {
            None
        },
        None => None,
    }
}

/// The packets that the first `upto` lines stand for, empty lines left
/// out.
pub open spec fn packets_of(lines: Seq<Seq<u8>>, upto: int) -> Option<Seq<Seq<Item>>>
    decreases upto,
{
    if upto <= 0 {
        Some(seq![])
    } else {
        match packets_of(lines, upto - 1) {
            Some(before) => if lines[upto - 1].len() == 0 {
                Some(before)
            } else {
                match packet_of(lines[upto - 1]) {
                    Some(items) => Some(before.push(items)),
                    None => None,
                }
            },
            None => None,
        }
    }
}

/// The lines of a text.
pub open spec fn text_lines(text: &str) -> Seq<Seq<u8>> {
    lines(text.spec_bytes())
}

/// The number of lines.
pub open spec fn whole(lines: Seq<Seq<u8>>) -> int {
    lines.len() as int
}

/// The packets as rows of items.
pub open spec fn items_of(packets: Seq<Packet>) -> Seq<Seq<Item>> {
    Seq::new(packets.len(), |i: int| packets[i].items@)
}

/// Where some line is no packet, the lines are no packets.
pub proof fn lemma_packets_stop(lines: Seq<Seq<u8>>, bad: int, upto: int)
    requires
        0 <= bad < upto,
        lines[bad].len() > 0,
        packet_of(lines[bad]) is None,
    ensures
        packets_of(lines, upto) is None,
    decreases upto,
{
    if bad < upto - 1 {
        lemma_packets_stop(lines, bad, upto - 1);
    }
}

/// Where the scan of a line has failed, it fails for the whole line.
pub proof fn lemma_scan_stops(line: Seq<u8>, bad: int, upto: int)
    requires
        0 <= bad <= upto,
        scanned(line, bad) is None,
    ensures
        scanned(line, upto) is None,
    decreases upto,
{
    if bad < upto {
        lemma_scan_stops(line, bad, upto - 1);
    }
}

/// Whether the items are one balanced list.
pub fn is_balanced(items: &Vec<Item>) -> (yes: bool)
    ensures
        yes == balanced(items@),
{
    let n: usize = items.len();
    if n < 2 {
        return false;
    }
    match items[0] {
        Item::ListStart => {},
        _ => {
            return false;
        },
    }
    let mut level: usize = 1;
    let mut i: usize = 1;
    while i < n
        invariant
            1 <= i <= n == items@.len(),
            n >= 2,
            items@[0] == Item::ListStart,
            level == depth(items@, 0, i - 1),
            1 <= level <= i,
            forall|e: int| 0 <= e < i ==> depth(items@, 0, e) > 0,
        decreases n - i,
    {
        match items[i] {
            Item::ListStart => {
                level += 1;
            },
            Item::ListEnd => {
                level -= 1;
            },
            Item::Integer(_) => {},
        }
        assert(level == depth(items@, 0, i as int));
        if level == 0 {
            return i == n - 1;
        }
        i += 1;
    }
    false
}

/// Reads the packet of one line.
pub fn read_packet(line: &Vec<u8>) -> (packet: Option<Packet>)
    ensures
        match packet {
            Some(p) => packet_of(line@) == Some(p.items@),
            None => packet_of(line@) is None,
        },
{
    let mut items: Vec<Item> = Vec::new();
    let mut integer: Option<u32> = None;
    let mut i: usize = 0;
    while i < line.len()
        invariant
            i <= line@.len(),
            scanned(line@, i as int) == Some(Scan { items: items@, pending: integer }),
        decreases line@.len() - i,
    {
        let b: u8 = line[i];
        let ghost before = Scan { items: items@, pending: integer };
        if b == 91 {
            if integer.is_some() {
                proof {
                    lemma_scan_stops(line@, i + 1, line@.len() as int);
                }
                return None;
            }
            items.push(Item::ListStart);
        } else if b == 93 || b == 44 {
            if let Some(value) = integer {
                items.push(Item::Integer(value));
                integer = None;
            }
            if b == 93 {
                items.push(Item::ListEnd);
            }
        } else if 48 <= b && b <= 57 {
            let digit: u32 = (b - 48) as u32;
            let value: u32 = match integer {
                Some(value) => value,
                None => 0,
            };
            if value > (u32::MAX - digit) / 10 {
                proof {
                    lemma_scan_stops(line@, i + 1, line@.len() as int);
                }
                return None;
            }
            integer = Some(value * 10 + digit);
        } else {
            proof {
                lemma_scan_stops(line@, i + 1, line@.len() as int);
            }
            return None;
        }
        i += 1;
    }
    if integer.is_some() {
        return None;
    }
    if is_balanced(&items) {
        Some(Packet { items })
    } else {
        None
    }
}

} // verus!
