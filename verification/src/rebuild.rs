//! The indexes of a book, rebuilt from its arena.

use crate::arena::{linked, linked_back, OrderSlot, NULL_IDX};
use crate::book::{ids, is_queue, OrderBook};
use crate::levels::PriceLevel;
use crate::model::Side;
use crate::order_map::{lemma_table_size, table_size, OrderMap};
use crate::sums::{lemma_sum_grows, lemma_sum_list, sum_below, sum_over};
use crate::view::{quantity_of, resting};
use std::collections::BTreeMap;
use vstd::prelude::*;

verus! {

/// A slot holds an order that rests at `side` and `price`.
pub open spec fn rests_at(slot: OrderSlot, side: Side, price: u64) -> bool {
    slot.in_use && slot.order.side == side && slot.order.price == price
}

/// Some slot below `n` holds an order at `side` and `price`.
pub open spec fn occupied(slots: Seq<OrderSlot>, side: Side, price: u64, n: nat) -> bool {
    exists|i: int| 0 <= i < n && rests_at(#[trigger] slots[i], side, price)
}

/// The quantity that each slot has at `side` and `price`.
pub open spec fn quantity_in(slots: Seq<OrderSlot>, side: Side, price: u64) -> spec_fn(int) -> nat {
    |i: int|
        if rests_at(slots[i], side, price) {
            slots[i].order.quantity as nat
        } else {
            0nat
        }
}

/// The slots at `side` and `price` that follow no other.
pub open spec fn leads(slots: Seq<OrderSlot>, side: Side, price: u64) -> spec_fn(int) -> bool {
    |i: int| rests_at(slots[i], side, price) && slots[i].prev_idx == NULL_IDX
}

/// The slots at `side` and `price` that no other follows.
pub open spec fn trails(slots: Seq<OrderSlot>, side: Side, price: u64) -> spec_fn(int) -> bool {
    |i: int| rests_at(slots[i], side, price) && slots[i].next_idx == NULL_IDX
}

/// The last index below `n` that has a property, `NULL_IDX` where none has it.
pub open spec fn last_where(f: spec_fn(int) -> bool, n: nat) -> u32
    decreases n,
{
    if n == 0 {
        NULL_IDX
    } else if f(n - 1) {
        (n - 1) as u32
    } else {
        last_where(f, (n - 1) as nat)
    }
}

/// The level at `side` and `price` for the first `n` slots.
pub open spec fn rebuilt_level(slots: Seq<OrderSlot>, side: Side, price: u64, n: nat) -> PriceLevel {
    PriceLevel {
        price,
        total_quantity: sum_below(quantity_in(slots, side, price), n) as u64,
        head_idx: last_where(leads(slots, side, price), n),
        tail_idx: last_where(trails(slots, side, price), n),
    }
}

/// The levels of one side for the first `n` slots.
pub open spec fn rebuilt_levels(slots: Seq<OrderSlot>, side: Side, n: nat) -> Map<u64, PriceLevel> {
    Map::new(
        |price: u64| occupied(slots, side, price, n),
        |price: u64| rebuilt_level(slots, side, price, n),
    )
}

/// No price has more than a level can count among the first `n` slots.
pub open spec fn countable(slots: Seq<OrderSlot>, n: nat) -> bool {
    forall|side: Side, price: u64|
        sum_below(#[trigger] quantity_in(slots, side, price), n) <= u64::MAX
}

/// The first slot below `n` that holds the order `order_id`.
pub open spec fn first_with(slots: Seq<OrderSlot>, order_id: u64, n: nat) -> Option<u32>
    decreases n,
{
    if n == 0 {
        None
    } else {
        match first_with(slots, order_id, (n - 1) as nat) {
            Some(i) => Some(i),
            None => if slots[n - 1].in_use && slots[n - 1].order.order_id == order_id {
                Some((n - 1) as u32)
            } else {
                None
            },
        }
    }
}

/// The index by ID for the first `n` slots.
pub open spec fn rebuilt_ids(slots: Seq<OrderSlot>, n: nat) -> Map<u64, u32> {
    Map::new(
        |id: u64| first_with(slots, id, n) is Some,
        |id: u64| first_with(slots, id, n)->0,
    )
}

/// A slot that is found holds the order.
pub proof fn lemma_first_with(slots: Seq<OrderSlot>, order_id: u64, n: nat)
    requires
        n <= slots.len() <= NULL_IDX,
        first_with(slots, order_id, n) is Some,
    ensures
        ({
            let i = first_with(slots, order_id, n)->0;
            i < n && slots[i as int].in_use && slots[i as int].order.order_id == order_id
        }),
    decreases n,
{
    if first_with(slots, order_id, (n - 1) as nat) is Some {
        lemma_first_with(slots, order_id, (n - 1) as nat);
    }
}

/// No property of a slot at `side` and `price` is found where no slot is there.
proof fn lemma_unoccupied(slots: Seq<OrderSlot>, side: Side, price: u64, n: nat)
    requires
        !occupied(slots, side, price, n),
    ensures
        sum_below(quantity_in(slots, side, price), n) == 0,
        last_where(leads(slots, side, price), n) == NULL_IDX,
        last_where(trails(slots, side, price), n) == NULL_IDX,
    decreases n,
{
    if n > 0 {
        assert(!rests_at(slots[n - 1], side, price));
        assert(!occupied(slots, side, price, (n - 1) as nat));
        lemma_unoccupied(slots, side, price, (n - 1) as nat);
    }
}

/// The level at a price after one more order.
pub open spec fn extended_level(level: PriceLevel, i: u32, slot: OrderSlot) -> PriceLevel {
    PriceLevel {
        price: level.price,
        total_quantity: (level.total_quantity + slot.order.quantity) as u64,
        head_idx: if slot.prev_idx == NULL_IDX {
            i
        } else {
            level.head_idx
        },
        tail_idx: if slot.next_idx == NULL_IDX {
            i
        } else {
            level.tail_idx
        },
    }
}

/// The level at a price, a level without orders where there is none.
pub open spec fn level_or_new(levels: Map<u64, PriceLevel>, price: u64) -> PriceLevel {
    if levels.contains_key(price) {
        levels[price]
    } else {
        PriceLevel { price, total_quantity: 0, head_idx: NULL_IDX, tail_idx: NULL_IDX }
    }
}

/// One more slot changes the level at its price, and no other.
proof fn lemma_rebuilt_levels(slots: Seq<OrderSlot>, side: Side, n: nat)
    requires
        n < slots.len() <= NULL_IDX,
        countable(slots, n + 1),
        countable(slots, n),
    ensures
        ({
            let slot = slots[n as int];
            let levels = rebuilt_levels(slots, side, n);
            let price = slot.order.price;
            rebuilt_levels(slots, side, n + 1) == if slot.in_use && slot.order.side == side {
                levels.insert(price, extended_level(level_or_new(levels, price), n as u32, slot))
            } else {
                levels
            }
        }),
{
    let slot = slots[n as int];
    let was = rebuilt_levels(slots, side, n);
    let is = rebuilt_levels(slots, side, n + 1);
    let here = slot.in_use && slot.order.side == side;
    let changed = if here {
        was.insert(
            slot.order.price,
            extended_level(level_or_new(was, slot.order.price), n as u32, slot),
        )
    } else {
        was
    };
    assert forall|price: u64| #[trigger] is.contains_key(price) == changed.contains_key(price) by {
        if occupied(slots, side, price, n + 1) {
            let i = choose|i: int| 0 <= i < n + 1 && rests_at(#[trigger] slots[i], side, price);
            assert(rests_at(slots[i], side, price));
        }
        if here && price == slot.order.price {
            assert(rests_at(slots[n as int], side, price));
        }
        if occupied(slots, side, price, n) {
            let i = choose|i: int| 0 <= i < n && rests_at(#[trigger] slots[i], side, price);
            assert(rests_at(slots[i], side, price));
        }
    }
    assert forall|price: u64| #[trigger] is.contains_key(price) implies is[price]
        == changed[price] by {
        let f = quantity_in(slots, side, price);
        assert(sum_below(f, n + 1) == sum_below(f, n) + f(n as int));
        if !occupied(slots, side, price, n) {
            lemma_unoccupied(slots, side, price, n);
        }
    }
    assert(is =~= changed);
}

/// One more slot adds its order, unless an earlier slot has the same.
proof fn lemma_rebuilt_ids(slots: Seq<OrderSlot>, n: nat)
    requires
        n < slots.len() <= NULL_IDX,
    ensures
        ({
            let slot = slots[n as int];
            let map = rebuilt_ids(slots, n);
            rebuilt_ids(slots, n + 1) == if slot.in_use && !map.contains_key(
                slot.order.order_id,
            ) {
                map.insert(slot.order.order_id, n as u32)
            } else {
                map
            }
        }),
{
    let slot = slots[n as int];
    let map = rebuilt_ids(slots, n);
    let changed = if slot.in_use && !map.contains_key(slot.order.order_id) {
        map.insert(slot.order.order_id, n as u32)
    } else {
        map
    };
    assert(rebuilt_ids(slots, n + 1) =~= changed);
}

/// Adds the order of slot `i` to the level at its price. Returns `false`, and leaves the levels,
/// where the total of the level would be too large.
fn extend_level(levels: &mut BTreeMap<u64, PriceLevel>, i: u32, slot: OrderSlot) -> (extended: bool)
    ensures
        ({
            let level = level_or_new(old(levels)@, slot.order.price);
            &&& extended == (level.total_quantity + slot.order.quantity <= u64::MAX)
            &&& final(levels)@ == if extended {
                old(levels)@.insert(slot.order.price, extended_level(level, i, slot))
            } else {
                old(levels)@
            }
        }),
{
    let price: u64 = slot.order.price;
    let mut level = match levels.get(&price) {
        Some(level) => *level,
        None => PriceLevel::new(price),
    };
    if slot.prev_idx == NULL_IDX {
        level.head_idx = i;
    }
    if slot.next_idx == NULL_IDX {
        level.tail_idx = i;
    }
    match level.total_quantity.checked_add(slot.order.quantity) {
        Some(total) => {
            level.total_quantity = total;
            levels.insert(price, level);
            true
        },
        None => false,
    }
}

impl OrderBook {
    /// The arena is small enough for its indexes.
    pub open spec fn sized(self) -> bool {
        self.slots@.len() <= NULL_IDX && table_size(self.slots@.len()) <= usize::MAX
    }

    /// The indexes are those of the arena.
    pub open spec fn rebuilt(self) -> bool {
        &&& self.bids@ == rebuilt_levels(self.slots@, Side::Buy, self.slots@.len())
        &&& self.asks@ == rebuilt_levels(self.slots@, Side::Sell, self.slots@.len())
        &&& self.orders_map.wf()
        &&& self.orders_map.capacity == table_size(self.slots@.len())
        &&& self.orders_map@ == rebuilt_ids(self.slots@, self.slots@.len())
    }

    /// Rebuilds the levels and the index by ID from the arena.
    ///
    /// Returns `false`, and leaves the book, where the orders at one price have more quantity
    /// than a level can count.
    pub fn rebuild_indexes(&mut self) -> (done: bool)
        requires
            old(self).sized(),
        ensures
            done == countable(old(self).slots@, old(self).slots@.len()),
            done ==> {
                &&& final(self).slots == old(self).slots
                &&& final(self).free_head == old(self).free_head
                &&& final(self).rebuilt()
            },
            !done ==> *final(self) == *old(self),
    {
        let mut bids: BTreeMap<u64, PriceLevel> = BTreeMap::new();
        let mut asks: BTreeMap<u64, PriceLevel> = BTreeMap::new();
        let mut orders_map = OrderMap::new(self.slots.len());
        let mut i: usize = 0;
        let ghost slots = self.slots@;
        proof {
            lemma_table_size(slots.len());
            assert(rebuilt_ids(slots, 0) =~= Map::<u64, u32>::empty());
            assert(bids@ =~= rebuilt_levels(slots, Side::Buy, 0));
            assert(asks@ =~= rebuilt_levels(slots, Side::Sell, 0));
        }
        while i < self.slots.len()
            invariant
                i <= slots.len(),
                slots.len() <= NULL_IDX,
                slots.len() < table_size(slots.len()),
                slots == self.slots@,
                *self == *old(self),
                countable(slots, i as nat),
                bids@ == rebuilt_levels(slots, Side::Buy, i as nat),
                asks@ == rebuilt_levels(slots, Side::Sell, i as nat),
                orders_map.wf(),
                orders_map.capacity == table_size(slots.len()),
                orders_map@ == rebuilt_ids(slots, i as nat),
            decreases slots.len() - i,
        {
            let slot = self.slots[i];
            let ghost n = i as nat;
            let ghost price = slot.order.price;
            let ghost f = quantity_in(slots, slot.order.side, price);
            if slot.in_use {
                proof {
                    assert forall|id: u64| #[trigger] orders_map@.contains_key(id) implies {
                        &&& orders_map@[id] < slots.len()
                        &&& ids(slots)(orders_map@[id]) == id
                    } by {
                        lemma_first_with(slots, id, n);
                    }
                    orders_map.lemma_has_room(ids(slots), slots.len());
                    assert(sum_below(f, n + 1) == sum_below(f, n) + f(i as int));
                    if !occupied(slots, slot.order.side, price, n) {
                        lemma_unoccupied(slots, slot.order.side, price, n);
                    }
                }
                let _ = orders_map.insert(slot.order.order_id, i as u32);
                let extended: bool = match slot.order.side() {
                    Side::Buy => extend_level(&mut bids, i as u32, slot),
                    Side::Sell => extend_level(&mut asks, i as u32, slot),
                };
                if !extended {
                    proof {
                        lemma_sum_grows(f, n + 1, slots.len());
                        assert(sum_below(quantity_in(slots, slot.order.side, price), slots.len())
                            > u64::MAX);
                    }
                    return false;
                }
            }
            proof {
                assert forall|side: Side, p: u64|
                    sum_below(#[trigger] quantity_in(slots, side, p), n + 1) <= u64::MAX by {
                    let g = quantity_in(slots, side, p);
                    assert(sum_below(g, n + 1) == sum_below(g, n) + g(i as int));
                    assert(sum_below(g, n) <= u64::MAX);
                }
                lemma_rebuilt_levels(slots, Side::Buy, n);
                lemma_rebuilt_levels(slots, Side::Sell, n);
                lemma_rebuilt_ids(slots, n);
            }
            i = i + 1;
        }
        self.bids = bids;
        self.asks = asks;
        self.orders_map = orders_map;
        true
    }

    /// The level of a queue is the one that the arena has at its price.
    proof fn lemma_level_rebuilt(self, side: Side, price: u64)
        requires
            self.wf(),
        ensures
            occupied(self.slots@, side, price, self.slots@.len()) == self.levels(
                side,
            ).contains_key(price),
            sum_below(quantity_in(self.slots@, side, price), self.slots@.len()) <= u64::MAX,
            self.levels(side).contains_key(price) ==> rebuilt_level(
                self.slots@,
                side,
                price,
                self.slots@.len(),
            ) == self.levels(side)[price],
    {
        let slots = self.slots@;
        let n = slots.len();
        assert(self.queued(side));
        assert forall|i: int| 0 <= i < n && rests_at(#[trigger] slots[i], side, price) implies {
            &&& self.levels(side).contains_key(price)
            &&& self.queue_list(side, price).contains(i as u32)
        } by {
            assert(slots[(i as u32) as int].in_use);
            assert(self.enqueued(i as u32));
        }
        if self.levels(side).contains_key(price) {
            let level = self.levels(side)[price];
            let list = self.queue_list(side, price);
            let f = quantity_in(slots, side, price);
            assert(rests_at(slots[list[0] as int], side, price));
            assert forall|i: u32| i < n && !#[trigger] list.contains(i) implies f(i as int)
                == 0 by {
                assert(!rests_at(slots[i as int], side, price));
            }
            lemma_sum_list(f, list, n);
            lemma_queue_quantity(slots, side, price, list);
            assert forall|i: int| 0 <= i < n && #[trigger] leads(slots, side, price)(i) implies i
                == list[0] by {
                let k = choose|k: int| 0 <= k < list.len() && list[k] == i as u32;
                assert(linked_back(slots, list, k));
                assert(rests_at(slots[i], side, price));
            }
            assert(linked_back(slots, list, 0));
            lemma_last_where(leads(slots, side, price), list[0] as int, n);
            assert forall|i: int| 0 <= i < n && #[trigger] trails(slots, side, price)(i) implies i
                == list.last() by {
                assert(rests_at(slots[i], side, price));
                let k = choose|k: int| 0 <= k < list.len() && list[k] == i as u32;
                assert(linked(slots, list, k));
            }
            assert(linked(slots, list, list.len() - 1));
            lemma_last_where(trails(slots, side, price), list.last() as int, n);
        } else {
            assert(!occupied(slots, side, price, n));
            lemma_unoccupied(slots, side, price, n);
        }
    }

    /// The indexes of a well-formed book are those of its arena.
    pub proof fn lemma_rebuilt(self)
        requires
            self.wf(),
        ensures
            self.rebuilt(),
            countable(self.slots@, self.slots@.len()),
    {
        let slots = self.slots@;
        let n = slots.len();
        assert forall|side: Side| #[trigger]
            rebuilt_levels(slots, side, n) =~= self.levels(side) by {
            assert forall|price: u64| #[trigger]
                self.levels(side).contains_key(price) == occupied(slots, side, price, n) by {
                self.lemma_level_rebuilt(side, price);
            }
            assert forall|price: u64| #[trigger]
                self.levels(side).contains_key(price) implies self.levels(side)[price]
                == rebuilt_level(slots, side, price, n) by {
                self.lemma_level_rebuilt(side, price);
            }
        }
        assert(rebuilt_levels(slots, Side::Buy, n) == self.levels(Side::Buy));
        assert(rebuilt_levels(slots, Side::Sell, n) == self.levels(Side::Sell));
        assert forall|side: Side, price: u64|
            sum_below(#[trigger] quantity_in(slots, side, price), n) <= u64::MAX by {
            self.lemma_level_rebuilt(side, price);
        }
        assert forall|id: u64| first_with(slots, id, n) is Some implies {
            &&& #[trigger] self.orders_map@.contains_key(id)
            &&& self.orders_map@[id] == first_with(slots, id, n)->0
        } by {
            lemma_first_with(slots, id, n);
        }
        assert forall|id: u64| #[trigger] self.orders_map@.contains_key(id) implies first_with(
            slots,
            id,
            n,
        ) is Some by {
            lemma_first_with_none(slots, id, n);
        }
        assert(self.orders_map@ =~= rebuilt_ids(slots, n));
    }

    /// A book with the arena and the free list of a well-formed book, and with indexes rebuilt
    /// from it, is that book.
    pub proof fn lemma_recovered(self, book: OrderBook)
        requires
            book.wf(),
            self.slots@ == book.slots@,
            self.free_head == book.free_head,
            self.rebuilt(),
        ensures
            self.wf(),
            self@ == book@,
    {
        book.lemma_rebuilt();
        assert(self.bids@ == book.bids@);
        assert(self.asks@ == book.asks@);
        assert forall|i: u32| #[trigger] self.enqueued(i) == book.enqueued(i) by {}
        assert forall|side: Side| #[trigger] self.queued(side) by {
            assert(book.queued(side));
            assert forall|price: u64| self.queue_list(side, price) == #[trigger] book.queue_list(
                side,
                price,
            ) by {}
            assert forall|price: u64| #[trigger]
                self.levels(side).contains_key(price) implies is_queue(
                self.slots@,
                side,
                price,
                self.levels(side)[price],
                self.queue_list(side, price),
            ) by {
                assert(book.levels(side).contains_key(price));
            }
        }
    }
}

/// The last index that has a property is the only one that has it.
proof fn lemma_last_where(f: spec_fn(int) -> bool, k: int, n: nat)
    requires
        0 <= k < n <= NULL_IDX,
        f(k),
        forall|i: int| 0 <= i < n && #[trigger] f(i) ==> i == k,
    ensures
        last_where(f, n) == k,
    decreases n,
{
    if k < n - 1 {
        assert(!f(n - 1));
        lemma_last_where(f, k, (n - 1) as nat);
    }
}

/// An order that is not found is in no slot.
pub(crate) proof fn lemma_first_with_none(slots: Seq<OrderSlot>, order_id: u64, n: nat)
    requires
        n <= slots.len(),
    ensures
        first_with(slots, order_id, n) is None ==> forall|i: int|
            0 <= i < n ==> !((#[trigger] slots[i]).in_use && slots[i].order.order_id == order_id),
    decreases n,
{
    if n > 0 {
        lemma_first_with_none(slots, order_id, (n - 1) as nat);
    }
}

/// The quantity of the slots of a list is that of its orders.
proof fn lemma_queue_quantity(slots: Seq<OrderSlot>, side: Side, price: u64, list: Seq<u32>)
    requires
        forall|i: int|
            0 <= i < list.len() ==> rests_at(slots[#[trigger] list[i] as int], side, price),
    ensures
        sum_over(quantity_in(slots, side, price), list) == quantity_of(resting(slots, list)),
    decreases list.len(),
{
    if list.len() > 0 {
        let rest = list.drop_last();
        assert forall|i: int| 0 <= i < rest.len() implies rests_at(
            slots[#[trigger] rest[i] as int],
            side,
            price,
        ) by {
            assert(rest[i] == list[i]);
        }
        lemma_queue_quantity(slots, side, price, rest);
        assert(resting(slots, list).drop_last() =~= resting(slots, rest));
        assert(rests_at(slots[list[list.len() - 1] as int], side, price));
    }
}

} // verus!
