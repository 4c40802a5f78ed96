//! The order book: a pre-allocated arena of orders, queued by price and indexed by ID.

use crate::arena::{chain, lemma_chain, nth};
use crate::arena::{linked, linked_back, threads, threads_back};
use crate::arena::OrderSlot;
use crate::errors::EngineError;
use crate::levels::{highest_price, lowest_price};
use crate::model::{Order, Side, Trade};
use crate::order_map::{lemma_table_size, table_size, OrderMap};
use crate::view::{lemma_quantity_push, lemma_quantity_remove, lemma_quantity_update};
use crate::view::{better, crosses, quantity_of, resting, BookView, Fill, Resting};
use std::collections::BTreeMap;
use vstd::prelude::*;

pub use crate::arena::NULL_IDX;
pub use crate::levels::PriceLevel;

verus! {

/// The order that a free slot holds.
pub open spec fn blank_order() -> Order {
    Order { order_id: 0, price: 0, quantity: 0, client_id: 0, side: Side::Buy }
}

/// A slot is free and carries nothing but its next link.
pub open spec fn is_blank(slot: OrderSlot) -> bool {
    !slot.in_use && slot.prev_idx == NULL_IDX && slot.order == blank_order()
}

/// The padding of a slot is zero.
pub open spec fn zero_padded(slot: OrderSlot) -> bool {
    forall|k: int| 0 <= k < 7 ==> #[trigger] slot._padding[k] == 0
}

/// The order ID that each slot holds.
pub open spec fn ids(slots: Seq<OrderSlot>) -> spec_fn(u32) -> u64 {
    |i: u32| slots[i as int].order.order_id
}

/// `list` is the queue of the level `level`, at `side` and `price`.
pub open spec fn is_queue(
    slots: Seq<OrderSlot>,
    side: Side,
    price: u64,
    level: PriceLevel,
    list: Seq<u32>,
) -> bool {
    &&& list.len() > 0
    &&& threads(slots, level.head_idx, list)
    &&& threads_back(slots, list)
    &&& level.tail_idx == list.last()
    &&& level.price == price
    &&& level.total_quantity == quantity_of(resting(slots, list))
    &&& forall|i: int|
        0 <= i < list.len() ==> {
            let slot = slots[#[trigger] list[i] as int];
            slot.in_use && slot.order.side == side && slot.order.price == price
        }
}

/// The queue at every price of one side.
pub open spec fn queues(slots: Seq<OrderSlot>, levels: Map<u64, PriceLevel>) -> Map<
    u64,
    Seq<Resting>,
> {
    Map::new(
        |price: u64| levels.contains_key(price),
        |price: u64| resting(slots, chain(slots, levels[price].head_idx)),
    )
}

/// Place `k` of a queue was skipped by its neighbours: the rest of the queue is a queue.
proof fn lemma_unlinked(
    then: Seq<OrderSlot>,
    now: Seq<OrderSlot>,
    side: Side,
    price: u64,
    was: PriceLevel,
    is: PriceLevel,
    list: Seq<u32>,
    k: int,
)
    requires
        then.len() <= NULL_IDX,
        is_queue(then, side, price, was, list),
        0 <= k < list.len(),
        now.len() == then.len(),
        forall|i: int|
            0 <= i < then.len() ==> {
                &&& (#[trigger] now[i]).order == then[i].order
                &&& now[i].in_use == then[i].in_use
                &&& now[i].next_idx == if i == nth(list, k - 1) {
                    nth(list, k + 1)
                } else {
                    then[i].next_idx
                }
                &&& now[i].prev_idx == if i == nth(list, k + 1) {
                    nth(list, k - 1)
                } else {
                    then[i].prev_idx
                }
            },
        is.price == was.price,
        is.head_idx == if k == 0 {
            nth(list, 1)
        } else {
            was.head_idx
        },
        is.tail_idx == if k == list.len() - 1 {
            nth(list, k - 1)
        } else {
            was.tail_idx
        },
        is.total_quantity == was.total_quantity - then[list[k] as int].order.quantity,
    ensures
        resting(now, list.remove(k)) == resting(then, list).remove(k),
        list.len() > 1 ==> is_queue(now, side, price, is, list.remove(k)),
        list.len() == 1 <==> is.head_idx == NULL_IDX,
        !list.remove(k).contains(list[k]),
        forall|i: u32| #[trigger]
            list.contains(i) && i != list[k] ==> list.remove(k).contains(i),
{
    let rest = list.remove(k);
    assert(resting(now, rest) =~= resting(then, list).remove(k));
    lemma_quantity_remove(resting(then, list), k);
    assert forall|i: int| 0 <= i < rest.len() implies #[trigger] linked(now, rest, i) by {
        let j = if i < k {
            i
        } else {
            i + 1
        };
        assert(linked(then, list, j));
        assert(list[j] == nth(list, k - 1) ==> j == k - 1);
    }
    assert forall|i: int| 0 <= i < rest.len() implies #[trigger] linked_back(now, rest, i) by {
        let j = if i < k {
            i
        } else {
            i + 1
        };
        assert(linked_back(then, list, j));
        assert(list[j] == nth(list, k + 1) ==> j == k + 1);
    }
    assert forall|i: u32| #[trigger] list.contains(i) && i != list[k] implies rest.contains(i) by {
        let j = choose|j: int| 0 <= j < list.len() && list[j] == i;
        assert(rest[if j < k { j } else { j - 1 }] == i);
    }
}

/// The slot `new` was linked behind the last slot of a queue: it ends the queue.
proof fn lemma_appended(
    then: Seq<OrderSlot>,
    now: Seq<OrderSlot>,
    side: Side,
    price: u64,
    was: PriceLevel,
    is: PriceLevel,
    list: Seq<u32>,
    new: u32,
)
    requires
        then.len() <= NULL_IDX,
        list.len() > 0 ==> is_queue(then, side, price, was, list),
        list.len() == 0 ==> was == (PriceLevel {
            price,
            total_quantity: 0,
            head_idx: NULL_IDX,
            tail_idx: NULL_IDX,
        }),
        !list.contains(new),
        new < then.len(),
        then[new as int].in_use,
        then[new as int].order.side == side,
        then[new as int].order.price == price,
        then[new as int].next_idx == NULL_IDX,
        now.len() == then.len(),
        forall|i: int|
            0 <= i < then.len() ==> {
                &&& (#[trigger] now[i]).order == then[i].order
                &&& now[i].in_use == then[i].in_use
                &&& now[i].next_idx == if i == nth(list, list.len() - 1) {
                    new
                } else {
                    then[i].next_idx
                }
                &&& now[i].prev_idx == if i == new {
                    nth(list, list.len() - 1)
                } else {
                    then[i].prev_idx
                }
            },
        is.price == was.price,
        is.head_idx == if list.len() == 0 {
            new
        } else {
            was.head_idx
        },
        is.tail_idx == new,
        is.total_quantity == was.total_quantity + then[new as int].order.quantity,
    ensures
        resting(now, list.push(new)) == resting(then, list).push(
            Resting { slot: new, order: then[new as int].order },
        ),
        is_queue(now, side, price, is, list.push(new)),
        list.push(new).contains(new),
        forall|i: u32| #[trigger] list.contains(i) ==> list.push(new).contains(i),
{
    let longer = list.push(new);
    let entry = Resting { slot: new, order: then[new as int].order };
    assert(resting(now, longer) =~= resting(then, list).push(entry));
    lemma_quantity_push(resting(then, list), entry);
    if list.len() == 0 {
        assert(resting(then, list) =~= Seq::<Resting>::empty());
    }
    assert(longer[list.len() as int] == new);
    assert forall|i: int| 0 <= i < longer.len() implies #[trigger] linked(now, longer, i) by {
        if i < list.len() {
            assert(linked(then, list, i));
            assert(list[i] == list.last() ==> i == list.len() - 1);
        }
    }
    assert forall|i: int| 0 <= i < longer.len() implies #[trigger] linked_back(
        now,
        longer,
        i,
    ) by {
        if i < list.len() {
            assert(linked_back(then, list, i));
            assert(list[i] != new);
        }
    }
    assert forall|i: u32| #[trigger] list.contains(i) implies longer.contains(i) by {
        let j = choose|j: int| 0 <= j < list.len() && list[j] == i;
        assert(longer[j] == i);
    }
}

/// The record of an execution.
pub open spec fn trade_record(
    fill: Fill,
    trade_id: u64,
    sequence_id: u64,
    taker: Order,
) -> Trade {
    Trade {
        trade_id,
        sequence_id,
        maker_id: fill.maker.order.order_id,
        taker_id: taker.order_id,
        price: fill.maker.order.price,
        quantity: fill.quantity,
        side: taker.side,
    }
}

/// The order book.
pub struct OrderBook {
    /// Buy levels by price.
    pub bids: BTreeMap<u64, PriceLevel>,
    /// Sell levels by price.
    pub asks: BTreeMap<u64, PriceLevel>,
    /// The arena, of resting orders and free slots.
    pub slots: Vec<OrderSlot>,
    /// Head of the list of free slots.
    pub free_head: u32,
    /// The slot of every resting order, by order ID.
    pub orders_map: OrderMap,
}

impl View for OrderBook {
    type V = BookView;

    open spec fn view(&self) -> BookView {
        BookView {
            bids: queues(self.slots@, self.bids@),
            asks: queues(self.slots@, self.asks@),
            free: self.free_list(),
        }
    }
}

impl OrderBook {
    /// The levels of one side.
    pub open spec fn levels(self, side: Side) -> Map<u64, PriceLevel> {
        match side {
            Side::Buy => self.bids@,
            Side::Sell => self.asks@,
        }
    }

    /// The slots of the queue at a price.
    pub open spec fn queue_list(self, side: Side, price: u64) -> Seq<u32> {
        chain(self.slots@, self.levels(side)[price].head_idx)
    }

    /// The free slots.
    pub open spec fn free_list(self) -> Seq<u32> {
        chain(self.slots@, self.free_head)
    }

    /// Every level has a queue.
    pub open spec fn queued(self, side: Side) -> bool {
        forall|price: u64| #[trigger]
            self.levels(side).contains_key(price) ==> is_queue(
                self.slots@,
                side,
                price,
                self.levels(side)[price],
                self.queue_list(side, price),
            )
    }

    /// The slot `i` stands in the queue of its side and price.
    pub open spec fn enqueued(self, i: u32) -> bool {
        let order = self.slots@[i as int].order;
        self.levels(order.side).contains_key(order.price) && self.queue_list(
            order.side,
            order.price,
        ).contains(i)
    }

    /// The arena is threaded: every slot but `hole` is free, or in the queue of its side and
    /// price. The slot `hole`, unless it is `NULL_IDX`, is in neither.
    pub open spec fn threaded(self, hole: u32) -> bool {
        &&& self.slots@.len() <= NULL_IDX
        &&& self.queued(Side::Buy)
        &&& self.queued(Side::Sell)
        &&& threads(self.slots@, self.free_head, self.free_list())
        &&& forall|i: int|
            0 <= i < self.free_list().len() ==> is_blank(
                self.slots@[#[trigger] self.free_list()[i] as int],
            )
        &&& forall|i: u32|
            #![trigger self.slots@[i as int]]
            i < self.slots@.len() && i != hole ==> if self.slots@[i as int].in_use {
                self.enqueued(i)
            } else {
                self.free_list().contains(i)
            }
        &&& hole != NULL_IDX ==> {
            &&& hole < self.slots@.len()
            &&& self.slots@[hole as int].in_use
            &&& !self.enqueued(hole)
        }
    }

    /// The index by ID has an entry for every resting order but that of `hole`, and no other.
    pub open spec fn indexed(self, hole: u32) -> bool {
        &&& self.orders_map.wf()
        &&& self.orders_map.capacity == table_size(self.slots@.len())
        &&& forall|id: u64| #[trigger]
            self.orders_map@.contains_key(id) ==> {
                let i = self.orders_map@[id];
                &&& i < self.slots@.len()
                &&& i != hole
                &&& self.slots@[i as int].in_use
                &&& self.slots@[i as int].order.order_id == id
            }
        &&& forall|i: u32|
            #![trigger self.slots@[i as int]]
            i < self.slots@.len() && i != hole && self.slots@[i as int].in_use ==> {
                let id = self.slots@[i as int].order.order_id;
                self.orders_map@.contains_key(id) && self.orders_map@[id] == i
            }
    }

    /// Every resting order but that of `hole` has a price and an open quantity.
    pub open spec fn all_live(self, hole: u32) -> bool {
        forall|i: u32|
            #![trigger self.slots@[i as int]]
            i < self.slots@.len() && i != hole && self.slots@[i as int].in_use ==> {
                let order = self.slots@[i as int].order;
                order.price > 0 && order.quantity > 0
            }
    }

    /// The book is well formed.
    pub open spec fn wf(self) -> bool {
        self.threaded(NULL_IDX) && self.indexed(NULL_IDX) && self.all_live(NULL_IDX)
    }

    /// The book differs from `before` outside the list `list` only.
    pub open spec fn same_on(self, before: OrderBook, list: Seq<u32>) -> bool {
        &&& self.slots@.len() == before.slots@.len()
        &&& forall|i: int|
            0 <= i < list.len() ==> self.slots@[#[trigger] list[i] as int]
                == before.slots@[list[i] as int]
    }

    /// The arena has the padding that it had in `before`.
    pub open spec fn same_padding(self, before: OrderBook) -> bool {
        &&& self.slots@.len() == before.slots@.len()
        &&& forall|i: int|
            0 <= i < self.slots@.len() ==> (#[trigger] self.slots@[i])._padding
                == before.slots@[i]._padding
    }

    /// A queue whose slots and level do not change stays the same queue.
    proof fn lemma_queue_kept(self, before: OrderBook, side: Side, price: u64)
        requires
            before.slots@.len() <= NULL_IDX,
            before.queued(side),
            before.levels(side).contains_key(price),
            self.levels(side).contains_key(price),
            self.levels(side)[price] == before.levels(side)[price],
            self.same_on(before, before.queue_list(side, price)),
        ensures
            is_queue(
                self.slots@,
                side,
                price,
                self.levels(side)[price],
                self.queue_list(side, price),
            ),
            self.queue_list(side, price) == before.queue_list(side, price),
            resting(self.slots@, self.queue_list(side, price)) == resting(
                before.slots@,
                before.queue_list(side, price),
            ),
    {
        let list = before.queue_list(side, price);
        assert(resting(self.slots@, list) =~= resting(before.slots@, list));
        assert forall|i: int| 0 <= i < list.len() implies #[trigger] linked(self.slots@, list, i)
            && linked_back(self.slots@, list, i) by {
            assert(linked(before.slots@, list, i));
            assert(linked_back(before.slots@, list, i));
        }
        assert forall|i: int| 0 <= i < list.len() implies #[trigger] linked_back(
            self.slots@,
            list,
            i,
        ) by {
            assert(linked(self.slots@, list, i));
        }
        lemma_chain(self.slots@, self.levels(side)[price].head_idx, list);
    }

    /// A free list whose slots do not change stays the same list.
    proof fn lemma_free_kept(self, before: OrderBook)
        requires
            before.slots@.len() <= NULL_IDX,
            threads(before.slots@, before.free_head, before.free_list()),
            self.free_head == before.free_head,
            self.same_on(before, before.free_list()),
        ensures
            threads(self.slots@, self.free_head, self.free_list()),
            self.free_list() == before.free_list(),
    {
        let list = before.free_list();
        assert forall|i: int| 0 <= i < list.len() implies #[trigger] linked(
            self.slots@,
            list,
            i,
        ) by {
            assert(linked(before.slots@, list, i));
        }
        lemma_chain(self.slots@, self.free_head, list);
    }

    /// The orders of one queue were linked anew.
    ///
    /// `list` is the queue at `side` and `price` now, `old_hole` and `new_hole` are the slots that
    /// were and are in no queue. Nothing but that queue and its level changed.
    proof fn lemma_relinked(
        self,
        before: OrderBook,
        old_hole: u32,
        new_hole: u32,
        side: Side,
        price: u64,
        list: Seq<u32>,
    )
        requires
            before.threaded(old_hole),
            self.slots@.len() == before.slots@.len(),
            self.free_head == before.free_head,
            self.levels(side.other()) == before.levels(side.other()),
            list.len() == 0 ==> self.levels(side) == before.levels(side).remove(price),
            list.len() > 0 ==> {
                &&& self.levels(side) == before.levels(side).insert(
                    price,
                    self.levels(side)[price],
                )
                &&& is_queue(self.slots@, side, price, self.levels(side)[price], list)
            },
            forall|i: u32|
                #![trigger self.slots@[i as int]]
                i < self.slots@.len() ==> {
                    let then = before.slots@[i as int];
                    let now = self.slots@[i as int];
                    &&& now.in_use == then.in_use
                    &&& now == then || {
                        &&& then.in_use
                        &&& then.order.side == side && then.order.price == price
                        &&& now.order.side == side && now.order.price == price
                    }
                    &&& now.in_use && now.order.side == side && now.order.price == price ==> i
                        == new_hole || list.contains(i)
                },
            old_hole != NULL_IDX ==> {
                let order = before.slots@[old_hole as int].order;
                order.side == side && order.price == price
            },
            new_hole != NULL_IDX ==> {
                &&& new_hole < self.slots@.len()
                &&& self.slots@[new_hole as int].in_use
                &&& self.slots@[new_hole as int].order.side == side
                &&& self.slots@[new_hole as int].order.price == price
                &&& !list.contains(new_hole)
            },
        ensures
            self.threaded(new_hole),
            self@ == before@.with_queue(side, price, resting(self.slots@, list)),
    {
        if list.len() > 0 {
            lemma_chain(self.slots@, self.levels(side)[price].head_idx, list);
        }
        assert forall|s: Side, p: u64|
            self.levels(s).contains_key(p) && !(s == side && p == price) implies {
            &&& before.levels(s).contains_key(p)
            &&& #[trigger] is_queue(
                self.slots@,
                s,
                p,
                self.levels(s)[p],
                self.queue_list(s, p),
            )
            &&& self.queue_list(s, p) == before.queue_list(s, p)
            &&& resting(self.slots@, self.queue_list(s, p)) == resting(
                before.slots@,
                before.queue_list(s, p),
            )
        } by {
            assert(s == side || s == side.other());
            assert(before.levels(s).contains_key(p));
            assert(self.levels(s)[p] == before.levels(s)[p]);
            let other = before.queue_list(s, p);
            assert(before.queued(s));
            assert forall|i: int| 0 <= i < other.len() implies self.slots@[#[trigger] other[i] as int]
                == before.slots@[other[i] as int] by {
                assert(before.slots@[other[i] as int].order.side == s);
            }
            self.lemma_queue_kept(before, s, p);
        }
        assert forall|s: Side| #[trigger] self.queued(s) by {
            assert forall|p: u64| #[trigger] self.levels(s).contains_key(p) implies is_queue(
                self.slots@,
                s,
                p,
                self.levels(s)[p],
                self.queue_list(s, p),
            ) by {}
        }
        let free = before.free_list();
        assert forall|i: int| 0 <= i < free.len() implies self.slots@[#[trigger] free[i] as int]
            == before.slots@[free[i] as int] by {}
        self.lemma_free_kept(before);
        assert forall|i: u32|
            #![trigger self.slots@[i as int]]
            i < self.slots@.len() && i != new_hole implies if self.slots@[i as int].in_use {
            self.enqueued(i)
        } else {
            self.free_list().contains(i)
        } by {
            let then = before.slots@[i as int];
            let order = self.slots@[i as int].order;
            if then.in_use && !(order.side == side && order.price == price) {
                assert(before.enqueued(i));
                assert(self.levels(order.side).contains_key(order.price));
                assert(is_queue(
                    self.slots@,
                    order.side,
                    order.price,
                    self.levels(order.side)[order.price],
                    self.queue_list(order.side, order.price),
                ));
            }
        }
        assert(self@ =~= before@.with_queue(side, price, resting(self.slots@, list))) by {
            let after = before@.with_queue(side, price, resting(self.slots@, list));
            assert forall|s: Side| #[trigger] self@.levels(s) =~= after.levels(s) by {
                assert forall|p: u64| #[trigger]
                    self.levels(s).contains_key(p) implies self@.levels(s)[p] == after.levels(
                    s,
                )[p] by {
                    if !(s == side && p == price) {
                        assert(is_queue(
                            self.slots@,
                            s,
                            p,
                            self.levels(s)[p],
                            self.queue_list(s, p),
                        ));
                    }
                }
            }
            assert(self@.levels(Side::Buy) =~= after.levels(Side::Buy));
            assert(self@.levels(Side::Sell) =~= after.levels(Side::Sell));
        }
    }

    /// Returns the level at a price.
    fn level(&self, side: Side, price: u64) -> (level: Option<PriceLevel>)
        ensures
            match level {
                Some(level) => self.levels(side).contains_key(price) && self.levels(side)[price]
                    == level,
                None => !self.levels(side).contains_key(price),
            },
    {
        let entry = match side {
            Side::Buy => self.bids.get(&price),
            Side::Sell => self.asks.get(&price),
        };
        match entry {
            Some(level) => Some(*level),
            None => None,
        }
    }

    /// Writes the level at a price.
    fn set_level(&mut self, side: Side, price: u64, level: PriceLevel)
        ensures
            final(self).levels(side) == old(self).levels(side).insert(price, level),
            final(self).levels(side.other()) == old(self).levels(side.other()),
            final(self).slots == old(self).slots,
            final(self).free_head == old(self).free_head,
            final(self).orders_map == old(self).orders_map,
    {
        match side {
            Side::Buy => self.bids.insert(price, level),
            Side::Sell => self.asks.insert(price, level),
        };
    }

    /// Removes the level at a price.
    fn drop_level(&mut self, side: Side, price: u64)
        ensures
            final(self).levels(side) == old(self).levels(side).remove(price),
            final(self).levels(side.other()) == old(self).levels(side.other()),
            final(self).slots == old(self).slots,
            final(self).free_head == old(self).free_head,
            final(self).orders_map == old(self).orders_map,
    {
        match side {
            Side::Buy => self.bids.remove(&price),
            Side::Sell => self.asks.remove(&price),
        };
    }

    /// Takes a slot out of the queue at its side and price. A level whose queue is empty goes.
    fn remove_slot_from_book(&mut self, slot_idx: u32, price: u64, side: Side)
        requires
            old(self).threaded(NULL_IDX),
            slot_idx < old(self).slots@.len(),
            old(self).slots@[slot_idx as int].in_use,
            old(self).slots@[slot_idx as int].order.side == side,
            old(self).slots@[slot_idx as int].order.price == price,
        ensures
            final(self).threaded(slot_idx),
            final(self)@ == old(self)@.with_queue(
                side,
                price,
                old(self)@.queue(side, price).remove(
                    old(self).queue_list(side, price).index_of(slot_idx),
                ),
            ),
            final(self).same_padding(*old(self)),
            forall|i: int|
                0 <= i < old(self).slots@.len() ==> {
                    &&& (#[trigger] final(self).slots@[i]).in_use == old(self).slots@[i].in_use
                    &&& final(self).slots@[i].order == old(self).slots@[i].order
                },
            final(self).orders_map == old(self).orders_map,
    {
        let ghost list = self.queue_list(side, price);
        let ghost k = list.index_of(slot_idx);
        proof {
            assert(self.enqueued(slot_idx));
            assert(self.queued(side));
            assert(list.contains(slot_idx));
            assert(0 <= k < list.len() && list[k] == slot_idx);
        }
        if let Some(found) = self.level(side, price) {
            let mut level = found;
            let slot = self.slots[slot_idx as usize];
            let prev: u32 = slot.prev_idx;
            let next: u32 = slot.next_idx;
            assert(linked(self.slots@, list, k));
            assert(linked_back(self.slots@, list, k));

            if prev != NULL_IDX {
                let mut neighbour = self.slots[prev as usize];
                neighbour.next_idx = next;
                self.slots.set(prev as usize, neighbour);
            } else {
                level.head_idx = next;
            }

            if next != NULL_IDX {
                let mut neighbour = self.slots[next as usize];
                neighbour.prev_idx = prev;
                self.slots.set(next as usize, neighbour);
            } else {
                level.tail_idx = prev;
            }

            let ghost rest = list.remove(k);
            proof {
                lemma_quantity_remove(resting(old(self).slots@, list), k);
            }
            level.total_quantity = level.total_quantity - slot.order.quantity;
            if level.head_idx == NULL_IDX {
                self.drop_level(side, price);
            } else {
                self.set_level(side, price, level);
            }
            proof {
                lemma_unlinked(
                    old(self).slots@,
                    self.slots@,
                    side,
                    price,
                    found,
                    level,
                    list,
                    k,
                );
                self.lemma_relinked(*old(self), NULL_IDX, slot_idx, side, price, rest);
            }
        }
    }

    /// No queue leads to a slot that is not enqueued: writing it keeps the queues.
    proof fn lemma_queues_kept(self, before: OrderBook, hole: u32, slot: u32)
        requires
            before.threaded(hole),
            slot < before.slots@.len(),
            slot == hole || !before.slots@[slot as int].in_use,
            self.bids == before.bids,
            self.asks == before.asks,
            self.slots@ == before.slots@.update(slot as int, self.slots@[slot as int]),
        ensures
            self.queued(Side::Buy),
            self.queued(Side::Sell),
            self@.bids == before@.bids,
            self@.asks == before@.asks,
            forall|side: Side, price: u64|
                before.levels(side).contains_key(price) ==> self.queue_list(side, price)
                    == #[trigger] before.queue_list(side, price) && !before.queue_list(
                    side,
                    price,
                ).contains(slot),
    {
        assert forall|side: Side, price: u64| before.levels(side).contains_key(price) implies {
            let list = before.queue_list(side, price);
            &&& self.queue_list(side, price) == #[trigger] before.queue_list(side, price)
            &&& !list.contains(slot)
            &&& is_queue(self.slots@, side, price, self.levels(side)[price], list)
            &&& resting(self.slots@, list) == resting(before.slots@, list)
        } by {
            let list = before.queue_list(side, price);
            assert(before.queued(side));
            if list.contains(slot) {
                let i = choose|i: int| 0 <= i < list.len() && list[i] == slot;
                assert(before.slots@[list[i] as int].in_use);
                assert(before.enqueued(slot));
            }
            self.lemma_queue_kept(before, side, price);
        }
        assert forall|side: Side| #[trigger] self.queued(side) by {
            assert forall|price: u64| #[trigger]
                self.levels(side).contains_key(price) implies is_queue(
                self.slots@,
                side,
                price,
                self.levels(side)[price],
                self.queue_list(side, price),
            ) by {
                assert(before.levels(side).contains_key(price));
                let list = before.queue_list(side, price);
            }
        }
        assert forall|price: u64| self.bids@.contains_key(price) implies #[trigger]
            self@.bids[price] == before@.bids[price] by {
            let list = before.queue_list(Side::Buy, price);
        }
        assert forall|price: u64| self.asks@.contains_key(price) implies #[trigger]
            self@.asks[price] == before@.asks[price] by {
            let list = before.queue_list(Side::Sell, price);
        }
        assert(self@.bids =~= before@.bids);
        assert(self@.asks =~= before@.asks);
    }

    /// Puts a slot that is in no queue at the front of the free list.
    fn free_slot(&mut self, slot_idx: u32)
        requires
            old(self).threaded(slot_idx),
            slot_idx != NULL_IDX,
        ensures
            final(self).threaded(NULL_IDX),
            final(self)@ == old(self)@.with_free(seq![slot_idx] + old(self)@.free),
            final(self).slots@ == old(self).slots@.update(
                slot_idx as int,
                final(self).slots@[slot_idx as int],
            ),
            is_blank(final(self).slots@[slot_idx as int]),
            final(self).same_padding(*old(self)),
            final(self).orders_map == old(self).orders_map,
    {
        let mut slot = self.slots[slot_idx as usize];
        slot.in_use = false;
        slot.order = Order::new(0, 0, 0, 0, Side::Buy);
        slot.prev_idx = NULL_IDX;
        slot.next_idx = self.free_head;
        self.slots.set(slot_idx as usize, slot);
        self.free_head = slot_idx;
        proof {
            let free = old(self).free_list();
            let longer = seq![slot_idx] + free;
            self.lemma_queues_kept(*old(self), slot_idx, slot_idx);
            assert(!free.contains(slot_idx));
            assert forall|i: int| 0 <= i < longer.len() implies #[trigger] linked(
                self.slots@,
                longer,
                i,
            ) by {
                if i > 0 {
                    assert(linked(old(self).slots@, free, i - 1));
                    assert(free[i - 1] != slot_idx);
                }
            }
            assert(threads(self.slots@, self.free_head, longer));
            lemma_chain(self.slots@, self.free_head, longer);
            assert forall|i: int| 0 <= i < longer.len() implies is_blank(
                self.slots@[#[trigger] longer[i] as int],
            ) by {
                if i > 0 {
                    assert(longer[i] == free[i - 1]);
                    assert(free[i - 1] != slot_idx);
                }
            }
            assert forall|i: u32|
                #![trigger self.slots@[i as int]]
                i < self.slots@.len() implies if self.slots@[i as int].in_use {
                self.enqueued(i)
            } else {
                self.free_list().contains(i)
            } by {
                if i == slot_idx {
                    assert(longer[0] == i);
                } else if self.slots@[i as int].in_use {
                    assert(old(self).slots@[i as int].in_use);
                    assert(old(self).enqueued(i));
                    let order = self.slots@[i as int].order;
                    let list = old(self).queue_list(order.side, order.price);
                } else {
                    assert(!old(self).slots@[i as int].in_use);
                    let j = choose|j: int| 0 <= j < free.len() && free[j] == i;
                    assert(longer[j + 1] == i);
                }
            }
        }
    }

    /// Takes the first free slot for `order`. The slot is in no queue yet.
    fn claim_slot(&mut self, order: Order) -> (slot_idx: u32)
        requires
            old(self).threaded(NULL_IDX),
            old(self).free_head != NULL_IDX,
        ensures
            old(self)@.free.len() > 0,
            slot_idx == old(self)@.free[0],
            slot_idx < old(self).slots@.len(),
            !old(self).slots@[slot_idx as int].in_use,
            final(self).threaded(slot_idx),
            final(self)@ == old(self)@.with_free(old(self)@.free.drop_first()),
            final(self).slots@ == old(self).slots@.update(
                slot_idx as int,
                OrderSlot {
                    order,
                    prev_idx: NULL_IDX,
                    next_idx: NULL_IDX,
                    in_use: true,
                    _padding: old(self).slots@[slot_idx as int]._padding,
                },
            ),
            final(self).bids == old(self).bids,
            final(self).asks == old(self).asks,
            final(self).orders_map == old(self).orders_map,
    {
        let slot_idx: u32 = self.free_head;
        let ghost free = self.free_list();
        assert(linked(self.slots@, free, 0));
        self.free_head = self.slots[slot_idx as usize].next_idx;
        let mut slot = self.slots[slot_idx as usize];
        slot.order = order;
        slot.prev_idx = NULL_IDX;
        slot.next_idx = NULL_IDX;
        slot.in_use = true;
        self.slots.set(slot_idx as usize, slot);
        proof {
            let rest = free.drop_first();
            self.lemma_queues_kept(*old(self), NULL_IDX, slot_idx);
            assert forall|i: int| 0 <= i < rest.len() implies #[trigger] linked(
                self.slots@,
                rest,
                i,
            ) by {
                assert(linked(old(self).slots@, free, i + 1));
                assert(free[i + 1] != free[0]);
            }
            assert(threads(self.slots@, self.free_head, rest));
            lemma_chain(self.slots@, self.free_head, rest);
            assert forall|i: int| 0 <= i < rest.len() implies is_blank(
                self.slots@[#[trigger] rest[i] as int],
            ) by {
                assert(rest[i] == free[i + 1]);
                assert(free[i + 1] != free[0]);
            }
            assert forall|i: u32|
                #![trigger self.slots@[i as int]]
                i < self.slots@.len() && i != slot_idx implies if self.slots@[i as int].in_use {
                self.enqueued(i)
            } else {
                self.free_list().contains(i)
            } by {
                if self.slots@[i as int].in_use {
                    assert(old(self).slots@[i as int].in_use);
                    assert(old(self).enqueued(i));
                    let order = self.slots@[i as int].order;
                    let list = old(self).queue_list(order.side, order.price);
                } else {
                    assert(!old(self).slots@[i as int].in_use);
                    let j = choose|j: int| 0 <= j < free.len() && free[j] == i;
                    assert(rest[j - 1] == i);
                }
            }
            if self.enqueued(slot_idx) {
                let list = old(self).queue_list(order.side, order.price);
            }
        }
        slot_idx
    }

    /// The queue of the view at a price holds the orders of the queue of slots.
    pub proof fn lemma_view_queue(self, side: Side, price: u64)
        ensures
            self@.levels(side).contains_key(price) == self.levels(side).contains_key(price),
            self.levels(side).contains_key(price) ==> self@.queue(side, price) == resting(
                self.slots@,
                self.queue_list(side, price),
            ),
    {
    }

    /// The index by ID knows where an order rests.
    pub proof fn lemma_located(self, order_id: u64)
        requires
            self.wf(),
        ensures
            self.orders_map@.contains_key(order_id) == self@.rests(order_id),
            self@.rests(order_id) ==> {
                let slot_idx = self.orders_map@[order_id];
                let order = self.slots@[slot_idx as int].order;
                let i = self.queue_list(order.side, order.price).index_of(slot_idx);
                &&& self.enqueued(slot_idx)
                &&& self@.holds(order_id, order.side, order.price, i)
                &&& self@.queue(order.side, order.price)[i] == (Resting { slot: slot_idx, order })
                &&& self@.locate(order_id) == (order.side, order.price, i)
            },
    {
        assert forall|side: Side, price: u64, i: int|
            self@.holds(order_id, side, price, i) implies {
            let slot_idx = self.queue_list(side, price)[i];
            let order = self.slots@[slot_idx as int].order;
            &&& self.orders_map@.contains_key(order_id)
            &&& self.orders_map@[order_id] == slot_idx
            &&& order.side == side
            &&& order.price == price
            &&& i == self.queue_list(side, price).index_of(slot_idx)
        } by {
            self.lemma_view_queue(side, price);
            assert(self.queued(side));
            assert(self.levels(side).contains_key(price));
            let list = self.queue_list(side, price);
            let slot = self.slots@[list[i] as int];
            assert(slot.in_use);
            assert(list.contains(list[i]));
        }
        if self.orders_map@.contains_key(order_id) {
            let slot_idx = self.orders_map@[order_id];
            let order = self.slots@[slot_idx as int].order;
            assert(self.enqueued(slot_idx));
            let list = self.queue_list(order.side, order.price);
            let i = list.index_of(slot_idx);
            assert(0 <= i < list.len() && list[i] == slot_idx);
            self.lemma_view_queue(order.side, order.price);
            assert(self@.holds(order_id, order.side, order.price, i));
            let (side, price, k) = self@.locate(order_id);
            assert(self@.holds(order_id, side, price, k));
        }
    }

    /// While a slot is free, the index by ID has room.
    proof fn lemma_index_has_room(self)
        requires
            self.indexed(NULL_IDX),
        ensures
            self.orders_map.has_room(),
    {
        lemma_table_size(self.slots@.len());
        self.orders_map.lemma_has_room(ids(self.slots@), self.slots@.len());
    }

    /// The threads of the arena do not depend on the index by ID.
    proof fn lemma_threads_only(self, before: OrderBook, hole: u32)
        requires
            before.threaded(hole),
            self.bids == before.bids,
            self.asks == before.asks,
            self.slots == before.slots,
            self.free_head == before.free_head,
        ensures
            self.threaded(hole),
            self@ == before@,
    {
        assert forall|i: u32| #[trigger] self.enqueued(i) == before.enqueued(i) by {}
        assert forall|side: Side| #[trigger] self.queued(side) == before.queued(side) by {
            assert(self.levels(side) == before.levels(side));
            assert forall|price: u64| self.queue_list(side, price) == #[trigger] before.queue_list(
                side,
                price,
            ) by {}
        }
    }

    /// Links a slot that is in no queue behind the queue at its side and price.
    fn append_slot(&mut self, slot_idx: u32, price: u64, side: Side)
        requires
            old(self).threaded(slot_idx),
            slot_idx != NULL_IDX,
            old(self).slots@[slot_idx as int].order.side == side,
            old(self).slots@[slot_idx as int].order.price == price,
            old(self).slots@[slot_idx as int].prev_idx == NULL_IDX,
            old(self).slots@[slot_idx as int].next_idx == NULL_IDX,
            quantity_of(old(self)@.queue(side, price))
                + old(self).slots@[slot_idx as int].order.quantity <= u64::MAX,
        ensures
            final(self).threaded(NULL_IDX),
            final(self)@ == old(self)@.with_queue(
                side,
                price,
                old(self)@.queue(side, price).push(
                    Resting { slot: slot_idx, order: old(self).slots@[slot_idx as int].order },
                ),
            ),
            final(self).same_padding(*old(self)),
            forall|i: int|
                0 <= i < old(self).slots@.len() ==> {
                    &&& (#[trigger] final(self).slots@[i]).in_use == old(self).slots@[i].in_use
                    &&& final(self).slots@[i].order == old(self).slots@[i].order
                },
            final(self).orders_map == old(self).orders_map,
    {
        let mut level = match self.level(side, price) {
            Some(level) => level,
            None => PriceLevel::new(price),
        };
        let ghost was = level;
        let ghost list = if self.levels(side).contains_key(price) {
            self.queue_list(side, price)
        } else {
            Seq::<u32>::empty()
        };
        proof {
            assert(self.queued(side));
            self.lemma_view_queue(side, price);
            assert(resting(self.slots@, Seq::<u32>::empty()) =~= Seq::<Resting>::empty());
            assert(self@.queue(side, price) == resting(self.slots@, list));
            assert(!list.contains(slot_idx));
        }
        let quantity: u64 = self.slots[slot_idx as usize].order.quantity;
        let tail_idx: u32 = level.tail_idx;
        if tail_idx == NULL_IDX {
            level.head_idx = slot_idx;
        } else {
            let mut tail = self.slots[tail_idx as usize];
            tail.next_idx = slot_idx;
            self.slots.set(tail_idx as usize, tail);
            let mut slot = self.slots[slot_idx as usize];
            slot.prev_idx = tail_idx;
            self.slots.set(slot_idx as usize, slot);
        }
        level.tail_idx = slot_idx;
        level.total_quantity = level.total_quantity + quantity;
        self.set_level(side, price, level);
        proof {
            lemma_appended(
                old(self).slots@,
                self.slots@,
                side,
                price,
                was,
                level,
                list,
                slot_idx,
            );
            self.lemma_relinked(*old(self), slot_idx, NULL_IDX, side, price, list.push(slot_idx));
        }
    }

    /// Returns the arena.
    pub fn slots(&self) -> (slots: &[OrderSlot])
        ensures
            slots@ == self.slots@,
    {
        self.slots.as_slice()
    }

    /// Returns the head of the list of free slots.
    pub fn free_head(&self) -> (free_head: u32)
        ensures
            free_head == self.free_head,
    {
        self.free_head
    }

    /// Writes the head of the list of free slots.
    pub(crate) fn set_free_head(&mut self, free_head: u32)
        ensures
            *final(self) == (OrderBook { free_head, ..*old(self) }),
    {
        self.free_head = free_head;
    }

    /// Creates an empty book for `capacity` orders.
    pub fn new(capacity: usize) -> (book: OrderBook)
        requires
            capacity <= NULL_IDX,
            table_size(capacity as nat) <= usize::MAX,
        ensures
            book.wf(),
            book.slots@.len() == capacity,
            book@.bids == Map::<u64, Seq<Resting>>::empty(),
            book@.asks == Map::<u64, Seq<Resting>>::empty(),
            book@.free == Seq::new(capacity as nat, |i: int| i as u32),
            forall|i: int| 0 <= i < capacity ==> zero_padded(#[trigger] book.slots@[i]),
    {
        let mut slots: Vec<OrderSlot> = Vec::with_capacity(capacity);
        let mut i: usize = 0;
        while i < capacity
            invariant
                i <= capacity,
                capacity <= NULL_IDX,
                slots@.len() == i,
                forall|j: int|
                    0 <= j < i ==> is_blank(#[trigger] slots@[j]) && slots@[j].next_idx == if j + 1
                        < capacity {
                        (j + 1) as u32
                    } else {
                        NULL_IDX
                    },
                forall|j: int| 0 <= j < i ==> zero_padded(#[trigger] slots@[j]),
            decreases capacity - i,
        {
            slots.push(
                OrderSlot {
                    order: Order::new(0, 0, 0, 0, Side::Buy),
                    prev_idx: NULL_IDX,
                    next_idx: if i + 1 < capacity {
                        (i + 1) as u32
                    } else {
                        NULL_IDX
                    },
                    in_use: false,
                    _padding: [0; 7],
                },
            );
            i = i + 1;
        }
        let book = OrderBook {
            bids: BTreeMap::new(),
            asks: BTreeMap::new(),
            slots,
            free_head: if capacity == 0 {
                NULL_IDX
            } else {
                0
            },
            orders_map: OrderMap::new(capacity),
        };
        proof {
            let free = Seq::new(capacity as nat, |i: int| i as u32);
            assert forall|i: int| 0 <= i < free.len() implies #[trigger] linked(
                book.slots@,
                free,
                i,
            ) by {}
            assert(threads(book.slots@, book.free_head, free));
            lemma_chain(book.slots@, book.free_head, free);
            assert forall|i: u32| i < book.slots@.len() implies #[trigger] free.contains(i) by {
                assert(free[i as int] == i);
            }
            lemma_table_size(capacity as nat);
            assert(book@.bids =~= Map::<u64, Seq<Resting>>::empty());
            assert(book@.asks =~= Map::<u64, Seq<Resting>>::empty());
        }
        book
    }

    /// Adds an order to the end of the queue at its price.
    ///
    /// # Errors
    /// Returns `EngineError::InvalidPrice` if the price is zero,
    /// `EngineError::InvalidQuantity` if the quantity is zero,
    /// `EngineError::BookCapacityExceeded` if no slot is free, and
    /// `EngineError::OrderAlreadyExists` if the order ID rests in the book already.
    pub fn add_order(
        &mut self,
        order_id: u64,
        price: u64,
        quantity: u64,
        client_id: u64,
        side: Side,
    ) -> (result: Result<(), EngineError>)
        requires
            old(self).wf(),
            ({
                let order = Order { order_id, price, quantity, client_id, side };
                old(self)@.refusal(order) is None ==> quantity_of(
                    old(self)@.queue(side, price),
                ) + quantity <= u64::MAX
            }),
        ensures
            final(self).wf(),
            final(self).same_padding(*old(self)),
            ({
                let order = Order { order_id, price, quantity, client_id, side };
                match old(self)@.refusal(order) {
                    Some(error) => result == Err::<(), EngineError>(error) && *final(self)
                        == *old(self),
                    None => result == Ok::<(), EngineError>(()) && final(self)@
                        == old(self)@.place(order),
                }
            }),
    {
        if price == 0 {
            return Err(EngineError::InvalidPrice);
        }
        if quantity == 0 {
            return Err(EngineError::InvalidQuantity);
        }
        let free_idx: u32 = self.free_head;
        if free_idx == NULL_IDX {
            return Err(EngineError::BookCapacityExceeded);
        }
        proof {
            self.lemma_index_has_room();
            self.lemma_located(order_id);
        }
        match self.orders_map.insert(order_id, free_idx) {
            Ok(_) => {},
            Err(error) => {
                return Err(error);
            },
        }
        proof {
            self.lemma_threads_only(*old(self), NULL_IDX);
        }
        let order = Order::new(order_id, price, quantity, client_id, side);
        self.claim_slot(order);
        self.append_slot(free_idx, price, side);
        proof {
            assert(self@ =~= old(self)@.place(order));
        }
        Ok(())
    }

    /// Takes the order of a slot out of the book and frees the slot.
    fn retire_slot(&mut self, slot_idx: u32)
        requires
            old(self).threaded(NULL_IDX),
            old(self).indexed(NULL_IDX),
            old(self).all_live(slot_idx),
            slot_idx < old(self).slots@.len(),
            old(self).slots@[slot_idx as int].in_use,
        ensures
            final(self).wf(),
            final(self).same_padding(*old(self)),
            ({
                let order = old(self).slots@[slot_idx as int].order;
                let list = old(self).queue_list(order.side, order.price);
                &&& list.contains(slot_idx)
                &&& final(self)@ == old(self)@.release(
                    order.side,
                    order.price,
                    list.index_of(slot_idx),
                )
            }),
    {
        let order = self.slots[slot_idx as usize].order;
        proof {
            assert(self.enqueued(slot_idx));
            self.lemma_view_queue(order.side, order.price);
            let list = self.queue_list(order.side, order.price);
            assert(list[list.index_of(slot_idx)] == slot_idx);
        }
        self.remove_slot_from_book(slot_idx, order.price, order.side());
        let ghost unlinked = *self;
        self.orders_map.remove(order.order_id);
        proof {
            self.lemma_threads_only(unlinked, slot_idx);
        }
        self.free_slot(slot_idx);
        proof {
            assert forall|i: u32|
                #![trigger self.slots@[i as int]]
                i < self.slots@.len() && self.slots@[i as int].in_use implies {
                let id = self.slots@[i as int].order.order_id;
                &&& i != slot_idx
                &&& self.orders_map@.contains_key(id)
                &&& self.orders_map@[id] == i
                &&& self.slots@[i as int].order.price > 0
                &&& self.slots@[i as int].order.quantity > 0
            } by {
                assert(unlinked.slots@[i as int].in_use);
                assert(old(self).slots@[i as int].in_use);
            }
            assert forall|id: u64| #[trigger] self.orders_map@.contains_key(id) implies {
                let i = self.orders_map@[id];
                &&& i < self.slots@.len()
                &&& i != NULL_IDX
                &&& self.slots@[i as int].in_use
                &&& self.slots@[i as int].order.order_id == id
            } by {
                assert(old(self).orders_map@.contains_key(id));
                let i = self.orders_map@[id];
                assert(i != slot_idx);
                assert(unlinked.slots@[i as int].in_use);
            }
        }
    }

    /// Cancels a resting order and returns it.
    ///
    /// # Errors
    /// Returns `EngineError::OrderNotFound` if the order is not in the book.
    pub fn cancel_order(&mut self, order_id: u64) -> (result: Result<Order, EngineError>)
        requires
            old(self).wf(),
        ensures
            final(self).wf(),
            final(self).same_padding(*old(self)),
            if old(self)@.rests(order_id) {
                &&& result == Ok::<Order, EngineError>(old(self)@.find(order_id))
                &&& final(self)@ == old(self)@.cancel(order_id)
            } else {
                &&& result == Err::<Order, EngineError>(EngineError::OrderNotFound)
                &&& *final(self) == *old(self)
            },
    {
        proof {
            self.lemma_located(order_id);
        }
        match self.orders_map.lookup(order_id) {
            Some(slot_idx) => {
                let order = self.slots[slot_idx as usize].order;
                self.retire_slot(slot_idx);
                Ok(order)
            },
            None => Err(EngineError::OrderNotFound),
        }
    }

    /// Takes `traded` from the first order of the queue at a price.
    fn reduce_first(&mut self, slot_idx: u32, price: u64, side: Side, traded: u64)
        requires
            old(self).wf(),
            old(self).levels(side).contains_key(price),
            slot_idx == old(self).levels(side)[price].head_idx,
            slot_idx != NULL_IDX,
            slot_idx < old(self).slots@.len(),
            traded <= old(self).slots@[slot_idx as int].order.quantity,
        ensures
            final(self).threaded(NULL_IDX),
            final(self).indexed(NULL_IDX),
            final(self).all_live(slot_idx),
            final(self)@ == old(self)@.reduce(side, price, traded),
            final(self).same_padding(*old(self)),
            final(self).slots@[slot_idx as int].in_use,
            final(self).slots@[slot_idx as int].next_idx
                == old(self).slots@[slot_idx as int].next_idx,
            ({
                let order = old(self).slots@[slot_idx as int].order;
                final(self).slots@[slot_idx as int].order == (Order {
                    quantity: (order.quantity - traded) as u64,
                    ..order
                })
            }),
            final(self).levels(side).contains_key(price),
            final(self).queue_list(side, price) == old(self).queue_list(side, price),
    {
        let ghost list = self.queue_list(side, price);
        proof {
            assert(self.queued(side));
            assert(list[0] == slot_idx);
            self.lemma_view_queue(side, price);
        }
        let mut slot = self.slots[slot_idx as usize];
        slot.order.quantity = slot.order.quantity - traded;
        self.slots.set(slot_idx as usize, slot);
        let ghost entry = Resting { slot: slot_idx, order: slot.order };
        proof {
            let queue = resting(old(self).slots@, list);
            lemma_quantity_update(queue, 0, entry);
            assert forall|i: int| 0 < i < list.len() implies list[i] != slot_idx by {
                assert(list[0] != list[i]);
            }
            assert(resting(self.slots@, list) =~= queue.update(0, entry));
        }
        if let Some(found) = self.level(side, price) {
            let mut level = found;
            proof {
                lemma_quantity_remove(resting(old(self).slots@, list), 0);
            }
            level.total_quantity = level.total_quantity - traded;
            self.set_level(side, price, level);
            proof {
                assert forall|i: int| 0 <= i < list.len() implies #[trigger] linked(
                    self.slots@,
                    list,
                    i,
                ) by {
                    assert(linked(old(self).slots@, list, i));
                }
                assert forall|i: int| 0 <= i < list.len() implies #[trigger] linked_back(
                    self.slots@,
                    list,
                    i,
                ) by {
                    assert(linked_back(old(self).slots@, list, i));
                }
                assert(is_queue(self.slots@, side, price, level, list));
                lemma_chain(self.slots@, level.head_idx, list);
                assert forall|i: u32|
                    #![trigger self.slots@[i as int]]
                    i < self.slots@.len() && self.slots@[i as int].in_use
                        && self.slots@[i as int].order.side == side
                        && self.slots@[i as int].order.price == price implies list.contains(i) by {
                    assert(old(self).slots@[i as int].in_use);
                    assert(old(self).enqueued(i));
                }
                self.lemma_relinked(*old(self), NULL_IDX, NULL_IDX, side, price, list);
                assert forall|i: u32|
                    #![trigger self.slots@[i as int]]
                    i < self.slots@.len() && self.slots@[i as int].in_use implies {
                    let id = self.slots@[i as int].order.order_id;
                    &&& old(self).slots@[i as int].in_use
                    &&& self.orders_map@.contains_key(id)
                    &&& self.orders_map@[id] == i
                } by {
                    assert(old(self).slots@[i as int].in_use);
                }
            }
        }
    }

    /// Returns the best price of one side.
    fn best_price(&self, side: Side) -> (price: Option<u64>)
        ensures
            price == self@.best(side),
    {
        let price = match side {
            Side::Buy => highest_price(&self.bids),
            Side::Sell => lowest_price(&self.asks),
        };
        proof {
            match price {
                Some(best) => {
                    assert forall|p: u64| #[trigger] self@.levels(side).contains_key(p) implies p
                        == best || better(side, best, p) by {
                        assert(self.levels(side).contains_key(p));
                    }
                    assert(self@.is_best(side, best));
                    self@.lemma_best(side, best);
                },
                None => {
                    self@.lemma_no_best(side);
                },
            }
        }
        price
    }

    /// Trades with the first order of the queue at a price, up to `wanted`, and returns the
    /// quantity. An order that is filled leaves the book.
    fn execute_first(&mut self, slot_idx: u32, price: u64, side: Side, wanted: u64) -> (traded: u64)
        requires
            old(self).wf(),
            old(self).levels(side).contains_key(price),
            slot_idx == old(self).levels(side)[price].head_idx,
        ensures
            final(self).wf(),
            final(self).same_padding(*old(self)),
            ({
                let first = old(self)@.queue(side, price)[0];
                &&& first.slot == slot_idx
                &&& first.order == old(self).slots@[slot_idx as int].order
                &&& traded == if wanted < first.order.quantity {
                    wanted
                } else {
                    first.order.quantity
                }
            }),
            final(self)@ == old(self)@.fill(side, price, traded),
            ({
                let next_idx = old(self).slots@[slot_idx as int].next_idx;
                traded < wanted && next_idx != NULL_IDX ==> {
                    &&& final(self).levels(side).dom() == old(self).levels(side).dom()
                    &&& final(self).levels(side)[price].head_idx == next_idx
                }
            }),
    {
        let ghost list = self.queue_list(side, price);
        proof {
            assert(self.queued(side));
            assert(list[0] == slot_idx);
            self.lemma_view_queue(side, price);
            assert(linked(self.slots@, list, 0));
        }
        let quantity: u64 = self.slots[slot_idx as usize].order.quantity;
        let traded: u64 = if wanted < quantity {
            wanted
        } else {
            quantity
        };
        self.reduce_first(slot_idx, price, side, traded);
        let ghost reduced = *self;
        if self.slots[slot_idx as usize].order.quantity == 0 {
            self.retire_slot(slot_idx);
            proof {
                reduced.lemma_view_queue(side, price);
                self.lemma_view_queue(side, price);
                assert(list.index_of(slot_idx) == 0);
                let queue = old(self)@.queue(side, price);
                assert(reduced@.queue(side, price).remove(0) =~= queue.remove(0));
                assert(self@ =~= old(self)@.release(side, price, 0));
                if list.len() > 1 {
                    assert(self@.queue(side, price)[0] == queue[1]);
                    assert(self@.levels(side).contains_key(price));
                    assert(self.queued(side));
                    assert(self.queue_list(side, price)[0] == list[1]);
                    assert forall|p: u64| self.levels(side).contains_key(p) == old(self).levels(
                        side,
                    ).contains_key(p) by {
                        assert(self@.levels(side).contains_key(p) == old(self)@.levels(
                            side,
                        ).contains_key(p));
                    }
                    assert(self.levels(side).dom() =~= old(self).levels(side).dom());
                }
            }
        }
        traded
    }

    /// Matches an incoming order against the orders of the other side.
    ///
    /// The incoming order trades with the first order at the best price of the other side for as
    /// long as that price crosses its limit, a quantity is open and `trades` has room. Each
    /// execution is written to `trades` under the next trade identifier, and the number of
    /// executions is returned.
    pub fn match_order(
        &mut self,
        incoming: &mut Order,
        trades: &mut [Trade],
        sequence_id: u64,
        trade_id_counter: &mut u64,
    ) -> (trade_count: usize)
        requires
            old(self).wf(),
            *old(trade_id_counter) + old(self)@.sweep(
                old(incoming).side,
                old(incoming).price,
                old(incoming).quantity,
                old(trades)@.len(),
            ).fills.len() <= u64::MAX,
        ensures
            final(self).wf(),
            final(self).same_padding(*old(self)),
            ({
                let taker = *old(incoming);
                let outcome = old(self)@.sweep(
                    taker.side,
                    taker.price,
                    taker.quantity,
                    old(trades)@.len(),
                );
                &&& final(self)@ == outcome.book
                &&& *final(incoming) == (Order { quantity: outcome.left, ..taker })
                &&& trade_count == outcome.fills.len()
                &&& *final(trade_id_counter) == *old(trade_id_counter) + outcome.fills.len()
                &&& final(trades)@.len() == old(trades)@.len()
                &&& forall|i: int|
                    0 <= i < old(trades)@.len() ==> #[trigger] final(trades)@[i] == if i
                        < outcome.fills.len() {
                        trade_record(
                            outcome.fills[i],
                            (*old(trade_id_counter) + i + 1) as u64,
                            sequence_id,
                            taker,
                        )
                    } else {
                        old(trades)@[i]
                    }
                &&& forall|i: int|
                    0 <= i < trade_count ==> {
                        let maker = outcome.fills[i].maker.order;
                        &&& (#[trigger] final(trades)@[i]).price == maker.price
                        &&& final(trades)@[i].maker_id == maker.order_id
                        &&& final(trades)@[i].taker_id == taker.order_id
                        &&& final(trades)@[i].quantity == outcome.fills[i].quantity
                        &&& final(trades)@[i].side == taker.side
                        &&& final(trades)@[i].trade_id == *old(trade_id_counter) + i + 1
                        &&& final(trades)@[i].sequence_id == sequence_id
                    }
            }),
    {
        let mut trade_count: usize = 0;
        let max_trades: usize = trades.len();
        let side = incoming.side();
        let maker_side = side.opposite();
        let price: u64 = incoming.price;
        let ghost taker = *incoming;
        let ghost outcome = self@.sweep(side, price, taker.quantity, max_trades as nat);
        let ghost mut done = Seq::<Fill>::empty();
        assert(done + outcome.fills =~= outcome.fills);

        while incoming.quantity > 0 && trade_count < max_trades
            invariant
                self.wf(),
                self.same_padding(*old(self)),
                max_trades == trades@.len(),
                trades@.len() == old(trades)@.len(),
                taker == *old(incoming),
                side == taker.side,
                price == taker.price,
                maker_side == side.other(),
                *incoming == (Order { quantity: incoming.quantity, ..taker }),
                trade_count <= max_trades,
                outcome == old(self)@.sweep(side, price, taker.quantity, max_trades as nat),
                *old(trade_id_counter) + outcome.fills.len() <= u64::MAX,
                *trade_id_counter == *old(trade_id_counter) + trade_count,
                done.len() == trade_count,
                ({
                    let rest = self@.sweep(
                        side,
                        price,
                        incoming.quantity,
                        (max_trades - trade_count) as nat,
                    );
                    &&& outcome.book == rest.book
                    &&& outcome.left == rest.left
                    &&& outcome.fills == done + rest.fills
                }),
                forall|i: int|
                    0 <= i < trades@.len() ==> #[trigger] trades@[i] == if i < trade_count {
                        trade_record(
                            done[i],
                            (*old(trade_id_counter) + i + 1) as u64,
                            sequence_id,
                            taker,
                        )
                    } else {
                        old(trades)@[i]
                    },
            ensures
                ({
                    let rest = self@.sweep(
                        side,
                        price,
                        incoming.quantity,
                        (max_trades - trade_count) as nat,
                    );
                    rest.fills.len() == 0 && rest.book == self@ && rest.left == incoming.quantity
                }),
            decreases max_trades - trade_count,
        {
            let target: u64 = match self.best_price(maker_side) {
                Some(best) => {
                    let crossing = match side {
                        Side::Buy => price >= best,
                        Side::Sell => price <= best,
                    };
                    if !crossing {
                        break;
                    }
                    best
                },
                None => {
                    break;
                },
            };
            let mut current_idx: u32 = match self.level(maker_side, target) {
                Some(level) => level.head_idx,
                None => NULL_IDX,
            };
            let ghost start = trade_count;
            proof {
                assert(self@.is_best(maker_side, target)) by {
                    let p = choose|p: u64| self@.is_best(maker_side, p);
                }
                assert(self.levels(maker_side).contains_key(target));
                assert(self.queued(maker_side));
            }
            while current_idx != NULL_IDX && incoming.quantity > 0 && trade_count < max_trades
                invariant
                    self.wf(),
                    self.same_padding(*old(self)),
                    max_trades == trades@.len(),
                    trades@.len() == old(trades)@.len(),
                    taker == *old(incoming),
                    side == taker.side,
                    price == taker.price,
                    maker_side == side.other(),
                    *incoming == (Order { quantity: incoming.quantity, ..taker }),
                    start <= trade_count <= max_trades,
                    start == trade_count ==> current_idx != NULL_IDX && incoming.quantity > 0
                        && trade_count < max_trades,
                    outcome == old(self)@.sweep(side, price, taker.quantity, max_trades as nat),
                    *old(trade_id_counter) + outcome.fills.len() <= u64::MAX,
                    *trade_id_counter == *old(trade_id_counter) + trade_count,
                    done.len() == trade_count,
                    crosses(side, price, target),
                    incoming.quantity > 0 && current_idx != NULL_IDX ==> {
                        &&& self@.is_best(maker_side, target)
                        &&& self.levels(maker_side).contains_key(target)
                        &&& self.levels(maker_side)[target].head_idx == current_idx
                    },
                    ({
                        let rest = self@.sweep(
                            side,
                            price,
                            incoming.quantity,
                            (max_trades - trade_count) as nat,
                        );
                        &&& outcome.book == rest.book
                        &&& outcome.left == rest.left
                        &&& outcome.fills == done + rest.fills
                    }),
                    forall|i: int|
                        0 <= i < trades@.len() ==> #[trigger] trades@[i] == if i < trade_count {
                            trade_record(
                                done[i],
                                (*old(trade_id_counter) + i + 1) as u64,
                                sequence_id,
                                taker,
                            )
                        } else {
                            old(trades)@[i]
                        },
                decreases max_trades - trade_count,
            {
                let ghost before = *self;
                let ghost left = incoming.quantity;
                proof {
                    assert(self.queued(maker_side));
                    self.lemma_view_queue(maker_side, target);
                    self@.lemma_best(maker_side, target);
                }
                let maker_order_id: u64 = self.slots[current_idx as usize].order.order_id;
                let next_idx: u32 = self.slots[current_idx as usize].next_idx;
                let ghost fill = self@.first_fill(side, left);
                let ghost rest = self@.fill(maker_side, target, fill.quantity).sweep(
                    side,
                    price,
                    (left - fill.quantity) as u64,
                    (max_trades - trade_count - 1) as nat,
                );
                proof {
                    assert(outcome.fills == done + (seq![fill] + rest.fills));
                    assert(outcome.fills =~= done.push(fill) + rest.fills);
                }
                let matched_qty: u64 = self.execute_first(
                    current_idx,
                    target,
                    maker_side,
                    incoming.quantity,
                );
                incoming.quantity = incoming.quantity - matched_qty;
                *trade_id_counter = *trade_id_counter + 1;
                trades[trade_count] = Trade::new(
                    *trade_id_counter,
                    sequence_id,
                    maker_order_id,
                    incoming.order_id,
                    target,
                    matched_qty,
                    side,
                );
                proof {
                    done = done.push(fill);
                }
                trade_count = trade_count + 1;
                proof {
                    if incoming.quantity > 0 && next_idx != NULL_IDX {
                        assert forall|p: u64| #[trigger]
                            self@.levels(maker_side).contains_key(p) implies p == target
                            || better(maker_side, target, p) by {
                            assert(self.levels(maker_side).dom().contains(p));
                            assert(before.levels(maker_side).dom().contains(p));
                            assert(before@.levels(maker_side).contains_key(p));
                        }
                        assert(before.levels(maker_side).dom().contains(target));
                    }
                }
                current_idx = next_idx;
            }
        }
        proof {
            assert(outcome.fills =~= done);
        }
        trade_count
    }
}

} // verus!
