//! What the book holds in total: the number of its orders and their quantity.

use crate::arena::OrderSlot;
use crate::book::OrderBook;
use crate::levels::{ascending, in_price_order, lists, PriceLevel};
use crate::model::Side;
use crate::sums::{lemma_sum_gap, lemma_sum_grows, lemma_sum_list, lemma_sum_ones};
use crate::sums::{lemma_sum_split, sum_below, sum_over};
use crate::view::price_range;
use vstd::prelude::*;
use vstd::std_specs::iter::IteratorSpec;

verus! {

/// One for every slot that is in use.
pub open spec fn used(slots: Seq<OrderSlot>) -> spec_fn(int) -> nat {
    |i: int|
        if slots[i].in_use {
            1nat
        } else {
            0nat
        }
}

/// One for every slot that is free.
pub open spec fn unused(slots: Seq<OrderSlot>) -> spec_fn(int) -> nat {
    |i: int|
        if slots[i].in_use {
            0nat
        } else {
            1nat
        }
}

/// One for every slot in use whose order stands on `side`, at a price below `bound`.
pub open spec fn used_below(slots: Seq<OrderSlot>, side: Side, bound: nat) -> spec_fn(int) -> nat {
    |i: int|
        if slots[i].in_use && slots[i].order.side == side && slots[i].order.price < bound {
            1nat
        } else {
            0nat
        }
}

/// One for every slot in use whose order stands on `side`, at `price`.
pub open spec fn used_at(slots: Seq<OrderSlot>, side: Side, price: u64) -> spec_fn(int) -> nat {
    |i: int|
        if slots[i].in_use && slots[i].order.side == side && slots[i].order.price == price {
            1nat
        } else {
            0nat
        }
}

/// The sum of ones over a list is its length.
proof fn lemma_list_ones(f: spec_fn(int) -> nat, list: Seq<u32>)
    requires
        forall|i: int| 0 <= i < list.len() ==> f(#[trigger] list[i] as int) == 1,
    ensures
        sum_over(f, list) == list.len(),
    decreases list.len(),
{
    if list.len() > 0 {
        let rest = list.drop_last();
        assert forall|i: int| 0 <= i < rest.len() implies f(#[trigger] rest[i] as int) == 1 by {
            assert(rest[i] == list[i]);
        }
        lemma_list_ones(f, rest);
        assert(list[list.len() - 1] == list.last());
    }
}

impl OrderBook {
    /// The slots at one price are those of its queue.
    proof fn lemma_count_at(self, side: Side, price: u64)
        requires
            self.wf(),
        ensures
            sum_below(used_at(self.slots@, side, price), self.slots@.len()) == self@.queue(
                side,
                price,
            ).len(),
    {
        let f = used_at(self.slots@, side, price);
        let list = if self.levels(side).contains_key(price) {
            self.queue_list(side, price)
        } else {
            Seq::<u32>::empty()
        };
        assert(self.queued(side));
        self.lemma_view_queue(side, price);
        assert forall|i: u32| i < self.slots@.len() && !#[trigger] list.contains(i) implies f(
            i as int,
        ) == 0 by {
            let slot = self.slots@[i as int];
            if slot.in_use && slot.order.side == side && slot.order.price == price {
                assert(self.enqueued(i));
            }
        }
        lemma_sum_list(f, list, self.slots@.len());
        assert forall|i: int| 0 <= i < list.len() implies f(#[trigger] list[i] as int) == 1 by {}
        lemma_list_ones(f, list);
    }

    /// The slots below a price are those of the queues below it.
    proof fn lemma_count_below(self, side: Side, bound: nat)
        requires
            self.wf(),
            bound <= price_range(),
        ensures
            sum_below(used_below(self.slots@, side, bound), self.slots@.len()) == sum_below(
                self@.count_at(side),
                bound,
            ),
        decreases bound,
    {
        let n = self.slots@.len();
        let f = used_below(self.slots@, side, bound);
        if bound == 0 {
            lemma_sum_gap(f, 0, n);
        } else {
            let price = (bound - 1) as u64;
            let g = used_below(self.slots@, side, (bound - 1) as nat);
            let h = used_at(self.slots@, side, price);
            lemma_sum_split(f, g, h, n);
            self.lemma_count_below(side, (bound - 1) as nat);
            self.lemma_count_at(side, price);
        }
    }

    /// The slots in use hold the orders of the queues, and the others are free.
    pub proof fn lemma_census(self)
        requires
            self.wf(),
        ensures
            sum_below(used(self.slots@), self.slots@.len()) == self@.count(),
            self@.count() + self@.free.len() == self.slots@.len(),
    {
        let n = self.slots@.len();
        let bids = used_below(self.slots@, Side::Buy, price_range());
        let asks = used_below(self.slots@, Side::Sell, price_range());
        assert forall|i: int| 0 <= i < n implies #[trigger] used(self.slots@)(i) == bids(i) + asks(
            i,
        ) by {
            assert(self.slots@[i].order.price < price_range());
        }
        lemma_sum_split(used(self.slots@), bids, asks, n);
        self.lemma_count_below(Side::Buy, price_range());
        self.lemma_count_below(Side::Sell, price_range());

        let all = |i: int| 1nat;
        lemma_sum_ones(all, n);
        lemma_sum_split(all, used(self.slots@), unused(self.slots@), n);
        let free = self.free_list();
        assert forall|i: u32| i < n && !#[trigger] free.contains(i) implies unused(self.slots@)(
            i as int,
        ) == 0 by {
            assert(self.slots@[i as int].in_use || free.contains(i));
        }
        lemma_sum_list(unused(self.slots@), free, n);
        assert forall|i: int| 0 <= i < free.len() implies unused(self.slots@)(
            #[trigger] free[i] as int,
        ) == 1 by {}
        lemma_list_ones(unused(self.slots@), free);
    }

    /// Returns the number of resting orders.
    pub fn len(&self) -> (count: usize)
        ensures
            count == sum_below(used(self.slots@), self.slots@.len()),
            self.wf() ==> count == self@.count(),
    {
        let mut count: usize = 0;
        let mut i: usize = 0;
        while i < self.slots.len()
            invariant
                i <= self.slots@.len(),
                count <= i,
                count == sum_below(used(self.slots@), i as nat),
            decreases self.slots@.len() - i,
        {
            if self.slots[i].in_use {
                count = count + 1;
            }
            i = i + 1;
        }
        proof {
            if self.wf() {
                self.lemma_census();
            }
        }
        count
    }

    /// Returns the quantity that rests on one side.
    fn side_quantity(&self, side: Side) -> (total: u64)
        requires
            self.wf(),
            self@.side_quantity(side) <= u64::MAX,
        ensures
            total == self@.side_quantity(side),
    {
        let levels = match side {
            Side::Buy => &self.bids,
            Side::Sell => &self.asks,
        };
        let ghost f = self@.quantity_at(side);
        let mut total: u64 = 0;
        let ghost mut bound: nat = 0;
        let iter = in_price_order(levels);
        for entry in it: iter
            invariant
                self.wf(),
                self@.side_quantity(side) <= u64::MAX,
                levels@ == self.levels(side),
                f == self@.quantity_at(side),
                it.seq() == iter.remaining(),
                ascending(it.seq()),
                lists(it.seq(), levels@),
                bound == if it.index() == 0 {
                    0
                } else {
                    (*it.seq()[it.index() - 1].0 + 1) as nat
                },
                total == sum_below(f, bound),
                bound <= price_range(),
        {
            proof {
                let price = *entry.0;
                self.lemma_gap(it.seq(), side, it.index(), bound, price as nat);
                lemma_sum_grows(f, (price + 1) as nat, price_range());
                assert(self.queued(side));
                assert(levels@.contains_key(price));
                self.lemma_view_queue(side, price);
                assert(f(price as int) == entry.1.total_quantity);
                bound = (price + 1) as nat;
            }
            total = total + entry.1.total_quantity;
        }
        proof {
            let seq = iter.remaining();
            self.lemma_gap(seq, side, seq.len() as int, bound, price_range());
        }
        total
    }

    /// Returns the quantity that rests in the book.
    pub fn get_total_quantity_resting(&self) -> (total: u64)
        requires
            self.wf(),
            self@.quantity() <= u64::MAX,
        ensures
            total == self@.quantity(),
    {
        let bids: u64 = self.side_quantity(Side::Buy);
        let asks: u64 = self.side_quantity(Side::Sell);
        bids + asks
    }

    /// Between two neighbours of the walk over a side no quantity rests.
    proof fn lemma_gap(
        self,
        entries: Seq<(&u64, &PriceLevel)>,
        side: Side,
        i: int,
        bound: nat,
        price: nat,
    )
        requires
            ascending(entries),
            lists(entries, self.levels(side)),
            0 <= i <= entries.len(),
            i > 0 ==> bound == *entries[i - 1].0 + 1,
            i == 0 ==> bound == 0,
            i < entries.len() ==> price == *entries[i].0,
            i == entries.len() ==> price == price_range(),
        ensures
            bound <= price,
            sum_below(self@.quantity_at(side), price) == sum_below(
                self@.quantity_at(side),
                bound,
            ),
    {
        let f = self@.quantity_at(side);
        assert(bound <= price);
        assert forall|p: int| bound <= p < price implies #[trigger] f(p) == 0 by {
            let key = p as u64;
            if self.levels(side).contains_key(key) {
                let j = choose|j: int| 0 <= j < entries.len() && *(#[trigger] entries[j]).0 == key;
                if i < entries.len() {
                    assert(*entries[i].0 == price);
                }
                if i > 0 {
                    assert(*entries[i - 1].0 + 1 == bound);
                }
            }
        }
        lemma_sum_gap(f, bound, price);
    }
}

} // verus!
