//! The mathematical model of the order book: queues of resting orders by side and price, and
//! the slots that are free.

use crate::arena::OrderSlot;
use crate::errors::EngineError;
use crate::model::{Order, Side};
use crate::sums::{lemma_sum_change, lemma_sum_same, sum_below};
use vstd::prelude::*;

verus! {

/// An order at rest, and the arena slot that holds it.
#[verifier::ext_equal]
pub struct Resting {
    pub slot: u32,
    pub order: Order,
}

/// The resting orders that a list of slots holds.
pub open spec fn resting(slots: Seq<OrderSlot>, list: Seq<u32>) -> Seq<Resting> {
    Seq::new(
        list.len(),
        |i: int| Resting { slot: list[i], order: slots[list[i] as int].order },
    )
}

/// The total quantity of a queue.
pub open spec fn quantity_of(queue: Seq<Resting>) -> nat
    decreases queue.len(),
{
    if queue.len() == 0 {
        0
    } else {
        quantity_of(queue.drop_last()) + queue.last().order.quantity as nat
    }
}

/// The quantity of two queues, one after the other, is the sum of their quantities.
pub proof fn lemma_quantity_concat(a: Seq<Resting>, b: Seq<Resting>)
    ensures
        quantity_of(a + b) == quantity_of(a) + quantity_of(b),
    decreases b.len(),
{
    if b.len() == 0 {
        assert(a + b =~= a);
    } else {
        assert((a + b).drop_last() =~= a + b.drop_last());
        lemma_quantity_concat(a, b.drop_last());
    }
}

/// The quantity of a queue of one order.
pub proof fn lemma_quantity_single(entry: Resting)
    ensures
        quantity_of(seq![entry]) == entry.order.quantity,
{
    assert(seq![entry].drop_last() =~= Seq::<Resting>::empty());
    assert(quantity_of(Seq::<Resting>::empty()) == 0);
}

/// A queue that is extended by an order gains its quantity.
pub proof fn lemma_quantity_push(queue: Seq<Resting>, entry: Resting)
    ensures
        quantity_of(queue.push(entry)) == quantity_of(queue) + entry.order.quantity,
{
    assert(queue.push(entry).drop_last() =~= queue);
}

/// A queue that loses an order loses its quantity.
pub proof fn lemma_quantity_remove(queue: Seq<Resting>, i: int)
    requires
        0 <= i < queue.len(),
    ensures
        quantity_of(queue.remove(i)) + queue[i].order.quantity == quantity_of(queue),
{
    let front = queue.take(i);
    let back = queue.skip(i + 1);
    assert(queue.remove(i) =~= front + back);
    assert(queue =~= front + seq![queue[i]] + back);
    lemma_quantity_concat(front, back);
    lemma_quantity_concat(front, seq![queue[i]]);
    lemma_quantity_concat(front + seq![queue[i]], back);
    lemma_quantity_single(queue[i]);
}

/// A queue whose order at place `i` is exchanged trades its quantity for the new one's.
pub proof fn lemma_quantity_update(queue: Seq<Resting>, i: int, entry: Resting)
    requires
        0 <= i < queue.len(),
    ensures
        quantity_of(queue.update(i, entry)) + queue[i].order.quantity == quantity_of(queue)
            + entry.order.quantity,
{
    let changed = queue.update(i, entry);
    assert(changed.remove(i) =~= queue.remove(i));
    lemma_quantity_remove(queue, i);
    lemma_quantity_remove(changed, i);
}

/// The number of prices that there are.
pub open spec fn price_range() -> nat {
    0x1_0000_0000_0000_0000
}

/// A taker of side `taker` with limit `limit` trades at `price`.
pub open spec fn crosses(taker: Side, limit: u64, price: u64) -> bool {
    match taker {
        Side::Buy => price <= limit,
        Side::Sell => price >= limit,
    }
}

/// Among resting orders of side `side`, price `a` trades before price `b`.
pub open spec fn better(side: Side, a: u64, b: u64) -> bool {
    match side {
        Side::Buy => a > b,
        Side::Sell => a < b,
    }
}

/// One execution: the maker as it rested before, and the quantity that it trades.
pub struct Fill {
    pub maker: Resting,
    pub quantity: u64,
}

/// What an incoming order leaves behind.
pub struct Sweep {
    /// The book after the executions.
    pub book: BookView,
    /// The quantity of the incoming order that is still open.
    pub left: u64,
    /// The executions, in order.
    pub fills: Seq<Fill>,
}

/// The state of an order book.
#[verifier::ext_equal]
pub struct BookView {
    /// The queue of buy orders at each price, first come first.
    pub bids: Map<u64, Seq<Resting>>,
    /// The queue of sell orders at each price, first come first.
    pub asks: Map<u64, Seq<Resting>>,
    /// The free slots, in the order in which they will be taken.
    pub free: Seq<u32>,
}

impl BookView {
    /// The queues of one side.
    pub open spec fn levels(self, side: Side) -> Map<u64, Seq<Resting>> {
        match side {
            Side::Buy => self.bids,
            Side::Sell => self.asks,
        }
    }

    /// The queue at a price, empty where no order rests.
    pub open spec fn queue(self, side: Side, price: u64) -> Seq<Resting> {
        if self.levels(side).contains_key(price) {
            self.levels(side)[price]
        } else {
            seq![]
        }
    }

    /// The book with another queue at a price. A price without orders has no level.
    pub open spec fn with_queue(self, side: Side, price: u64, queue: Seq<Resting>) -> BookView {
        let levels = if queue.len() == 0 {
            self.levels(side).remove(price)
        } else {
            self.levels(side).insert(price, queue)
        };
        match side {
            Side::Buy => BookView { bids: levels, ..self },
            Side::Sell => BookView { asks: levels, ..self },
        }
    }

    /// The book with another list of free slots.
    pub open spec fn with_free(self, free: Seq<u32>) -> BookView {
        BookView { free, ..self }
    }

    /// The quantity that rests at each price of one side.
    pub open spec fn quantity_at(self, side: Side) -> spec_fn(int) -> nat {
        |price: int| quantity_of(self.queue(side, price as u64))
    }

    /// The number of orders that rest at each price of one side.
    pub open spec fn count_at(self, side: Side) -> spec_fn(int) -> nat {
        |price: int| self.queue(side, price as u64).len()
    }

    /// The quantity that rests on one side.
    pub open spec fn side_quantity(self, side: Side) -> nat {
        sum_below(self.quantity_at(side), price_range())
    }

    /// The quantity that rests in the book.
    pub open spec fn quantity(self) -> nat {
        self.side_quantity(Side::Buy) + self.side_quantity(Side::Sell)
    }

    /// The number of orders that rest on one side.
    pub open spec fn side_count(self, side: Side) -> nat {
        sum_below(self.count_at(side), price_range())
    }

    /// The number of orders that rest in the book.
    pub open spec fn count(self) -> nat {
        self.side_count(Side::Buy) + self.side_count(Side::Sell)
    }

    /// Another queue at a price: the other queues stay, and the totals change with this one.
    pub proof fn lemma_with_queue(self, side: Side, price: u64, queue: Seq<Resting>)
        ensures
            forall|s: Side, p: u64| #[trigger]
                self.with_queue(side, price, queue).queue(s, p) == if s == side && p == price {
                    queue
                } else {
                    self.queue(s, p)
                },
            self.with_queue(side, price, queue).quantity() + quantity_of(self.queue(side, price))
                == self.quantity() + quantity_of(queue),
            self.with_queue(side, price, queue).count() + self.queue(side, price).len()
                == self.count() + queue.len(),
    {
        let after = self.with_queue(side, price, queue);
        assert forall|s: Side, p: u64| #[trigger] after.queue(s, p) == if s == side && p == price {
            queue
        } else {
            self.queue(s, p)
        } by {
            if queue.len() == 0 {
                assert(queue =~= Seq::<Resting>::empty());
            }
        }
        lemma_sum_change(
            after.quantity_at(side),
            self.quantity_at(side),
            price as int,
            price_range(),
        );
        lemma_sum_same(
            after.quantity_at(side.other()),
            self.quantity_at(side.other()),
            price_range(),
        );
        lemma_sum_change(
            after.count_at(side),
            self.count_at(side),
            price as int,
            price_range(),
        );
        lemma_sum_same(
            after.count_at(side.other()),
            self.count_at(side.other()),
            price_range(),
        );
    }

    /// The totals do not depend on the free slots.
    pub proof fn lemma_with_free(self, free: Seq<u32>)
        ensures
            forall|s: Side, p: u64| #[trigger]
                self.with_free(free).queue(s, p) == self.queue(s, p),
            self.with_free(free).quantity() == self.quantity(),
            self.with_free(free).count() == self.count(),
    {
        let after = self.with_free(free);
        assert forall|s: Side, p: u64| #[trigger] after.queue(s, p) == self.queue(s, p) by {}
        lemma_sum_same(
            after.quantity_at(Side::Buy),
            self.quantity_at(Side::Buy),
            price_range(),
        );
        lemma_sum_same(
            after.quantity_at(Side::Sell),
            self.quantity_at(Side::Sell),
            price_range(),
        );
        lemma_sum_same(after.count_at(Side::Buy), self.count_at(Side::Buy), price_range());
        lemma_sum_same(after.count_at(Side::Sell), self.count_at(Side::Sell), price_range());
    }

    /// Place `i` of the queue at `side` and `price` holds the order `order_id`.
    pub open spec fn holds(self, order_id: u64, side: Side, price: u64, i: int) -> bool {
        0 <= i < self.queue(side, price).len() && self.queue(side, price)[i].order.order_id
            == order_id
    }

    /// The order `order_id` rests in the book.
    pub open spec fn rests(self, order_id: u64) -> bool {
        exists|side: Side, price: u64, i: int| self.holds(order_id, side, price, i)
    }

    /// Where the order `order_id` rests.
    pub open spec fn locate(self, order_id: u64) -> (Side, u64, int) {
        choose|side: Side, price: u64, i: int| self.holds(order_id, side, price, i)
    }

    /// The order `order_id` as it rests.
    pub open spec fn find(self, order_id: u64) -> Order {
        let (side, price, i) = self.locate(order_id);
        self.queue(side, price)[i].order
    }

    /// Why the book refuses a new order, `None` where it takes it.
    pub open spec fn refusal(self, order: Order) -> Option<EngineError> {
        if order.price == 0 {
            Some(EngineError::InvalidPrice)
        } else if order.quantity == 0 {
            Some(EngineError::InvalidQuantity)
        } else if self.free.len() == 0 {
            Some(EngineError::BookCapacityExceeded)
        } else if self.rests(order.order_id) {
            Some(EngineError::OrderAlreadyExists)
        } else {
            None
        }
    }

    /// The book with a new order at the end of the queue at its price, in the first free slot.
    pub open spec fn place(self, order: Order) -> BookView {
        let entry = Resting { slot: self.free[0], order };
        self.with_queue(
            order.side,
            order.price,
            self.queue(order.side, order.price).push(entry),
        ).with_free(self.free.drop_first())
    }

    /// The book without the order at place `i` of a queue, whose slot is the next to be taken.
    pub open spec fn release(self, side: Side, price: u64, i: int) -> BookView {
        let queue = self.queue(side, price);
        self.with_queue(side, price, queue.remove(i)).with_free(
            seq![queue[i].slot] + self.free,
        )
    }

    /// The book without the order `order_id`.
    pub open spec fn cancel(self, order_id: u64) -> BookView {
        let (side, price, i) = self.locate(order_id);
        self.release(side, price, i)
    }

    /// The book with the first order of a queue reduced by `traded`.
    pub open spec fn reduce(self, side: Side, price: u64, traded: u64) -> BookView {
        let queue = self.queue(side, price);
        let first = queue[0];
        let order = Order { quantity: (first.order.quantity - traded) as u64, ..first.order };
        self.with_queue(side, price, queue.update(0, Resting { order, ..first }))
    }

    /// The book after the first order of a queue has traded `traded`. An order that is filled
    /// leaves.
    pub open spec fn fill(self, side: Side, price: u64, traded: u64) -> BookView {
        if traded == self.queue(side, price)[0].order.quantity {
            self.release(side, price, 0)
        } else {
            self.reduce(side, price, traded)
        }
    }

    /// Orders rest at `price`, and at no better price of the same side.
    pub open spec fn is_best(self, side: Side, price: u64) -> bool {
        &&& self.levels(side).contains_key(price)
        &&& forall|p: u64| #[trigger]
            self.levels(side).contains_key(p) ==> p == price || better(side, price, p)
    }

    /// The best price of a side.
    pub open spec fn best(self, side: Side) -> Option<u64> {
        if exists|price: u64| self.is_best(side, price) {
            Some(choose|price: u64| self.is_best(side, price))
        } else {
            None
        }
    }

    /// There is one best price at most.
    pub proof fn lemma_best(self, side: Side, price: u64)
        requires
            self.is_best(side, price),
        ensures
            self.best(side) == Some(price),
    {
        let chosen = choose|p: u64| self.is_best(side, p);
        assert(self.is_best(side, chosen));
        assert(self.levels(side).contains_key(price));
    }

    /// A side without orders has no best price.
    pub proof fn lemma_no_best(self, side: Side)
        requires
            forall|price: u64| !self.levels(side).contains_key(price),
        ensures
            self.best(side) is None,
    {
        assert forall|price: u64| !self.is_best(side, price) by {}
    }

    /// Some resting order trades with a taker of side `taker` and limit `limit`.
    pub open spec fn crossed(self, taker: Side, limit: u64) -> bool {
        match self.best(taker.other()) {
            Some(price) => crosses(taker, limit, price),
            None => false,
        }
    }

    /// The first execution of a taker: the order that came first at the best price of the other
    /// side, and as much of it as the taker wants.
    pub open spec fn first_fill(self, taker: Side, left: u64) -> Fill {
        let price = self.best(taker.other())->0;
        let maker = self.queue(taker.other(), price)[0];
        Fill {
            maker,
            quantity: if left < maker.order.quantity {
                left
            } else {
                maker.order.quantity
            },
        }
    }

    /// The executions of an incoming order of which `left` is open, at most `room` of them: it
    /// trades with the first order at the best price while that price crosses its limit.
    pub open spec fn sweep(self, taker: Side, limit: u64, left: u64, room: nat) -> Sweep
        decreases room,
    {
        if left == 0 || room == 0 || !self.crossed(taker, limit) {
            Sweep { book: self, left, fills: seq![] }
        } else {
            let fill = self.first_fill(taker, left);
            let price = self.best(taker.other())->0;
            let rest = self.fill(taker.other(), price, fill.quantity).sweep(
                taker,
                limit,
                (left - fill.quantity) as u64,
                (room - 1) as nat,
            );
            Sweep { fills: seq![fill] + rest.fills, ..rest }
        }
    }
}

} // verus!
