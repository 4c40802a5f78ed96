//! Laws of the book: what holds of every order, of every state and across operations.

use crate::book::OrderBook;
use crate::compliance::{conflict, is_wash};
use crate::errors::EngineError;
use crate::model::{Order, Side};
use crate::snapshot::{lemma_snapshot_round_trip, snapshot_bytes, snapshot_fault};
use crate::sums::lemma_sum_gap;
use crate::view::{better, crosses, price_range, BookView, Fill, Resting};
use crate::view::{lemma_quantity_push, lemma_quantity_remove, lemma_quantity_update};
use vstd::prelude::*;

verus! {

impl BookView {
    /// Every level has an order.
    pub open spec fn tidy(self) -> bool {
        forall|side: Side, price: u64| #[trigger]
            self.levels(side).contains_key(price) ==> self.levels(side)[price].len() > 0
    }

    /// Every order rests at its side and price, and has an open quantity.
    pub open spec fn live(self) -> bool {
        forall|side: Side, price: u64, i: int|
            0 <= i < self.queue(side, price).len() ==> {
                let order = (#[trigger] self.queue(side, price)[i]).order;
                order.side == side && order.price == price && price > 0 && order.quantity > 0
            }
    }

    /// No two orders have the same identifier.
    pub open spec fn distinct_ids(self) -> bool {
        forall|id: u64, s: Side, p: u64, i: int, t: Side, q: u64, j: int|
            #![trigger self.holds(id, s, p, i), self.holds(id, t, q, j)]
            self.holds(id, s, p, i) && self.holds(id, t, q, j) ==> s == t && p == q && i == j
    }

    /// Place `i` of the queue at `side` and `price` takes up `slot`.
    pub open spec fn takes_up(self, slot: u32, side: Side, price: u64, i: int) -> bool {
        0 <= i < self.queue(side, price).len() && self.queue(side, price)[i].slot == slot
    }

    /// No two orders share a slot, and the free slots are those of no order.
    pub open spec fn distinct_slots(self) -> bool {
        &&& forall|slot: u32, s: Side, p: u64, i: int, t: Side, q: u64, j: int|
            #![trigger self.takes_up(slot, s, p, i), self.takes_up(slot, t, q, j)]
            self.takes_up(slot, s, p, i) && self.takes_up(slot, t, q, j) ==> s == t && p == q
                && i == j
        &&& forall|slot: u32, s: Side, p: u64, i: int| #[trigger]
            self.takes_up(slot, s, p, i) ==> !self.free.contains(slot)
        &&& self.free.no_duplicates()
    }

    /// The state of a book: no level is empty, every order is open and rests at its side and
    /// price, and neither identifiers nor slots occur twice.
    pub open spec fn valid(self) -> bool {
        self.tidy() && self.live() && self.distinct_ids() && self.distinct_slots()
    }

    /// No resting buy order trades with a resting sell order.
    pub open spec fn uncrossed(self) -> bool {
        forall|bid: u64, ask: u64|
            #![trigger self.bids.contains_key(bid), self.asks.contains_key(ask)]
            self.bids.contains_key(bid) && self.asks.contains_key(ask) ==> bid < ask
    }
}

/// Every book is valid.
pub proof fn law_books_are_valid(book: OrderBook)
    requires
        book.wf(),
    ensures
        book@.valid(),
{
    let view = book@;
    assert forall|side: Side, price: u64, i: int|
        0 <= i < view.queue(side, price).len() implies {
        let list = book.queue_list(side, price);
        let entry = #[trigger] view.queue(side, price)[i];
        let slot = book.slots@[entry.slot as int];
        &&& book.levels(side).contains_key(price)
        &&& i < list.len() && entry.slot == list[i]
        &&& entry.slot < book.slots@.len()
        &&& slot.in_use && slot.order == entry.order
        &&& entry.order.side == side && entry.order.price == price
        &&& entry.order.price > 0 && entry.order.quantity > 0
        &&& list.no_duplicates()
    } by {
        book.lemma_view_queue(side, price);
        assert(book.queued(side));
    }
    assert forall|side: Side, price: u64| #[trigger]
        view.levels(side).contains_key(price) implies view.levels(side)[price].len() > 0 by {
        book.lemma_view_queue(side, price);
        assert(book.queued(side));
    }
    assert forall|id: u64, s: Side, p: u64, i: int, t: Side, q: u64, j: int|
        #![trigger view.holds(id, s, p, i), view.holds(id, t, q, j)]
        view.holds(id, s, p, i) && view.holds(id, t, q, j) implies s == t && p == q && i == j by {
        let a = view.queue(s, p)[i];
        let b = view.queue(t, q)[j];
        assert(a.slot == b.slot);
    }
    assert forall|slot: u32, s: Side, p: u64, i: int, t: Side, q: u64, j: int|
        #![trigger view.takes_up(slot, s, p, i), view.takes_up(slot, t, q, j)]
        view.takes_up(slot, s, p, i) && view.takes_up(slot, t, q, j) implies s == t && p == q && i
        == j by {
        let a = view.queue(s, p)[i];
        let b = view.queue(t, q)[j];
    }
    assert forall|slot: u32, s: Side, p: u64, i: int| #[trigger]
        view.takes_up(slot, s, p, i) implies !view.free.contains(slot) by {
        let a = view.queue(s, p)[i];
    }
}

/// Every slot of a book holds one of its orders or is free.
pub proof fn law_slots_are_accounted_for(book: OrderBook)
    requires
        book.wf(),
    ensures
        book@.count() + book@.free.len() == book.slots@.len(),
{
    book.lemma_census();
}

/// The quantity that executions trade.
pub open spec fn executed(fills: Seq<Fill>) -> nat
    decreases fills.len(),
{
    if fills.len() == 0 {
        0
    } else {
        fills[0].quantity as nat + executed(fills.drop_first())
    }
}

/// The best price that crosses a limit has a first order.
pub(crate) proof fn lemma_crossed(book: BookView, taker: Side, limit: u64)
    requires
        book.tidy(),
        book.crossed(taker, limit),
    ensures
        ({
            let price = book.best(taker.other())->0;
            &&& book.is_best(taker.other(), price)
            &&& crosses(taker, limit, price)
            &&& book.queue(taker.other(), price).len() > 0
        }),
{
    let side = taker.other();
    let price = choose|price: u64| book.is_best(side, price);
    assert(book.is_best(side, price));
    assert(book.levels(side).contains_key(price));
}

/// One execution takes its quantity from the first order of a queue, and leaves the other queues.
pub(crate) proof fn lemma_fill(book: BookView, side: Side, price: u64, traded: u64)
    requires
        book.tidy(),
        book.queue(side, price).len() > 0,
        traded <= book.queue(side, price)[0].order.quantity,
    ensures
        ({
            let queue = book.queue(side, price);
            let after = book.fill(side, price, traded);
            &&& after.tidy()
            &&& after.quantity() + traded == book.quantity()
            &&& forall|s: Side, p: u64|
                !(s == side && p == price) ==> #[trigger] after.queue(s, p) == book.queue(s, p)
            &&& traded == queue[0].order.quantity ==> {
                &&& after.queue(side, price) == queue.drop_first()
                &&& after.free == seq![queue[0].slot] + book.free
                &&& after.count() + 1 == book.count()
            }
            &&& traded < queue[0].order.quantity ==> {
                let order = Order {
                    quantity: (queue[0].order.quantity - traded) as u64,
                    ..queue[0].order
                };
                &&& after.queue(side, price) == queue.update(0, Resting { order, ..queue[0] })
                &&& after.free == book.free
                &&& after.count() == book.count()
            }
        }),
{
    let queue = book.queue(side, price);
    let first = queue[0];
    if traded == first.order.quantity {
        let rest = queue.remove(0);
        assert(rest =~= queue.drop_first());
        book.lemma_with_queue(side, price, rest);
        book.with_queue(side, price, rest).lemma_with_free(seq![first.slot] + book.free);
        lemma_quantity_remove(queue, 0);
    } else {
        let order = Order { quantity: (first.order.quantity - traded) as u64, ..first.order };
        let entry = Resting { order, ..first };
        book.lemma_with_queue(side, price, queue.update(0, entry));
        lemma_quantity_update(queue, 0, entry);
    }
}

/// The number of executions that fill their maker.
pub open spec fn filled_makers(fills: Seq<Fill>) -> nat
    decreases fills.len(),
{
    if fills.len() == 0 {
        0
    } else {
        filled_makers(fills.drop_first()) + if fills[0].quantity == fills[0].maker.order.quantity {
            1nat
        } else {
            0nat
        }
    }
}

/// Matching conserves quantity: what the executions trade leaves the book and the incoming order
/// alike. The makers that are filled, and no other orders, leave the book. There are no more
/// executions than there is room for.
pub proof fn law_matching_conserves(
    book: BookView,
    taker: Side,
    limit: u64,
    quantity: u64,
    room: nat,
)
    requires
        book.tidy(),
    ensures
        ({
            let outcome = book.sweep(taker, limit, quantity, room);
            &&& outcome.book.tidy()
            &&& outcome.book.quantity() + executed(outcome.fills) == book.quantity()
            &&& outcome.left + executed(outcome.fills) == quantity
            &&& outcome.book.count() + filled_makers(outcome.fills) == book.count()
            &&& outcome.fills.len() <= room
        }),
    decreases room,
{
    if quantity > 0 && room > 0 && book.crossed(taker, limit) {
        lemma_crossed(book, taker, limit);
        let fill = book.first_fill(taker, quantity);
        let price = book.best(taker.other())->0;
        lemma_fill(book, taker.other(), price, fill.quantity);
        let after = book.fill(taker.other(), price, fill.quantity);
        let left = (quantity - fill.quantity) as u64;
        law_matching_conserves(after, taker, limit, left, (room - 1) as nat);
        let rest = after.sweep(taker, limit, left, (room - 1) as nat);
        assert((seq![fill] + rest.fills).drop_first() =~= rest.fills);
    }
}

/// A new order adds its quantity, and one order, to the book.
pub proof fn law_placing_adds(book: BookView, order: Order)
    requires
        book.tidy(),
        book.refusal(order) is None,
    ensures
        book.place(order).tidy(),
        book.place(order).quantity() == book.quantity() + order.quantity,
        book.place(order).count() == book.count() + 1,
{
    let queue = book.queue(order.side, order.price);
    let entry = Resting { slot: book.free[0], order };
    book.lemma_with_queue(order.side, order.price, queue.push(entry));
    book.with_queue(order.side, order.price, queue.push(entry)).lemma_with_free(
        book.free.drop_first(),
    );
    lemma_quantity_push(queue, entry);
}

/// A cancellation takes the quantity of the order, and one order, out of the book.
pub proof fn law_cancelling_removes(book: BookView, order_id: u64)
    requires
        book.tidy(),
        book.rests(order_id),
    ensures
        book.cancel(order_id).tidy(),
        book.cancel(order_id).quantity() + book.find(order_id).quantity == book.quantity(),
        book.cancel(order_id).count() + 1 == book.count(),
{
    let (side, price, i) = book.locate(order_id);
    assert(book.holds(order_id, side, price, i));
    let queue = book.queue(side, price);
    book.lemma_with_queue(side, price, queue.remove(i));
    book.with_queue(side, price, queue.remove(i)).lemma_with_free(
        seq![queue[i].slot] + book.free,
    );
    lemma_quantity_remove(queue, i);
}

/// An order that is taken rests in the book, behind every order that was at its price before it;
/// the other queues stay as they are.
pub proof fn law_placing_queues_last(book: BookView, order: Order)
    requires
        book.refusal(order) is None,
    ensures
        ({
            let after = book.place(order);
            let queue = book.queue(order.side, order.price);
            let entry = Resting { slot: book.free[0], order };
            &&& after.rests(order.order_id)
            &&& after.locate(order.order_id) == (order.side, order.price, queue.len() as int)
            &&& after.find(order.order_id) == order
            &&& after.queue(order.side, order.price) == queue.push(entry)
            &&& forall|s: Side, p: u64|
                !(s == order.side && p == order.price) ==> #[trigger] after.queue(s, p)
                    == book.queue(s, p)
        }),
{
    let after = book.place(order);
    let queue = book.queue(order.side, order.price);
    let entry = Resting { slot: book.free[0], order };
    book.lemma_with_queue(order.side, order.price, queue.push(entry));
    book.with_queue(order.side, order.price, queue.push(entry)).lemma_with_free(
        book.free.drop_first(),
    );
    assert(after.holds(order.order_id, order.side, order.price, queue.len() as int));
    assert forall|s: Side, p: u64, i: int| #[trigger]
        after.holds(order.order_id, s, p, i) implies s == order.side && p == order.price && i
        == queue.len() by {
        if !(s == order.side && p == order.price && i == queue.len()) {
            assert(book.holds(order.order_id, s, p, i));
        }
    }
}

/// A cancellation undoes the addition of an order: the book, its free slots included, is as it
/// was before.
pub proof fn law_cancelling_undoes_placing(book: BookView, order: Order)
    requires
        book.tidy(),
        book.refusal(order) is None,
    ensures
        book.place(order).cancel(order.order_id) == book,
{
    let after = book.place(order);
    let queue = book.queue(order.side, order.price);
    let entry = Resting { slot: book.free[0], order };
    law_placing_queues_last(book, order);
    assert(queue.push(entry).remove(queue.len() as int) =~= queue);
    assert(seq![book.free[0]] + book.free.drop_first() =~= book.free);
    let undone = after.cancel(order.order_id);
    assert(undone.levels(order.side) =~= book.levels(order.side));
    assert(undone =~= book);
}

/// A cancelled order is gone, and every other order rests as it did.
pub proof fn law_cancelling_spares_others(book: BookView, order_id: u64)
    requires
        book.valid(),
        book.rests(order_id),
    ensures
        !book.cancel(order_id).rests(order_id),
        forall|id: u64|
            id != order_id ==> #[trigger] book.cancel(order_id).rests(id) == book.rests(id),
        forall|id: u64|
            id != order_id && book.rests(id) ==> #[trigger] book.cancel(order_id).find(id)
                == book.find(id),
{
    let after = book.cancel(order_id);
    let (side, price, k) = book.locate(order_id);
    assert(book.holds(order_id, side, price, k));
    let queue = book.queue(side, price);
    book.lemma_with_queue(side, price, queue.remove(k));
    book.with_queue(side, price, queue.remove(k)).lemma_with_free(
        seq![queue[k].slot] + book.free,
    );
    assert forall|id: u64, s: Side, p: u64, i: int| #[trigger] after.holds(id, s, p, i) implies {
        let j = if s == side && p == price && i >= k {
            i + 1
        } else {
            i
        };
        &&& book.holds(id, s, p, j)
        &&& after.queue(s, p)[i] == book.queue(s, p)[j]
        &&& !(s == side && p == price && j == k)
    } by {}
    assert forall|id: u64, s: Side, p: u64, j: int| #[trigger]
        book.holds(id, s, p, j) && id != order_id implies after.rests(id) by {
        let i = if s == side && p == price && j >= k {
            j - 1
        } else {
            j
        };
        assert(after.holds(id, s, p, i));
    }
    assert forall|id: u64|
        id != order_id implies #[trigger] after.rests(id) == book.rests(id) by {
        if after.rests(id) {
            let (s, p, i) = after.locate(id);
            assert(after.holds(id, s, p, i));
        }
        if book.rests(id) {
            let (s, p, i) = book.locate(id);
            assert(book.holds(id, s, p, i));
        }
    }
    assert(!after.rests(order_id)) by {
        if after.rests(order_id) {
            let (s, p, i) = after.locate(order_id);
            assert(after.holds(order_id, s, p, i));
        }
    }
    assert forall|id: u64| id != order_id && book.rests(id) implies #[trigger] after.find(id)
        == book.find(id) by {
        assert(after.rests(id));
        let (s, p, i) = after.locate(id);
        assert(after.holds(id, s, p, i));
        let (t, q, j) = book.locate(id);
        assert(book.holds(id, t, q, j));
    }
}

/// The number of executions at a price.
pub open spec fn fills_at(fills: Seq<Fill>, price: u64) -> nat
    decreases fills.len(),
{
    if fills.len() == 0 {
        0
    } else {
        fills_at(fills.drop_first(), price) + if fills[0].maker.order.price == price {
            1nat
        } else {
            0nat
        }
    }
}

/// Execution `i` has its turn: its maker is the first order of `side` that no earlier execution
/// traded with, at the best price that is left.
pub open spec fn has_turn(book: BookView, side: Side, fills: Seq<Fill>, i: int) -> bool {
    let maker = fills[i].maker;
    let price = maker.order.price;
    let earlier = fills.take(i);
    &&& fills_at(earlier, price) < book.queue(side, price).len()
    &&& maker == book.queue(side, price)[fills_at(earlier, price) as int]
    &&& forall|p: u64| #[trigger]
        book.levels(side).contains_key(p) && better(side, p, price) ==> fills_at(earlier, p)
            == book.queue(side, p).len()
}

/// Execution `i` trades within the limit of the taker, something, and all that its maker has
/// unless it is the last.
pub open spec fn trades_fairly(taker: Side, limit: u64, fills: Seq<Fill>, i: int) -> bool {
    let maker = fills[i].maker.order;
    &&& crosses(taker, limit, maker.price)
    &&& 0 < fills[i].quantity <= maker.quantity
    &&& i + 1 < fills.len() ==> fills[i].quantity == maker.quantity
}

/// Executions count one by one.
proof fn lemma_fills_at(first: Fill, rest: Seq<Fill>, i: int, price: u64)
    requires
        0 <= i <= rest.len(),
    ensures
        fills_at((seq![first] + rest).take(i + 1), price) == fills_at(rest.take(i), price)
            + if first.maker.order.price == price {
            1nat
        } else {
            0nat
        },
{
    let fills = (seq![first] + rest).take(i + 1);
    assert(fills.drop_first() =~= rest.take(i));
}

/// A price at which nothing traded has no executions.
proof fn lemma_no_fills(fills: Seq<Fill>, price: u64)
    requires
        forall|i: int| 0 <= i < fills.len() ==> (#[trigger] fills[i]).maker.order.price != price,
    ensures
        fills_at(fills, price) == 0,
    decreases fills.len(),
{
    if fills.len() > 0 {
        assert(fills[0].maker.order.price != price);
        assert forall|i: int| 0 <= i < fills.drop_first().len() implies (
        #[trigger] fills.drop_first()[i]).maker.order.price != price by {
            assert(fills.drop_first()[i] == fills[i + 1]);
        }
        lemma_no_fills(fills.drop_first(), price);
    }
}

/// Matching keeps price-time priority: every execution is with the first order that is left at
/// the best price that is left, within the limit of the incoming order, and each maker but the
/// last is filled.
pub proof fn law_price_time_priority(
    book: BookView,
    taker: Side,
    limit: u64,
    quantity: u64,
    room: nat,
)
    requires
        book.valid(),
    ensures
        ({
            let fills = book.sweep(taker, limit, quantity, room).fills;
            forall|i: int|
                #![trigger fills[i]]
                0 <= i < fills.len() ==> has_turn(book, taker.other(), fills, i)
                    && trades_fairly(taker, limit, fills, i)
        }),
{
    lemma_priority(book, taker, limit, quantity, room);
}

/// The orders that are left when the first of a queue is filled are open, and rest at their price.
pub(crate) proof fn lemma_live_after(book: BookView, after: BookView, side: Side, price: u64)
    requires
        book.live(),
        book.queue(side, price).len() > 0,
        after.queue(side, price) == book.queue(side, price).drop_first(),
        forall|s: Side, p: u64|
            !(s == side && p == price) ==> #[trigger] after.queue(s, p) == book.queue(s, p),
    ensures
        after.live(),
{
    assert forall|s: Side, p: u64, i: int| 0 <= i < after.queue(s, p).len() implies {
        let order = (#[trigger] after.queue(s, p)[i]).order;
        order.side == s && order.price == p && p > 0 && order.quantity > 0
    } by {
        if s == side && p == price {
            assert(after.queue(s, p)[i] == book.queue(s, p)[i + 1]);
        } else {
            assert(after.queue(s, p)[i] == book.queue(s, p)[i]);
        }
    }
}

/// Price-time priority, of any book whose orders are open and rest at their price.
proof fn lemma_priority(book: BookView, taker: Side, limit: u64, quantity: u64, room: nat)
    requires
        book.tidy(),
        book.live(),
    ensures
        ({
            let fills = book.sweep(taker, limit, quantity, room).fills;
            forall|i: int|
                #![trigger fills[i]]
                0 <= i < fills.len() ==> has_turn(book, taker.other(), fills, i)
                    && trades_fairly(taker, limit, fills, i)
        }),
    decreases room,
{
    if quantity > 0 && room > 0 && book.crossed(taker, limit) {
        let side = taker.other();
        lemma_crossed(book, taker, limit);
        let first = book.first_fill(taker, quantity);
        let price = book.best(side)->0;
        let queue = book.queue(side, price);
        lemma_fill(book, side, price, first.quantity);
        let after = book.fill(side, price, first.quantity);
        let left = (quantity - first.quantity) as u64;
        let rest = after.sweep(taker, limit, left, (room - 1) as nat).fills;
        let fills = book.sweep(taker, limit, quantity, room).fills;
        assert(fills == seq![first] + rest);
        assert(queue[0].order.price == price);
        assert(fills.take(0) =~= Seq::<Fill>::empty());
        assert(has_turn(book, side, fills, 0));
        if first.quantity == queue[0].order.quantity {
            lemma_live_after(book, after, side, price);
            lemma_priority(after, taker, limit, left, (room - 1) as nat);
            assert forall|j: int| 0 <= j < rest.len() implies #[trigger] has_turn(
                after,
                side,
                rest,
                j,
            ) by {
                assert(rest[j] == fills[j + 1]);
            }
            assert forall|i: int|
                #![trigger fills[i]]
                0 <= i < fills.len() implies has_turn(book, side, fills, i) && trades_fairly(
                taker,
                limit,
                fills,
                i,
            ) by {
                if i > 0 {
                    assert(has_turn(after, side, rest, i - 1));
                    assert(trades_fairly(taker, limit, rest, i - 1));
                    assert(fills[i] == rest[i - 1]);
                    lemma_turn_after(book, after, side, price, first, rest, i - 1);
                }
            }
        } else {
            assert(left == 0);
            assert(rest =~= Seq::<Fill>::empty());
        }
    }
}

/// An execution that has its turn after the first order at the best price was filled has it
/// after that execution.
proof fn lemma_turn_after(
    book: BookView,
    after: BookView,
    side: Side,
    price: u64,
    first: Fill,
    rest: Seq<Fill>,
    i: int,
)
    requires
        book.tidy(),
        after.tidy(),
        book.is_best(side, price),
        first.maker.order.price == price,
        after.queue(side, price) == book.queue(side, price).drop_first(),
        book.queue(side, price).len() > 0,
        forall|p: u64| p != price ==> #[trigger] after.queue(side, p) == book.queue(side, p),
        0 <= i < rest.len(),
        forall|j: int| 0 <= j <= i ==> #[trigger] has_turn(after, side, rest, j),
    ensures
        has_turn(book, side, seq![first] + rest, i + 1),
{
    let fills = seq![first] + rest;
    let maker_price = rest[i].maker.order.price;
    assert(fills[i + 1] == rest[i]);
    assert(has_turn(after, side, rest, i));
    lemma_fills_at(first, rest, i, maker_price);
    assert forall|p: u64| #[trigger]
        book.levels(side).contains_key(p) && better(side, p, maker_price) implies fills_at(
        fills.take(i + 1),
        p,
    ) == book.queue(side, p).len() by {
        lemma_fills_at(first, rest, i, p);
        if after.levels(side).contains_key(p) {
            assert(fills_at(rest.take(i), p) == after.queue(side, p).len());
        } else {
            assert(after.queue(side, p).len() == 0);
            assert(book.queue(side, p).len() > 0);
            assert(p == price);
            assert forall|j: int| 0 <= j < i implies (#[trigger] rest.take(i)[j]).maker.order.price
                != p by {
                assert(has_turn(after, side, rest, j));
            }
            lemma_no_fills(rest.take(i), p);
        }
    }
}

/// A side with orders has a best price.
proof fn lemma_has_best(book: BookView, side: Side, price: u64)
    requires
        book.levels(side).contains_key(price),
    ensures
        book.best(side) is Some,
        ({
            let best = book.best(side)->0;
            book.is_best(side, best) && (best == price || better(side, best, price))
        }),
    decreases match side {
        Side::Buy => u64::MAX - price,
        Side::Sell => price as int,
    },
{
    if book.is_best(side, price) {
        book.lemma_best(side, price);
    } else {
        let p = choose|p: u64| #[trigger]
            book.levels(side).contains_key(p) && !(p == price || better(side, price, p));
        lemma_has_best(book, side, p);
    }
}

/// Matching goes on for as long as it can: where the incoming order is still open and there is
/// room for another execution, no resting order is within its limit.
pub proof fn law_matching_is_exhaustive(
    book: BookView,
    taker: Side,
    limit: u64,
    quantity: u64,
    room: nat,
)
    ensures
        ({
            let outcome = book.sweep(taker, limit, quantity, room);
            outcome.left > 0 && outcome.fills.len() < room ==> forall|price: u64| #[trigger]
                outcome.book.levels(taker.other()).contains_key(price) ==> !crosses(
                    taker,
                    limit,
                    price,
                )
        }),
    decreases room,
{
    let side = taker.other();
    if quantity > 0 && room > 0 {
        if book.crossed(taker, limit) {
            let fill = book.first_fill(taker, quantity);
            let after = book.fill(side, book.best(side)->0, fill.quantity);
            let left = (quantity - fill.quantity) as u64;
            law_matching_is_exhaustive(after, taker, limit, left, (room - 1) as nat);
        } else {
            assert forall|price: u64| #[trigger]
                book.levels(side).contains_key(price) implies !crosses(taker, limit, price) by {
                lemma_has_best(book, side, price);
            }
        }
    }
}

/// Matching takes orders of the other side only, and only from prices within the limit of the
/// incoming order. It adds no price.
pub proof fn law_matching_spares_the_rest(
    book: BookView,
    taker: Side,
    limit: u64,
    quantity: u64,
    room: nat,
)
    requires
        book.tidy(),
    ensures
        ({
            let after = book.sweep(taker, limit, quantity, room).book;
            &&& after.levels(taker) == book.levels(taker)
            &&& forall|price: u64|
                !crosses(taker, limit, price) ==> #[trigger] after.queue(taker.other(), price)
                    == book.queue(taker.other(), price)
            &&& forall|price: u64| #[trigger]
                after.levels(taker.other()).contains_key(price) ==> book.levels(
                    taker.other(),
                ).contains_key(price)
        }),
    decreases room,
{
    if quantity > 0 && room > 0 && book.crossed(taker, limit) {
        let side = taker.other();
        lemma_crossed(book, taker, limit);
        let fill = book.first_fill(taker, quantity);
        let price = book.best(side)->0;
        lemma_fill(book, side, price, fill.quantity);
        let after = book.fill(side, price, fill.quantity);
        let left = (quantity - fill.quantity) as u64;
        law_matching_spares_the_rest(after, taker, limit, left, (room - 1) as nat);
        assert(book.levels(side).contains_key(price));
    }
}

/// A book stays uncrossed when an incoming order is matched, with room for all its executions,
/// and what is left of it is added.
pub proof fn law_books_stay_uncrossed(book: BookView, incoming: Order, room: nat)
    requires
        book.tidy(),
        book.uncrossed(),
    ensures
        ({
            let outcome = book.sweep(incoming.side, incoming.price, incoming.quantity, room);
            let rest = Order { quantity: outcome.left, ..incoming };
            &&& outcome.book.uncrossed()
            &&& outcome.fills.len() < room && outcome.book.refusal(rest) is None
                ==> outcome.book.place(rest).uncrossed()
        }),
{
    let (side, limit) = (incoming.side, incoming.price);
    let outcome = book.sweep(side, limit, incoming.quantity, room);
    law_matching_spares_the_rest(book, side, limit, incoming.quantity, room);
    law_matching_is_exhaustive(book, side, limit, incoming.quantity, room);
    let (taken, other) = (outcome.book.levels(side), outcome.book.levels(side.other()));
    assert forall|bid: u64, ask: u64|
        #![trigger outcome.book.bids.contains_key(bid), outcome.book.asks.contains_key(ask)]
        outcome.book.bids.contains_key(bid) && outcome.book.asks.contains_key(ask) implies bid
        < ask by {
        match side {
            Side::Buy => {
                assert(other.contains_key(ask));
            },
            Side::Sell => {
                assert(other.contains_key(bid));
            },
        }
        assert(book.bids.contains_key(bid) && book.asks.contains_key(ask));
    }
    let rest = Order { quantity: outcome.left, ..incoming };
    if outcome.fills.len() < room && outcome.book.refusal(rest) is None {
        let placed = outcome.book.place(rest);
        assert forall|bid: u64, ask: u64|
            #![trigger placed.bids.contains_key(bid), placed.asks.contains_key(ask)]
            placed.bids.contains_key(bid) && placed.asks.contains_key(ask) implies bid < ask by {
            match side {
                Side::Buy => {
                    assert(other.contains_key(ask));
                    assert(bid == limit || taken.contains_key(bid));
                },
                Side::Sell => {
                    assert(other.contains_key(bid));
                    assert(ask == limit || taken.contains_key(ask));
                },
            }
        }
    }
}

/// An order that passes the wash-trading check trades with no order of its own client.
pub proof fn law_no_wash_trades(book: BookView, order: Order, room: nat)
    requires
        book.valid(),
        !is_wash(order, book),
    ensures
        ({
            let fills = book.sweep(order.side, order.price, order.quantity, room).fills;
            forall|i: int|
                0 <= i < fills.len() ==> (#[trigger] fills[i]).maker.order.client_id
                    != order.client_id
        }),
{
    let fills = book.sweep(order.side, order.price, order.quantity, room).fills;
    law_price_time_priority(book, order.side, order.price, order.quantity, room);
    assert forall|i: int| 0 <= i < fills.len() implies (
    #[trigger] fills[i]).maker.order.client_id != order.client_id by {
        assert(has_turn(book, order.side.other(), fills, i));
        assert(trades_fairly(order.side, order.price, fills, i));
        let price = fills[i].maker.order.price;
        let k = fills_at(fills.take(i), price) as int;
        assert(!conflict(order, book, price, k));
    }
}

/// What happens to a book.
pub enum Event {
    /// An order comes in: it is matched, with room for `room` executions, and what is left of it
    /// is added. Where the book refuses that rest, it is cancelled.
    Submit { order: Order, room: nat },
    /// An order comes in and is matched, with room for `room` executions. What is left of it is
    /// cancelled, even where the book would take it.
    Match { order: Order, room: nat },
    /// An order is cancelled.
    Cancel { order_id: u64 },
}

/// A book, and the quantities that went through it.
pub struct Ledger {
    pub book: BookView,
    /// The quantity of the orders that came in.
    pub injected: nat,
    /// The quantity that was cancelled.
    pub cancelled: nat,
    /// The quantity that was traded, counted once for both sides.
    pub executed: nat,
    /// The number of orders that were added.
    pub additions: nat,
    /// The number of orders that were cancelled.
    pub cancellations: nat,
    /// The number of makers that were filled.
    pub filled: nat,
}

impl Ledger {
    /// A book before anything happened.
    pub open spec fn opening(book: BookView) -> Ledger {
        Ledger {
            book,
            injected: 0,
            cancelled: 0,
            executed: 0,
            additions: 0,
            cancellations: 0,
            filled: 0,
        }
    }

    /// What one event does.
    pub open spec fn step(self, event: Event) -> Ledger {
        match event {
            Event::Submit { order, room } => {
                let outcome = self.book.sweep(order.side, order.price, order.quantity, room);
                let rest = Order { quantity: outcome.left, ..order };
                let taken = outcome.book.refusal(rest) is None;
                Ledger {
                    book: if taken {
                        outcome.book.place(rest)
                    } else {
                        outcome.book
                    },
                    injected: self.injected + order.quantity as nat,
                    cancelled: if taken {
                        self.cancelled
                    } else {
                        self.cancelled + rest.quantity as nat
                    },
                    executed: self.executed + executed(outcome.fills),
                    additions: if taken {
                        self.additions + 1
                    } else {
                        self.additions
                    },
                    filled: self.filled + filled_makers(outcome.fills),
                    ..self
                }
            },
            Event::Match { order, room } => {
                let outcome = self.book.sweep(order.side, order.price, order.quantity, room);
                Ledger {
                    book: outcome.book,
                    injected: self.injected + order.quantity as nat,
                    cancelled: self.cancelled + outcome.left as nat,
                    executed: self.executed + executed(outcome.fills),
                    filled: self.filled + filled_makers(outcome.fills),
                    ..self
                }
            },
            Event::Cancel { order_id } => if self.book.rests(order_id) {
                Ledger {
                    book: self.book.cancel(order_id),
                    cancelled: self.cancelled + self.book.find(order_id).quantity as nat,
                    cancellations: self.cancellations + 1,
                    ..self
                }
            } else {
                self
            },
        }
    }

    /// What a history of events does.
    pub open spec fn run(self, events: Seq<Event>) -> Ledger
        decreases events.len(),
    {
        if events.len() == 0 {
            self
        } else {
            self.run(events.drop_last()).step(events.last())
        }
    }

    /// The quantity that came in was cancelled, was traded with as much of another order, or
    /// rests.
    pub open spec fn balanced(self) -> bool {
        self.injected == self.cancelled + 2 * self.executed + self.book.quantity()
    }

    /// The orders that were added were cancelled, were filled, or rest.
    pub open spec fn counted(self) -> bool {
        self.additions == self.cancellations + self.filled + self.book.count()
    }
}

/// No event upsets the balance, nor the count.
proof fn lemma_step_balanced(ledger: Ledger, event: Event)
    requires
        ledger.book.tidy(),
        ledger.balanced(),
        ledger.counted(),
    ensures
        ledger.step(event).book.tidy(),
        ledger.step(event).balanced(),
        ledger.step(event).counted(),
{
    match event {
        Event::Submit { order, room } => {
            let outcome = ledger.book.sweep(order.side, order.price, order.quantity, room);
            let rest = Order { quantity: outcome.left, ..order };
            law_matching_conserves(ledger.book, order.side, order.price, order.quantity, room);
            if outcome.book.refusal(rest) is None {
                law_placing_adds(outcome.book, rest);
            }
        },
        Event::Match { order, room } => {
            law_matching_conserves(ledger.book, order.side, order.price, order.quantity, room);
        },
        Event::Cancel { order_id } => {
            if ledger.book.rests(order_id) {
                law_cancelling_removes(ledger.book, order_id);
            }
        },
    }
}

/// A history of an empty book is balanced, and counted.
proof fn lemma_run_balanced(book: BookView, events: Seq<Event>)
    requires
        book.bids == Map::<u64, Seq<Resting>>::empty(),
        book.asks == Map::<u64, Seq<Resting>>::empty(),
    ensures
        Ledger::opening(book).run(events).book.tidy(),
        Ledger::opening(book).run(events).balanced(),
        Ledger::opening(book).run(events).counted(),
    decreases events.len(),
{
    if events.len() == 0 {
        lemma_sum_gap(book.quantity_at(Side::Buy), 0, price_range());
        lemma_sum_gap(book.quantity_at(Side::Sell), 0, price_range());
        lemma_sum_gap(book.count_at(Side::Buy), 0, price_range());
        lemma_sum_gap(book.count_at(Side::Sell), 0, price_range());
    } else {
        lemma_run_balanced(book, events.drop_last());
        lemma_step_balanced(Ledger::opening(book).run(events.drop_last()), events.last());
    }
}

/// Volume is conserved: after any history of an empty book, the quantity that came in is the
/// quantity that was cancelled, twice the quantity that was executed, and the quantity at rest.
pub proof fn law_volume_is_conserved(book: BookView, events: Seq<Event>)
    requires
        book.bids == Map::<u64, Seq<Resting>>::empty(),
        book.asks == Map::<u64, Seq<Resting>>::empty(),
    ensures
        Ledger::opening(book).run(events).balanced(),
{
    lemma_run_balanced(book, events);
}

/// Orders are accounted for: after any history of an empty book, the number of orders at rest is
/// the number of additions less that of cancellations and of makers that were filled.
pub proof fn law_orders_are_accounted_for(book: BookView, events: Seq<Event>)
    requires
        book.bids == Map::<u64, Seq<Resting>>::empty(),
        book.asks == Map::<u64, Seq<Resting>>::empty(),
    ensures
        ({
            let ledger = Ledger::opening(book).run(events);
            ledger.book.count() == ledger.additions - ledger.cancellations - ledger.filled
        }),
{
    lemma_run_balanced(book, events);
}

/// An execution adds no order.
proof fn lemma_fill_rests(book: BookView, side: Side, price: u64, traded: u64, id: u64)
    requires
        book.queue(side, price).len() > 0,
        book.fill(side, price, traded).rests(id),
    ensures
        book.rests(id),
{
    let queue = book.queue(side, price);
    let first = queue[0];
    let after = book.fill(side, price, traded);
    let (s, p, i) = after.locate(id);
    assert(after.holds(id, s, p, i));
    if traded == first.order.quantity {
        let rest = queue.remove(0);
        book.lemma_with_queue(side, price, rest);
        book.with_queue(side, price, rest).lemma_with_free(seq![first.slot] + book.free);
        if s == side && p == price {
            assert(book.holds(id, s, p, i + 1));
        } else {
            assert(book.holds(id, s, p, i));
        }
    } else {
        let order = Order { quantity: (first.order.quantity - traded) as u64, ..first.order };
        let entry = Resting { order, ..first };
        book.lemma_with_queue(side, price, queue.update(0, entry));
        assert(book.holds(id, s, p, i));
    }
}

/// Matching adds no order.
proof fn lemma_sweep_rests(
    book: BookView,
    taker: Side,
    limit: u64,
    quantity: u64,
    room: nat,
    id: u64,
)
    requires
        book.tidy(),
        book.sweep(taker, limit, quantity, room).book.rests(id),
    ensures
        book.rests(id),
    decreases room,
{
    if quantity > 0 && room > 0 && book.crossed(taker, limit) {
        let side = taker.other();
        lemma_crossed(book, taker, limit);
        let fill = book.first_fill(taker, quantity);
        let price = book.best(side)->0;
        let after = book.fill(side, price, fill.quantity);
        lemma_fill(book, side, price, fill.quantity);
        lemma_sweep_rests(
            after,
            taker,
            limit,
            (quantity - fill.quantity) as u64,
            (room - 1) as nat,
            id,
        );
        lemma_fill_rests(book, side, price, fill.quantity, id);
    }
}

/// To drop what is left of an incoming order is to submit the order and to cancel it: for an
/// identifier that does not rest, both lead to the same book, and to the same quantities that
/// came in, were cancelled and were executed.
pub proof fn law_dropping_is_submitting_and_cancelling(ledger: Ledger, order: Order, room: nat)
    requires
        ledger.book.tidy(),
        !ledger.book.rests(order.order_id),
    ensures
        ({
            let dropped = ledger.step(Event::Match { order, room });
            let cancelled = ledger.step(Event::Submit { order, room }).step(
                Event::Cancel { order_id: order.order_id },
            );
            &&& dropped.book == cancelled.book
            &&& dropped.injected == cancelled.injected
            &&& dropped.cancelled == cancelled.cancelled
            &&& dropped.executed == cancelled.executed
            &&& dropped.filled == cancelled.filled
        }),
{
    let outcome = ledger.book.sweep(order.side, order.price, order.quantity, room);
    let rest = Order { quantity: outcome.left, ..order };
    law_matching_conserves(ledger.book, order.side, order.price, order.quantity, room);
    if outcome.book.rests(order.order_id) {
        lemma_sweep_rests(
            ledger.book,
            order.side,
            order.price,
            order.quantity,
            room,
            order.order_id,
        );
    }
    if outcome.book.refusal(rest) is None {
        law_placing_queues_last(outcome.book, rest);
        law_cancelling_undoes_placing(outcome.book, rest);
    }
}

/// A history can be resumed: the events that follow a state lead from there to where the whole
/// history leads.
pub proof fn law_histories_resume(ledger: Ledger, before: Seq<Event>, after: Seq<Event>)
    ensures
        ledger.run(before + after) == ledger.run(before).run(after),
    decreases after.len(),
{
    if after.len() == 0 {
        assert(before + after =~= before);
    } else {
        law_histories_resume(ledger, before, after.drop_last());
        assert((before + after).drop_last() =~= before + after.drop_last());
    }
}

/// The snapshot of a book can be loaded into any book of as many slots, whatever follows it.
pub proof fn law_snapshots_load(book: OrderBook, tail: Seq<u8>)
    requires
        book.wf(),
    ensures
        snapshot_fault(
            snapshot_bytes(book.slots@, book.free_head) + tail,
            book.slots@.len(),
        ) is None,
{
    book.lemma_rebuilt();
    lemma_snapshot_round_trip(book.slots@, book.free_head, tail);
}

/// The book that was loaded from the snapshot of a book is that book: the same orders in the same
/// queues, the same free slots in the same order, and it is well formed.
pub proof fn law_snapshots_recover(book: OrderBook, restored: OrderBook, tail: Seq<u8>)
    requires
        book.wf(),
        restored.slots@.len() == book.slots@.len(),
        restored.loaded(snapshot_bytes(book.slots@, book.free_head) + tail),
    ensures
        restored.wf(),
        restored@ == book@,
{
    lemma_snapshot_round_trip(book.slots@, book.free_head, tail);
    restored.lemma_recovered(book);
}

/// Matching can be done in parts: with room for `m` executions and then, for what is left of the
/// incoming order, with room for `k` more, it does what it does with room for all of them.
pub proof fn law_matching_in_parts(
    book: BookView,
    taker: Side,
    limit: u64,
    quantity: u64,
    m: nat,
    k: nat,
)
    ensures
        ({
            let first = book.sweep(taker, limit, quantity, m);
            let second = first.book.sweep(taker, limit, first.left, k);
            let whole = book.sweep(taker, limit, quantity, m + k);
            &&& whole.book == second.book
            &&& whole.left == second.left
            &&& whole.fills == first.fills + second.fills
        }),
    decreases m,
{
    let first = book.sweep(taker, limit, quantity, m);
    let second = first.book.sweep(taker, limit, first.left, k);
    let whole = book.sweep(taker, limit, quantity, m + k);
    if m == 0 || quantity == 0 || !book.crossed(taker, limit) {
        assert(first.fills + second.fills =~= second.fills);
    } else {
        let fill = book.first_fill(taker, quantity);
        let after = book.fill(taker.other(), book.best(taker.other())->0, fill.quantity);
        let left = (quantity - fill.quantity) as u64;
        law_matching_in_parts(after, taker, limit, left, (m - 1) as nat, k);
        let rest = after.sweep(taker, limit, left, (m - 1) as nat);
        assert((m + k - 1) as nat == (m - 1) as nat + k);
        assert(whole.fills =~= first.fills + second.fills);
    }
}

/// The orders of a queue, without their slots.
pub open spec fn orders_of(queue: Seq<Resting>) -> Seq<Order> {
    Seq::new(queue.len(), |i: int| queue[i].order)
}

/// What the executions are, without the slots of their makers.
pub open spec fn executions(fills: Seq<Fill>) -> Seq<(Order, u64)> {
    Seq::new(fills.len(), |i: int| (fills[i].maker.order, fills[i].quantity))
}

impl BookView {
    /// Two books have the same orders in the same queues, in whatever slots.
    pub open spec fn same_orders(self, book: BookView) -> bool {
        &&& forall|side: Side, price: u64| #[trigger]
            self.levels(side).contains_key(price) == book.levels(side).contains_key(price)
        &&& forall|side: Side, price: u64|
            orders_of(#[trigger] self.queue(side, price)) == orders_of(book.queue(side, price))
    }
}

/// The best price depends on the prices alone.
proof fn lemma_same_best(a: BookView, b: BookView, side: Side)
    requires
        a.same_orders(b),
    ensures
        a.best(side) == b.best(side),
{
    assert forall|price: u64| a.is_best(side, price) == b.is_best(side, price) by {
        assert forall|p: u64| #[trigger]
            b.levels(side).contains_key(p) == a.levels(side).contains_key(p) by {
            assert(a.levels(side).contains_key(p) == b.levels(side).contains_key(p));
        }
        assert(a.levels(side).contains_key(price) == b.levels(side).contains_key(price));
    }
    if a.best(side) is Some {
        let price = choose|price: u64| a.is_best(side, price);
        assert(a.is_best(side, price));
        assert(b.is_best(side, price));
        b.lemma_best(side, price);
    } else if b.best(side) is Some {
        let price = choose|price: u64| b.is_best(side, price);
        assert(b.is_best(side, price));
        assert(a.is_best(side, price));
    }
}

/// Another queue at a price of two books, with the same orders in both.
proof fn lemma_same_with_queue(
    a: BookView,
    b: BookView,
    side: Side,
    price: u64,
    in_a: Seq<Resting>,
    in_b: Seq<Resting>,
    free_a: Seq<u32>,
    free_b: Seq<u32>,
)
    requires
        a.same_orders(b),
        orders_of(in_a) == orders_of(in_b),
    ensures
        a.with_queue(side, price, in_a).same_orders(b.with_queue(side, price, in_b)),
        a.with_queue(side, price, in_a).with_free(free_a).same_orders(
            b.with_queue(side, price, in_b).with_free(free_b),
        ),
{
    let x = a.with_queue(side, price, in_a);
    let y = b.with_queue(side, price, in_b);
    a.lemma_with_queue(side, price, in_a);
    b.lemma_with_queue(side, price, in_b);
    assert(in_a.len() == orders_of(in_a).len());
    assert(in_b.len() == orders_of(in_b).len());
    assert forall|s: Side, p: u64| #[trigger]
        x.levels(s).contains_key(p) == y.levels(s).contains_key(p) by {
        assert(a.levels(s).contains_key(p) == b.levels(s).contains_key(p));
    }
    assert forall|s: Side, p: u64|
        orders_of(#[trigger] x.queue(s, p)) == orders_of(y.queue(s, p)) by {
        assert(orders_of(a.queue(s, p)) == orders_of(b.queue(s, p)));
    }
    let xf = x.with_free(free_a);
    let yf = y.with_free(free_b);
    x.lemma_with_free(free_a);
    y.lemma_with_free(free_b);
    assert forall|s: Side, p: u64| #[trigger]
        xf.levels(s).contains_key(p) == yf.levels(s).contains_key(p) by {
        assert(x.levels(s).contains_key(p) == y.levels(s).contains_key(p));
    }
    assert forall|s: Side, p: u64|
        orders_of(#[trigger] xf.queue(s, p)) == orders_of(yf.queue(s, p)) by {
        assert(orders_of(x.queue(s, p)) == orders_of(y.queue(s, p)));
    }
}

/// One execution, in two books with the same orders.
proof fn lemma_same_fill(a: BookView, b: BookView, side: Side, price: u64, traded: u64)
    requires
        a.same_orders(b),
        a.queue(side, price).len() > 0,
    ensures
        b.queue(side, price).len() == a.queue(side, price).len(),
        b.queue(side, price)[0].order == a.queue(side, price)[0].order,
        a.fill(side, price, traded).same_orders(b.fill(side, price, traded)),
{
    let p = a.queue(side, price);
    let q = b.queue(side, price);
    assert(orders_of(p) == orders_of(q));
    assert(p.len() == orders_of(p).len() && q.len() == orders_of(q).len());
    assert forall|i: int| 0 <= i < p.len() implies (#[trigger] p[i]).order == q[i].order by {
        assert(orders_of(p)[i] == orders_of(q)[i]);
    }
    assert(p[0].order == q[0].order);
    if traded == p[0].order.quantity {
        assert(orders_of(p.remove(0)) =~= orders_of(q.remove(0))) by {
            assert forall|i: int| 0 <= i < p.len() - 1 implies orders_of(p.remove(0))[i]
                == orders_of(q.remove(0))[i] by {
                assert(p[i + 1].order == q[i + 1].order);
            }
        }
        lemma_same_with_queue(
            a,
            b,
            side,
            price,
            p.remove(0),
            q.remove(0),
            seq![p[0].slot] + a.free,
            seq![q[0].slot] + b.free,
        );
    } else {
        let order = Order { quantity: (p[0].order.quantity - traded) as u64, ..p[0].order };
        let pu = p.update(0, Resting { order, ..p[0] });
        let qu = q.update(0, Resting { order, ..q[0] });
        assert(orders_of(pu) =~= orders_of(qu)) by {
            assert forall|i: int| 0 <= i < p.len() implies orders_of(pu)[i]
                == orders_of(qu)[i] by {
                assert(p[i].order == q[i].order);
            }
        }
        lemma_same_with_queue(a, b, side, price, pu, qu, a.free, b.free);
    }
}

/// Matching depends on the orders alone: in two books with the same orders in the same queues an
/// incoming order has the same executions, is left with the same quantity, and leaves the same
/// orders behind, whatever slots they take up.
pub proof fn law_matching_ignores_slots(
    a: BookView,
    b: BookView,
    taker: Side,
    limit: u64,
    quantity: u64,
    room: nat,
)
    requires
        a.tidy(),
        b.tidy(),
        a.same_orders(b),
    ensures
        ({
            let in_a = a.sweep(taker, limit, quantity, room);
            let in_b = b.sweep(taker, limit, quantity, room);
            &&& executions(in_a.fills) == executions(in_b.fills)
            &&& in_a.left == in_b.left
            &&& in_a.book.same_orders(in_b.book)
        }),
    decreases room,
{
    let side = taker.other();
    let in_a = a.sweep(taker, limit, quantity, room);
    let in_b = b.sweep(taker, limit, quantity, room);
    lemma_same_best(a, b, side);
    if quantity > 0 && room > 0 && a.crossed(taker, limit) {
        lemma_crossed(a, taker, limit);
        lemma_crossed(b, taker, limit);
        let price = a.best(side)->0;
        let fill_a = a.first_fill(taker, quantity);
        let fill_b = b.first_fill(taker, quantity);
        lemma_same_fill(a, b, side, price, fill_a.quantity);
        lemma_fill(a, side, price, fill_a.quantity);
        lemma_fill(b, side, price, fill_a.quantity);
        let after_a = a.fill(side, price, fill_a.quantity);
        let after_b = b.fill(side, price, fill_a.quantity);
        let left = (quantity - fill_a.quantity) as u64;
        law_matching_ignores_slots(after_a, after_b, taker, limit, left, (room - 1) as nat);
        let rest_a = after_a.sweep(taker, limit, left, (room - 1) as nat);
        let rest_b = after_b.sweep(taker, limit, left, (room - 1) as nat);
        assert(executions(in_a.fills) =~= seq![(fill_a.maker.order, fill_a.quantity)]
            + executions(rest_a.fills));
        assert(executions(in_b.fills) =~= seq![(fill_b.maker.order, fill_b.quantity)]
            + executions(rest_b.fills));
    } else {
        assert(executions(in_a.fills) =~= executions(in_b.fills));
    }
}

impl BookView {
    /// The book after orders were added one after the other.
    pub open spec fn place_all(self, orders: Seq<Order>) -> BookView
        decreases orders.len(),
    {
        if orders.len() == 0 {
            self
        } else {
            self.place_all(orders.drop_last()).place(orders.last())
        }
    }
}

/// Orders have a price and a quantity, and no two the same identifier.
pub open spec fn acceptable(orders: Seq<Order>) -> bool {
    &&& forall|i: int|
        0 <= i < orders.len() ==> (#[trigger] orders[i]).price > 0 && orders[i].quantity > 0
    &&& forall|i: int, j: int|
        0 <= i < j < orders.len() ==> (#[trigger] orders[i]).order_id != (
        #[trigger] orders[j]).order_id
}

/// After an addition the orders that rested rest, and the new one.
proof fn lemma_placed_rests(book: BookView, order: Order, id: u64)
    requires
        book.refusal(order) is None,
    ensures
        book.place(order).rests(id) == (id == order.order_id || book.rests(id)),
{
    let after = book.place(order);
    let queue = book.queue(order.side, order.price);
    law_placing_queues_last(book, order);
    if book.rests(id) {
        let (s, p, i) = book.locate(id);
        assert(book.holds(id, s, p, i));
        assert(after.holds(id, s, p, i));
    }
    if after.rests(id) && id != order.order_id {
        let (s, p, i) = after.locate(id);
        assert(after.holds(id, s, p, i));
        assert(book.holds(id, s, p, i));
    }
}

/// An empty book takes as many orders as it has free slots.
proof fn lemma_place_all(book: BookView, orders: Seq<Order>)
    requires
        book.bids == Map::<u64, Seq<Resting>>::empty(),
        book.asks == Map::<u64, Seq<Resting>>::empty(),
        acceptable(orders),
        orders.len() <= book.free.len(),
    ensures
        book.place_all(orders).tidy(),
        book.place_all(orders).free == book.free.skip(orders.len() as int),
        book.place_all(orders).count() == orders.len(),
        forall|id: u64| #[trigger]
            book.place_all(orders).rests(id) ==> exists|i: int|
                0 <= i < orders.len() && (#[trigger] orders[i]).order_id == id,
        orders.len() > 0 ==> book.place_all(orders.drop_last()).refusal(orders.last()) is None,
    decreases orders.len(),
{
    if orders.len() == 0 {
        assert(book.free.skip(0) =~= book.free);
        lemma_sum_gap(book.count_at(Side::Buy), 0, price_range());
        lemma_sum_gap(book.count_at(Side::Sell), 0, price_range());
    } else {
        let earlier = orders.drop_last();
        let order = orders.last();
        let before = book.place_all(earlier);
        lemma_place_all(book, earlier);
        assert(orders[orders.len() - 1] == order);
        if before.rests(order.order_id) {
            let i = choose|i: int|
                0 <= i < earlier.len() && (#[trigger] earlier[i]).order_id == order.order_id;
            assert(orders[i] == earlier[i]);
        }
        law_placing_adds(before, order);
        assert(before.free.drop_first() =~= book.free.skip(orders.len() as int));
        assert forall|id: u64| #[trigger] book.place_all(orders).rests(id) implies exists|i: int|
            0 <= i < orders.len() && (#[trigger] orders[i]).order_id == id by {
            lemma_placed_rests(before, order, id);
            if before.rests(id) {
                let i = choose|i: int|
                    0 <= i < earlier.len() && (#[trigger] earlier[i]).order_id == id;
                assert(orders[i].order_id == id);
            }
        }
    }
}

/// The capacity is exact: a book without orders takes as many orders as it has free slots, each
/// in its turn, and then refuses every other for want of a slot. A new book has as many free
/// slots as its capacity.
pub proof fn law_capacity_is_exact(book: BookView, orders: Seq<Order>, other: Order)
    requires
        book.bids == Map::<u64, Seq<Resting>>::empty(),
        book.asks == Map::<u64, Seq<Resting>>::empty(),
        acceptable(orders),
        orders.len() == book.free.len(),
        other.price > 0,
        other.quantity > 0,
    ensures
        forall|k: int|
            0 <= k < orders.len() ==> book.place_all(orders.take(k)).refusal(
                #[trigger] orders[k],
            ) is None,
        book.place_all(orders).count() == orders.len(),
        book.place_all(orders).refusal(other) == Some(EngineError::BookCapacityExceeded),
{
    assert forall|k: int| 0 <= k < orders.len() implies book.place_all(orders.take(k)).refusal(
        #[trigger] orders[k],
    ) is None by {
        let taken = orders.take(k + 1);
        assert(taken.drop_last() =~= orders.take(k));
        assert(acceptable(taken)) by {
            assert forall|i: int, j: int| 0 <= i < j < taken.len() implies (
            #[trigger] taken[i]).order_id != (#[trigger] taken[j]).order_id by {
                assert(taken[i] == orders[i] && taken[j] == orders[j]);
            }
        }
        lemma_place_all(book, taken);
    }
    lemma_place_all(book, orders);
}

} // verus!
