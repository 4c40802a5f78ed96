//! What the operations of the book do to each order: which order trades, at what price and for how
//! much, which order leaves, and where every other order is left.

use crate::book::trade_record;
use crate::compliance::{conflict, is_wash};
use crate::errors::EngineError;
use crate::laws::{fills_at, has_turn, trades_fairly};
use crate::laws::{law_matching_conserves, law_matching_is_exhaustive};
use crate::laws::{law_placing_queues_last, law_price_time_priority};
use crate::laws::{lemma_crossed, lemma_fill, lemma_live_after};
use crate::model::{Order, Side};
use crate::view::{better, crosses, BookView, Fill, Resting};
use vstd::prelude::*;

verus! {

/// The executions at a price.
pub open spec fn at_price(price: u64) -> spec_fn(Fill) -> bool {
    |fill: Fill| fill.maker.order.price == price
}

/// One more execution in front.
proof fn lemma_at_price(first: Fill, rest: Seq<Fill>, price: u64)
    ensures
        (seq![first] + rest).filter(at_price(price)) == if first.maker.order.price == price {
            seq![first] + rest.filter(at_price(price))
        } else {
            rest.filter(at_price(price))
        },
{
    Seq::filter_distributes_over_add(seq![first], rest, at_price(price));
    lemma_single(first, price);
    if first.maker.order.price != price {
        assert(Seq::<Fill>::empty() + rest.filter(at_price(price)) =~= rest.filter(
            at_price(price),
        ));
    }
}

/// A single execution.
proof fn lemma_single(fill: Fill, price: u64)
    ensures
        seq![fill].filter(at_price(price)) == if fill.maker.order.price == price {
            seq![fill]
        } else {
            seq![]
        },
{
    reveal_with_fuel(Seq::filter, 2);
    assert(seq![fill].drop_last() =~= Seq::<Fill>::empty());
    assert(Seq::<Fill>::empty().push(fill) =~= seq![fill]);
}

/// Matching takes orders from the front of each queue and leaves the rest in place.
///
/// The makers of the executions at a price are the first orders of the queue there, in their
/// order. Those that are filled leave; the queue goes on with the next one. A maker that is filled
/// in part stays first, in its slot, with only its quantity reduced. Every order behind it is as it
/// was.
pub proof fn law_matching_takes_from_the_front(
    book: BookView,
    taker: Side,
    limit: u64,
    quantity: u64,
    room: nat,
    price: u64,
)
    requires
        book.valid(),
    ensures
        ({
            let outcome = book.sweep(taker, limit, quantity, room);
            let before = book.queue(taker.other(), price);
            let after = outcome.book.queue(taker.other(), price);
            let here = outcome.fills.filter(at_price(price));
            let partial = here.len() > 0 && here.last().quantity
                < here.last().maker.order.quantity;
            let filled = if partial {
                here.len() - 1
            } else {
                here.len() as int
            };
            &&& here.len() <= before.len()
            &&& forall|j: int| 0 <= j < here.len() ==> (#[trigger] here[j]).maker == before[j]
            &&& !partial ==> after == before.skip(filled)
            &&& partial ==> {
                let first = before[filled];
                let order = Order {
                    quantity: (first.order.quantity - here.last().quantity) as u64,
                    ..first.order
                };
                after == before.skip(filled).update(0, Resting { slot: first.slot, order })
            }
        }),
{
    lemma_takes_from_the_front(book, taker, limit, quantity, room, price);
}

/// The executions `here` took the orders of `before` from the front, and left `after`.
spec fn consumed(before: Seq<Resting>, here: Seq<Fill>, after: Seq<Resting>) -> bool {
    let partial = here.len() > 0 && here.last().quantity < here.last().maker.order.quantity;
    let filled = if partial {
        here.len() - 1
    } else {
        here.len() as int
    };
    &&& here.len() <= before.len()
    &&& forall|j: int| 0 <= j < here.len() ==> (#[trigger] here[j]).maker == before[j]
    &&& !partial ==> after == before.skip(filled)
    &&& partial ==> {
        let first = before[filled];
        let order = Order {
            quantity: (first.order.quantity - here.last().quantity) as u64,
            ..first.order
        };
        after == before.skip(filled).update(0, Resting { slot: first.slot, order })
    }
}

/// Nothing was taken.
proof fn lemma_consumed_none(queue: Seq<Resting>)
    ensures
        consumed(queue, Seq::<Fill>::empty(), queue),
{
    assert(queue.skip(0) =~= queue);
}

/// The first order was filled in part.
proof fn lemma_consumed_part(before: Seq<Resting>, fill: Fill, after: Seq<Resting>)
    requires
        before.len() > 0,
        fill.maker == before[0],
        fill.quantity < before[0].order.quantity,
        ({
            let order = Order {
                quantity: (before[0].order.quantity - fill.quantity) as u64,
                ..before[0].order
            };
            after == before.update(0, Resting { order, ..before[0] })
        }),
    ensures
        consumed(before, seq![fill], after),
{
    assert(before.skip(0) =~= before);
}

/// The first order was filled, and then those behind it were taken.
proof fn lemma_consumed_more(
    before: Seq<Resting>,
    fill: Fill,
    later: Seq<Fill>,
    after: Seq<Resting>,
)
    requires
        before.len() > 0,
        fill.maker == before[0],
        fill.quantity == before[0].order.quantity,
        consumed(before.drop_first(), later, after),
    ensures
        consumed(before, seq![fill] + later, after),
{
    let here = seq![fill] + later;
    let fewer = before.drop_first();
    assert forall|j: int| 0 <= j < here.len() implies (#[trigger] here[j]).maker == before[j] by {
        if j > 0 {
            assert(here[j] == later[j - 1]);
            assert(later[j - 1].maker == fewer[j - 1]);
        }
    }
    if later.len() > 0 {
        assert(here.last() == later.last());
        assert(fewer.skip(later.len() - 1) =~= before.skip(later.len() as int));
        assert(fewer.skip(later.len() as int) =~= before.skip(later.len() as int + 1));
    } else {
        assert(here.last() == fill);
        assert(fewer.skip(0) =~= before.skip(1));
    }
}

/// Matching takes orders from the front, in any book whose orders are open and rest at their price.
proof fn lemma_takes_from_the_front(
    book: BookView,
    taker: Side,
    limit: u64,
    quantity: u64,
    room: nat,
    price: u64,
)
    requires
        book.tidy(),
        book.live(),
    ensures
        ({
            let outcome = book.sweep(taker, limit, quantity, room);
            consumed(
                book.queue(taker.other(), price),
                outcome.fills.filter(at_price(price)),
                outcome.book.queue(taker.other(), price),
            )
        }),
    decreases room,
{
    let side = taker.other();
    let outcome = book.sweep(taker, limit, quantity, room);
    let before = book.queue(side, price);
    assert(Seq::<Fill>::empty().filter(at_price(price)) =~= Seq::<Fill>::empty()) by {
        reveal(Seq::filter);
    }
    if quantity > 0 && room > 0 && book.crossed(taker, limit) {
        lemma_crossed(book, taker, limit);
        let fill = book.first_fill(taker, quantity);
        let best = book.best(side)->0;
        let queue = book.queue(side, best);
        assert(queue[0].order.price == best);
        lemma_fill(book, side, best, fill.quantity);
        let next = book.fill(side, best, fill.quantity);
        let left = (quantity - fill.quantity) as u64;
        let rest = next.sweep(taker, limit, left, (room - 1) as nat);
        assert(outcome.fills == seq![fill] + rest.fills);
        lemma_at_price(fill, rest.fills, price);
        if fill.quantity == queue[0].order.quantity {
            lemma_live_after(book, next, side, best);
            lemma_takes_from_the_front(next, taker, limit, left, (room - 1) as nat, price);
            if best == price {
                lemma_consumed_more(
                    before,
                    fill,
                    rest.fills.filter(at_price(price)),
                    outcome.book.queue(side, price),
                );
            }
        } else {
            assert(left == 0);
            assert(rest.fills =~= Seq::<Fill>::empty());
            if best == price {
                assert(seq![fill] + Seq::<Fill>::empty() =~= seq![fill]);
                lemma_consumed_part(before, fill, outcome.book.queue(side, price));
            } else {
                lemma_consumed_none(before);
            }
        }
    } else {
        lemma_consumed_none(before);
    }
}

/// The number of executions at a price, counted.
proof fn lemma_fills_at_price(fills: Seq<Fill>, price: u64)
    ensures
        fills_at(fills, price) == fills.filter(at_price(price)).len(),
    decreases fills.len(),
{
    if fills.len() == 0 {
        reveal(Seq::filter);
    } else {
        let rest = fills.drop_first();
        assert(fills =~= seq![fills[0]] + rest);
        lemma_at_price(fills[0], rest, price);
        lemma_fills_at_price(rest, price);
    }
}

/// An incoming order that leaves its last maker open is filled.
proof fn lemma_last_execution(book: BookView, taker: Side, limit: u64, quantity: u64, room: nat)
    requires
        book.tidy(),
    ensures
        ({
            let outcome = book.sweep(taker, limit, quantity, room);
            let fills = outcome.fills;
            fills.len() > 0 && fills.last().quantity < fills.last().maker.order.quantity
                ==> outcome.left == 0
        }),
    decreases room,
{
    if quantity > 0 && room > 0 && book.crossed(taker, limit) {
        lemma_crossed(book, taker, limit);
        let side = taker.other();
        let fill = book.first_fill(taker, quantity);
        let best = book.best(side)->0;
        lemma_fill(book, side, best, fill.quantity);
        let next = book.fill(side, best, fill.quantity);
        let left = (quantity - fill.quantity) as u64;
        let rest = next.sweep(taker, limit, left, (room - 1) as nat);
        lemma_last_execution(next, taker, limit, left, (room - 1) as nat);
        if rest.fills.len() > 0 {
            assert((seq![fill] + rest.fills).last() == rest.fills.last());
        } else {
            assert((seq![fill] + rest.fills).last() == fill);
            if left > 0 {
                law_matching_conserves(next, taker, limit, left, (room - 1) as nat);
                assert(rest.left == left);
            }
        }
    }
}

/// A buyer trades at no more than the limit, a seller at no less. Each execution is at the best
/// price that is left: every order at a better price has traded before it. Each trades something,
/// at most what its maker has, and less than that only where it is the last and fills the incoming
/// order.
pub proof fn law_executions_are_at_the_best_price(
    book: BookView,
    taker: Side,
    limit: u64,
    quantity: u64,
    room: nat,
    i: int,
)
    requires
        book.valid(),
        0 <= i < book.sweep(taker, limit, quantity, room).fills.len(),
    ensures
        ({
            let outcome = book.sweep(taker, limit, quantity, room);
            let fill = outcome.fills[i];
            let price = fill.maker.order.price;
            let earlier = outcome.fills.take(i);
            &&& 0 < fill.quantity <= fill.maker.order.quantity
            &&& fill.quantity < fill.maker.order.quantity ==> i == outcome.fills.len() - 1
                && outcome.left == 0
            &&& taker == Side::Buy ==> {
                &&& price <= limit
                &&& fill.maker.order.side == Side::Sell
                &&& book.asks.contains_key(price)
                &&& book.asks[price].contains(fill.maker)
                &&& forall|p: u64| #[trigger]
                    book.asks.contains_key(p) && p < price ==> earlier.filter(at_price(p)).len()
                        == book.asks[p].len()
            }
            &&& taker == Side::Sell ==> {
                &&& price >= limit
                &&& fill.maker.order.side == Side::Buy
                &&& book.bids.contains_key(price)
                &&& book.bids[price].contains(fill.maker)
                &&& forall|p: u64| #[trigger]
                    book.bids.contains_key(p) && p > price ==> earlier.filter(at_price(p)).len()
                        == book.bids[p].len()
            }
        }),
{
    let side = taker.other();
    let outcome = book.sweep(taker, limit, quantity, room);
    let fills = outcome.fills;
    let price = fills[i].maker.order.price;
    let earlier = fills.take(i);
    law_price_time_priority(book, taker, limit, quantity, room);
    lemma_last_execution(book, taker, limit, quantity, room);
    assert(has_turn(book, side, fills, i));
    assert(trades_fairly(taker, limit, fills, i));
    let k = fills_at(earlier, price) as int;
    assert(book.queue(side, price)[k] == fills[i].maker);
    assert forall|p: u64| #[trigger]
        book.levels(side).contains_key(p) && better(side, p, price) implies earlier.filter(
        at_price(p),
    ).len() == book.queue(side, p).len() by {
        lemma_fills_at_price(earlier, p);
    }
    assert(book.levels(side).contains_key(price));
    match taker {
        Side::Buy => {
            assert forall|p: u64| #[trigger]
                book.asks.contains_key(p) && p < price implies earlier.filter(at_price(p)).len()
                == book.asks[p].len() by {
                assert(book.levels(side).contains_key(p));
            }
        },
        Side::Sell => {
            assert forall|p: u64| #[trigger]
                book.bids.contains_key(p) && p > price implies earlier.filter(at_price(p)).len()
                == book.bids[p].len() by {
                assert(book.levels(side).contains_key(p));
            }
        },
    }
}

/// Prices only get worse for the incoming order: a buyer pays no less, and a seller gets no more,
/// with each execution.
pub proof fn law_prices_get_no_better(
    book: BookView,
    taker: Side,
    limit: u64,
    quantity: u64,
    room: nat,
    i: int,
    j: int,
)
    requires
        book.valid(),
        0 <= i < j < book.sweep(taker, limit, quantity, room).fills.len(),
    ensures
        ({
            let fills = book.sweep(taker, limit, quantity, room).fills;
            let (a, b) = (fills[i].maker.order.price, fills[j].maker.order.price);
            &&& taker == Side::Buy ==> a <= b
            &&& taker == Side::Sell ==> a >= b
        }),
{
    let side = taker.other();
    let fills = book.sweep(taker, limit, quantity, room).fills;
    let (a, b) = (fills[i].maker.order.price, fills[j].maker.order.price);
    law_price_time_priority(book, taker, limit, quantity, room);
    assert(has_turn(book, side, fills, i));
    assert(has_turn(book, side, fills, j));
    if better(side, b, a) {
        assert(book.queue(side, b).len() > 0);
        assert(book.levels(side).contains_key(b));
        assert(fills_at(fills.take(i), b) == book.queue(side, b).len());
        lemma_fills_at_price(fills.take(i), b);
        lemma_fills_at_price(fills.take(j), b);
        let between = fills.subrange(i, j);
        assert(fills.take(j) =~= fills.take(i) + between);
        Seq::filter_distributes_over_add(fills.take(i), between, at_price(b));
    }
}

/// Matching ends only where the incoming order is filled, where there is no room for another
/// execution, or where every resting order is beyond the limit.
pub proof fn law_matching_leaves_nothing_within_the_limit(
    book: BookView,
    taker: Side,
    limit: u64,
    quantity: u64,
    room: nat,
    price: u64,
)
    requires
        ({
            let outcome = book.sweep(taker, limit, quantity, room);
            outcome.left > 0 && outcome.fills.len() < room
        }),
    ensures
        ({
            let after = book.sweep(taker, limit, quantity, room).book;
            &&& taker == Side::Buy && after.asks.contains_key(price) ==> price > limit
            &&& taker == Side::Sell && after.bids.contains_key(price) ==> price < limit
        }),
{
    law_matching_is_exhaustive(book, taker, limit, quantity, room);
    let after = book.sweep(taker, limit, quantity, room).book;
    assert(after.levels(taker.other()).contains_key(price) ==> !crosses(taker, limit, price));
}

/// The slots of the makers that are filled become free, the last of them first; the slots that
/// were free follow.
pub proof fn law_matching_frees_slots(
    book: BookView,
    taker: Side,
    limit: u64,
    quantity: u64,
    room: nat,
)
    requires
        book.valid(),
    ensures
        ({
            let outcome = book.sweep(taker, limit, quantity, room);
            let fills = outcome.fills;
            let filled = if fills.len() > 0 && fills.last().quantity
                < fills.last().maker.order.quantity {
                fills.len() - 1
            } else {
                fills.len() as int
            };
            &&& outcome.book.free.len() == book.free.len() + filled
            &&& forall|j: int|
                0 <= j < filled ==> #[trigger] outcome.book.free[j] == fills[filled - 1
                    - j].maker.slot
            &&& outcome.book.free.skip(filled) == book.free
        }),
{
    lemma_frees_slots(book, taker, limit, quantity, room);
}

/// Slots become free, in any book whose orders are open and rest at their price.
proof fn lemma_frees_slots(book: BookView, taker: Side, limit: u64, quantity: u64, room: nat)
    requires
        book.tidy(),
        book.live(),
    ensures
        ({
            let outcome = book.sweep(taker, limit, quantity, room);
            let fills = outcome.fills;
            let filled = if fills.len() > 0 && fills.last().quantity
                < fills.last().maker.order.quantity {
                fills.len() - 1
            } else {
                fills.len() as int
            };
            &&& outcome.book.free.len() == book.free.len() + filled
            &&& forall|j: int|
                0 <= j < filled ==> #[trigger] outcome.book.free[j] == fills[filled - 1
                    - j].maker.slot
            &&& outcome.book.free.skip(filled) == book.free
        }),
    decreases room,
{
    let outcome = book.sweep(taker, limit, quantity, room);
    let fills = outcome.fills;
    if quantity > 0 && room > 0 && book.crossed(taker, limit) {
        lemma_crossed(book, taker, limit);
        let side = taker.other();
        let fill = book.first_fill(taker, quantity);
        let best = book.best(side)->0;
        let queue = book.queue(side, best);
        lemma_fill(book, side, best, fill.quantity);
        let next = book.fill(side, best, fill.quantity);
        let left = (quantity - fill.quantity) as u64;
        let rest = next.sweep(taker, limit, left, (room - 1) as nat);
        assert(fills == seq![fill] + rest.fills);
        if fill.quantity == queue[0].order.quantity {
            lemma_live_after(book, next, side, best);
            lemma_frees_slots(next, taker, limit, left, (room - 1) as nat);
            let later = if rest.fills.len() > 0 && rest.fills.last().quantity
                < rest.fills.last().maker.order.quantity {
                rest.fills.len() - 1
            } else {
                rest.fills.len() as int
            };
            if rest.fills.len() > 0 {
                assert(fills.last() == rest.fills.last());
            }
            let free = outcome.book.free;
            assert(free.skip(later)[0] == fill.maker.slot);
            assert(free[later] == fill.maker.slot);
            assert(free.skip(later + 1) =~= free.skip(later).skip(1));
            assert((seq![fill.maker.slot] + book.free).skip(1) =~= book.free);
            assert forall|j: int| 0 <= j < later + 1 implies #[trigger] free[j] == fills[later
                - j].maker.slot by {
                if j < later {
                    assert(fills[later - j] == rest.fills[later - 1 - j]);
                }
            }
        } else {
            assert(rest.fills =~= Seq::<Fill>::empty());
            assert(fills.last() == fill);
            assert(book.free.skip(0) =~= book.free);
        }
    } else {
        assert(book.free.skip(0) =~= book.free);
    }
}

/// A trade record names the resting order that it was made with, and the price at which that
/// order rested: the price of the trade is the price of the order whose identifier is the maker's,
/// never that of the incoming order. It trades no more than that order had. The identifier and the
/// side of the taker are those of the incoming order.
pub proof fn law_trades_are_at_the_makers_price(
    book: BookView,
    incoming: Order,
    room: nat,
    i: int,
    trade_id: u64,
    sequence_id: u64,
)
    requires
        book.valid(),
        0 <= i < book.sweep(incoming.side, incoming.price, incoming.quantity, room).fills.len(),
    ensures
        ({
            let fill = book.sweep(incoming.side, incoming.price, incoming.quantity, room).fills[i];
            let trade = trade_record(fill, trade_id, sequence_id, incoming);
            &&& book.rests(trade.maker_id)
            &&& trade.price == book.find(trade.maker_id).price
            &&& trade.price == fill.maker.order.price
            &&& trade.maker_id == fill.maker.order.order_id
            &&& book.find(trade.maker_id) == fill.maker.order
            &&& book.find(trade.maker_id).side != trade.side
            &&& trade.quantity == fill.quantity
            &&& 0 < trade.quantity <= book.find(trade.maker_id).quantity
            &&& trade.taker_id == incoming.order_id
            &&& trade.side == incoming.side
            &&& trade.trade_id == trade_id
            &&& trade.sequence_id == sequence_id
        }),
{
    let side = incoming.side.other();
    let fills = book.sweep(incoming.side, incoming.price, incoming.quantity, room).fills;
    let maker = fills[i].maker;
    let price = maker.order.price;
    law_price_time_priority(book, incoming.side, incoming.price, incoming.quantity, room);
    assert(has_turn(book, side, fills, i));
    assert(trades_fairly(incoming.side, incoming.price, fills, i));
    let k = fills_at(fills.take(i), price) as int;
    assert(book.queue(side, price)[k] == maker);
    assert(book.holds(maker.order.order_id, side, price, k));
    let (s, p, j) = book.locate(maker.order.order_id);
    assert(book.holds(maker.order.order_id, s, p, j));
}

/// A cancellation keeps time priority: the order at place `i` of a queue leaves it, and the others
/// close up in their order. Every other queue stays, the slot of the order is the next to be taken,
/// and the order is handed back as it rested.
pub proof fn law_cancelling_closes_the_queue(
    book: BookView,
    order_id: u64,
    side: Side,
    price: u64,
    i: int,
)
    requires
        book.valid(),
        0 <= i < book.queue(side, price).len(),
        book.queue(side, price)[i].order.order_id == order_id,
    ensures
        ({
            let after = book.cancel(order_id);
            let queue = book.queue(side, price);
            &&& book.rests(order_id)
            &&& book.find(order_id) == queue[i].order
            &&& after.queue(side, price) == queue.take(i) + queue.skip(i + 1)
            &&& forall|s: Side, p: u64|
                !(s == side && p == price) ==> #[trigger] after.queue(s, p) == book.queue(s, p)
            &&& after.free == seq![queue[i].slot] + book.free
        }),
{
    let queue = book.queue(side, price);
    assert(book.holds(order_id, side, price, i));
    let (s, p, j) = book.locate(order_id);
    assert(book.holds(order_id, s, p, j));
    book.lemma_with_queue(side, price, queue.remove(i));
    book.with_queue(side, price, queue.remove(i)).lemma_with_free(
        seq![queue[i].slot] + book.free,
    );
    assert(queue.remove(i) =~= queue.take(i) + queue.skip(i + 1));
}

/// Two orders of one queue that are not cancelled keep their order.
pub proof fn law_cancelling_keeps_the_order_of_others(
    book: BookView,
    order_id: u64,
    side: Side,
    price: u64,
    a: int,
    b: int,
)
    requires
        book.valid(),
        book.rests(order_id),
        0 <= a < b < book.queue(side, price).len(),
        book.queue(side, price)[a].order.order_id != order_id,
        book.queue(side, price)[b].order.order_id != order_id,
    ensures
        exists|c: int, d: int|
            0 <= c < d < book.cancel(order_id).queue(side, price).len() && #[trigger] book.cancel(
                order_id,
            ).queue(side, price)[c] == book.queue(side, price)[a] && #[trigger] book.cancel(
                order_id,
            ).queue(side, price)[d] == book.queue(side, price)[b],
{
    let (s, p, i) = book.locate(order_id);
    assert(book.holds(order_id, s, p, i));
    law_cancelling_closes_the_queue(book, order_id, s, p, i);
    let queue = book.queue(side, price);
    let after = book.cancel(order_id).queue(side, price);
    if s == side && p == price {
        let c = if a < i {
            a
        } else {
            a - 1
        };
        let d = if b < i {
            b
        } else {
            b - 1
        };
        assert(after[c] == queue[a] && after[d] == queue[b]);
    } else {
        assert(after[a] == queue[a] && after[b] == queue[b]);
    }
}

/// A new order takes the first free slot, at the end of the queue at its price, and leaves every
/// other order where it is.
pub proof fn law_placing_takes_the_first_free_slot(book: BookView, order: Order)
    requires
        book.refusal(order) is None,
    ensures
        ({
            let after = book.place(order);
            let queue = book.queue(order.side, order.price);
            &&& book.free.len() > 0
            &&& after.free == book.free.skip(1)
            &&& after.queue(order.side, order.price).len() == queue.len() + 1
            &&& after.queue(order.side, order.price).take(queue.len() as int) == queue
            &&& after.queue(order.side, order.price).last().order == order
            &&& after.queue(order.side, order.price).last().slot == book.free[0]
            &&& forall|s: Side, p: u64|
                !(s == order.side && p == order.price) ==> #[trigger] after.queue(s, p)
                    == book.queue(s, p)
        }),
{
    law_placing_queues_last(book, order);
    let queue = book.queue(order.side, order.price);
    let after = book.place(order);
    assert(after.queue(order.side, order.price).take(queue.len() as int) =~= queue);
    assert(after.free =~= book.free.skip(1));
}

/// Some order of the book has an identifier.
proof fn lemma_rests(book: BookView, order_id: u64)
    ensures
        book.rests(order_id) <==> {
            ||| exists|p: u64, i: int|
                #![trigger book.bids[p][i]]
                book.bids.contains_key(p) && 0 <= i < book.bids[p].len()
                    && book.bids[p][i].order.order_id == order_id
            ||| exists|p: u64, i: int|
                #![trigger book.asks[p][i]]
                book.asks.contains_key(p) && 0 <= i < book.asks[p].len()
                    && book.asks[p][i].order.order_id == order_id
        },
{
    if book.rests(order_id) {
        let (s, p, i) = book.locate(order_id);
        assert(book.holds(order_id, s, p, i));
        match s {
            Side::Buy => {
                assert(book.bids[p][i].order.order_id == order_id);
            },
            Side::Sell => {
                assert(book.asks[p][i].order.order_id == order_id);
            },
        }
    }
    if exists|p: u64, i: int|
        #![trigger book.bids[p][i]]
        book.bids.contains_key(p) && 0 <= i < book.bids[p].len()
            && book.bids[p][i].order.order_id == order_id {
        let (p, i) = choose|p: u64, i: int|
            #![trigger book.bids[p][i]]
            book.bids.contains_key(p) && 0 <= i < book.bids[p].len()
                && book.bids[p][i].order.order_id == order_id;
        assert(book.holds(order_id, Side::Buy, p, i));
    }
    if exists|p: u64, i: int|
        #![trigger book.asks[p][i]]
        book.asks.contains_key(p) && 0 <= i < book.asks[p].len()
            && book.asks[p][i].order.order_id == order_id {
        let (p, i) = choose|p: u64, i: int|
            #![trigger book.asks[p][i]]
            book.asks.contains_key(p) && 0 <= i < book.asks[p].len()
                && book.asks[p][i].order.order_id == order_id;
        assert(book.holds(order_id, Side::Sell, p, i));
    }
}

/// The book refuses nothing but an order without a price, one without a quantity, one for which no
/// slot is free, and one whose identifier rests on either side, and it names them in this order.
pub proof fn law_refusals_are_exact(book: BookView, order: Order)
    ensures
        ({
            let known = {
                ||| exists|p: u64, i: int|
                    #![trigger book.bids[p][i]]
                    book.bids.contains_key(p) && 0 <= i < book.bids[p].len()
                        && book.bids[p][i].order.order_id == order.order_id
                ||| exists|p: u64, i: int|
                    #![trigger book.asks[p][i]]
                    book.asks.contains_key(p) && 0 <= i < book.asks[p].len()
                        && book.asks[p][i].order.order_id == order.order_id
            };
            let refusal = book.refusal(order);
            &&& refusal == Some(EngineError::InvalidPrice) <==> order.price == 0
            &&& refusal == Some(EngineError::InvalidQuantity) <==> order.price > 0
                && order.quantity == 0
            &&& refusal == Some(EngineError::BookCapacityExceeded) <==> order.price > 0
                && order.quantity > 0 && book.free.len() == 0
            &&& refusal == Some(EngineError::OrderAlreadyExists) <==> order.price > 0
                && order.quantity > 0 && book.free.len() > 0 && known
            &&& refusal is None <==> order.price > 0 && order.quantity > 0 && book.free.len() > 0
                && !known
        }),
{
    lemma_rests(book, order.order_id);
}

/// The wash-trading check looks at the other side of the book alone, and there at the prices
/// within the limit: a buy order is rejected where a sell order of the same client rests at the
/// limit or below, a sell order where a buy order of the same client rests at the limit or above,
/// and in no other case.
pub proof fn law_wash_trades_are_exact(book: BookView, order: Order)
    ensures
        order.side == Side::Buy ==> (is_wash(order, book) <==> exists|p: u64, i: int|
            #![trigger book.asks[p][i]]
            book.asks.contains_key(p) && p <= order.price && 0 <= i < book.asks[p].len()
                && book.asks[p][i].order.client_id == order.client_id),
        order.side == Side::Sell ==> (is_wash(order, book) <==> exists|p: u64, i: int|
            #![trigger book.bids[p][i]]
            book.bids.contains_key(p) && p >= order.price && 0 <= i < book.bids[p].len()
                && book.bids[p][i].order.client_id == order.client_id),
{
    if is_wash(order, book) {
        let (p, i) = choose|p: u64, i: int| conflict(order, book, p, i);
        assert(conflict(order, book, p, i));
        match order.side {
            Side::Buy => {
                assert(book.asks[p][i].order.client_id == order.client_id);
            },
            Side::Sell => {
                assert(book.bids[p][i].order.client_id == order.client_id);
            },
        }
    }
    if order.side == Side::Buy && exists|p: u64, i: int|
        #![trigger book.asks[p][i]]
        book.asks.contains_key(p) && p <= order.price && 0 <= i < book.asks[p].len()
            && book.asks[p][i].order.client_id == order.client_id {
        let (p, i) = choose|p: u64, i: int|
            #![trigger book.asks[p][i]]
            book.asks.contains_key(p) && p <= order.price && 0 <= i < book.asks[p].len()
                && book.asks[p][i].order.client_id == order.client_id;
        assert(conflict(order, book, p, i));
    }
    if order.side == Side::Sell && exists|p: u64, i: int|
        #![trigger book.bids[p][i]]
        book.bids.contains_key(p) && p >= order.price && 0 <= i < book.bids[p].len()
            && book.bids[p][i].order.client_id == order.client_id {
        let (p, i) = choose|p: u64, i: int|
            #![trigger book.bids[p][i]]
            book.bids.contains_key(p) && p >= order.price && 0 <= i < book.bids[p].len()
                && book.bids[p][i].order.client_id == order.client_id;
        assert(conflict(order, book, p, i));
    }
}

/// An order that the wash-trading check rejects would trade with an order of its own client: where
/// it is matched for so much that it is not filled, and with room to spare, one of its makers has
/// its client.
pub proof fn law_rejected_orders_would_wash(
    book: BookView,
    order: Order,
    quantity: u64,
    room: nat,
)
    requires
        book.valid(),
        is_wash(order, book),
        ({
            let outcome = book.sweep(order.side, order.price, quantity, room);
            outcome.left > 0 && outcome.fills.len() < room
        }),
    ensures
        ({
            let fills = book.sweep(order.side, order.price, quantity, room).fills;
            exists|j: int|
                0 <= j < fills.len() && (#[trigger] fills[j]).maker.order.client_id
                    == order.client_id
        }),
{
    let side = order.side.other();
    let outcome = book.sweep(order.side, order.price, quantity, room);
    let fills = outcome.fills;
    let (p, i) = choose|p: u64, i: int| conflict(order, book, p, i);
    assert(conflict(order, book, p, i));
    let before = book.queue(side, p);
    let after = outcome.book.queue(side, p);
    let here = fills.filter(at_price(p));
    law_matching_is_exhaustive(book, order.side, order.price, quantity, room);
    law_matching_conserves(book, order.side, order.price, quantity, room);
    law_matching_takes_from_the_front(book, order.side, order.price, quantity, room, p);
    lemma_last_execution(book, order.side, order.price, quantity, room);
    assert(!outcome.book.levels(side).contains_key(p));
    assert(after.len() == 0);
    assert(before.skip(here.len() as int).len() == before.len() - here.len());
    assert(i < here.len());
    assert(here[i].maker == before[i]);
    assert(here.contains(here[i]));
    lemma_filtered(fills, p, here[i]);
    let j = choose|j: int| 0 <= j < fills.len() && fills[j] == here[i];
    assert(fills[j].maker.order.client_id == order.client_id);
}

/// What is left of executions at a price is one of them.
proof fn lemma_filtered(fills: Seq<Fill>, price: u64, fill: Fill)
    requires
        fills.filter(at_price(price)).contains(fill),
    ensures
        exists|j: int| 0 <= j < fills.len() && fills[j] == fill,
    decreases fills.len(),
{
    reveal(Seq::filter);
    if fills.len() > 0 {
        let rest = fills.drop_last();
        let kept = rest.filter(at_price(price));
        if kept.contains(fill) {
            lemma_filtered(rest, price, fill);
            let j = choose|j: int| 0 <= j < rest.len() && rest[j] == fill;
            assert(fills[j] == fill);
        } else {
            let here = fills.filter(at_price(price));
            let k = choose|k: int| 0 <= k < here.len() && here[k] == fill;
            if k < kept.len() {
                assert(kept[k] == fill);
            }
            assert(fills[fills.len() - 1] == fill);
        }
    }
}

} // verus!
