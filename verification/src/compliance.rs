//! Compliance guard against wash trades.
//!
//! An incoming order is checked before it is matched: an order that could trade with a resting
//! order of the same client is rejected.

use crate::arena::{linked, nth, NULL_IDX};
use crate::book::OrderBook;
use crate::errors::EngineError;
use crate::levels::{ascending, in_price_order, lemma_reversed, lists, PriceLevel};
use crate::model::{Order, Side};
use crate::view::{crosses, BookView};
use vstd::prelude::*;
use vstd::std_specs::iter::IteratorSpec;

verus! {

/// Place `i` of the queue at `price`, on the other side, holds an order of the same client at a
/// price that crosses.
pub open spec fn conflict(order: Order, book: BookView, price: u64, i: int) -> bool {
    let queue = book.queue(order.side.other(), price);
    &&& crosses(order.side, order.price, price)
    &&& 0 <= i < queue.len()
    &&& queue[i].order.client_id == order.client_id
}

/// The order could trade with a resting order of the same client.
pub open spec fn is_wash(order: Order, book: BookView) -> bool {
    exists|price: u64, i: int| conflict(order, book, price, i)
}

/// Returns whether the queue at a price holds an order of `client_id`.
fn queue_has_client(
    book: &OrderBook,
    side: Side,
    price: u64,
    level: &PriceLevel,
    client_id: u64,
) -> (found: bool)
    requires
        book.wf(),
        book.levels(side).contains_key(price),
        book.levels(side)[price] == *level,
    ensures
        found == exists|i: int|
            0 <= i < book@.queue(side, price).len() && #[trigger] book@.queue(
                side,
                price,
            )[i].order.client_id == client_id,
{
    let ghost list = book.queue_list(side, price);
    let ghost queue = book@.queue(side, price);
    let ghost mut i: int = 0;
    proof {
        assert(book.queued(side));
        book.lemma_view_queue(side, price);
    }
    let mut current_idx: u32 = level.head_idx;
    while current_idx != NULL_IDX
        invariant
            book.wf(),
            book.levels(side).contains_key(price),
            list == book.queue_list(side, price),
            queue == book@.queue(side, price),
            0 <= i <= list.len(),
            current_idx == nth(list, i),
            forall|j: int| 0 <= j < i ==> (#[trigger] queue[j]).order.client_id != client_id,
        decreases list.len() - i,
    {
        proof {
            assert(book.queued(side));
            book.lemma_view_queue(side, price);
            assert(linked(book.slots@, list, i));
            assert(list[i] < book.slots@.len());
            assert(queue[i].order == book.slots@[list[i] as int].order);
        }
        let slot = book.slots[current_idx as usize];
        if slot.order.client_id == client_id {
            return true;
        }
        current_idx = slot.next_idx;
        proof {
            i = i + 1;
        }
    }
    proof {
        assert(book.queued(side));
        book.lemma_view_queue(side, price);
        if i < list.len() {
            assert(list[i] < book.slots@.len());
        }
    }
    false
}

/// Checks an incoming order against the resting orders of the book.
///
/// # Errors
/// Returns `EngineError::WashTradingViolation` if the order crosses a resting order of the same
/// client.
pub fn check_order(order: &Order, book: &OrderBook) -> (result: Result<(), EngineError>)
    requires
        book.wf(),
    ensures
        result == if is_wash(*order, book@) {
            Err::<(), EngineError>(EngineError::WashTradingViolation)
        } else {
            Ok::<(), EngineError>(())
        },
{
    let side = order.side();
    let price: u64 = order.price;
    let client_id: u64 = order.client_id;

    match side {
        Side::Buy => {
            let iter = in_price_order(&book.asks);
            for entry in it: iter
                invariant
                    book.wf(),
                    side == Side::Buy,
                    side == order.side,
                    price == order.price,
                    client_id == order.client_id,
                    it.seq() == iter.remaining(),
                    ascending(it.seq()),
                    lists(it.seq(), book.asks@),
                    forall|k: int, i: int|
                        0 <= k < it.index() ==> !#[trigger] conflict(
                            *order,
                            book@,
                            *it.seq()[k].0,
                            i,
                        ),
            {
                if *entry.0 > price {
                    proof {
                        assert forall|p: u64, i: int| !#[trigger] conflict(*order, book@, p, i) by {
                            if conflict(*order, book@, p, i) {
                                assert(book.asks@.contains_key(p));
                                let k = choose|k: int|
                                    0 <= k < it.seq().len() && *(#[trigger] it.seq()[k]).0 == p;
                                assert(!conflict(*order, book@, *it.seq()[k].0, i) || k
                                    >= it.index());
                            }
                        }
                    }
                    return Ok(());
                }
                if queue_has_client(book, Side::Sell, *entry.0, entry.1, client_id) {
                    proof {
                        let queue = book@.queue(Side::Sell, *entry.0);
                        let i = choose|i: int|
                            0 <= i < queue.len() && #[trigger] queue[i].order.client_id
                                == client_id;
                        assert(conflict(*order, book@, *entry.0, i));
                    }
                    return Err(EngineError::WashTradingViolation);
                }
            }
            proof {
                assert forall|p: u64, i: int| !#[trigger] conflict(*order, book@, p, i) by {
                    if conflict(*order, book@, p, i) {
                        let entries = iter.remaining();
                        assert(book.asks@.contains_key(p));
                        let k = choose|k: int|
                            0 <= k < entries.len() && *(#[trigger] entries[k]).0 == p;
                        assert(!conflict(*order, book@, *entries[k].0, i));
                    }
                }
            }
        },
        Side::Sell => {
            let rising = in_price_order(&book.bids);
            let ghost entries = rising;
            let iter = rising.rev();
            proof {
                lemma_reversed(entries.remaining(), book.bids@);
            }
            for entry in it: iter
                invariant
                    book.wf(),
                    side == Side::Sell,
                    side == order.side,
                    price == order.price,
                    client_id == order.client_id,
                    it.seq() == iter.remaining(),
                    ascending(it.seq().reverse()),
                    lists(it.seq(), book.bids@),
                    forall|k: int, i: int|
                        0 <= k < it.index() ==> !#[trigger] conflict(
                            *order,
                            book@,
                            *it.seq()[k].0,
                            i,
                        ),
            {
                if *entry.0 < price {
                    proof {
                        let rising = it.seq().reverse();
                        assert forall|p: u64, i: int| !#[trigger] conflict(*order, book@, p, i) by {
                            if conflict(*order, book@, p, i) {
                                assert(book.bids@.contains_key(p));
                                let k = choose|k: int|
                                    0 <= k < it.seq().len() && *(#[trigger] it.seq()[k]).0 == p;
                                assert(!conflict(*order, book@, *it.seq()[k].0, i) || k
                                    >= it.index());
                                assert(rising[rising.len() - 1 - k] == it.seq()[k]);
                                assert(rising[rising.len() - 1 - it.index()]
                                    == it.seq()[it.index()]);
                            }
                        }
                    }
                    return Ok(());
                }
                if queue_has_client(book, Side::Buy, *entry.0, entry.1, client_id) {
                    proof {
                        let queue = book@.queue(Side::Buy, *entry.0);
                        let i = choose|i: int|
                            0 <= i < queue.len() && #[trigger] queue[i].order.client_id
                                == client_id;
                        assert(conflict(*order, book@, *entry.0, i));
                    }
                    return Err(EngineError::WashTradingViolation);
                }
            }
            proof {
                assert forall|p: u64, i: int| !#[trigger] conflict(*order, book@, p, i) by {
                    if conflict(*order, book@, p, i) {
                        let entries = iter.remaining();
                        assert(book.bids@.contains_key(p));
                        let k = choose|k: int|
                            0 <= k < entries.len() && *(#[trigger] entries[k]).0 == p;
                        assert(!conflict(*order, book@, *entries[k].0, i));
                    }
                }
            }
        },
    }
    Ok(())
}

} // verus!
