//! Tests of the order book.

use dec::book::{OrderBook, PriceLevel, NULL_IDX};
use dec::errors::EngineError;
use dec::model::{Order, Side, Trade};

fn no_trade() -> Trade {
    Trade::new(0, 0, 0, 0, 0, 0, Side::Buy)
}

#[test]
fn test_cross_matching_matching_price() {
    let mut book = OrderBook::new(10);
    let mut trade_counter = 0;
    let mut trades_buffer = [Trade::new(0, 0, 0, 0, 0, 0, Side::Buy); 5];

    // A maker sell order at price 100, quantity 100.
    book.add_order(1, 100, 100, 1, Side::Sell).unwrap();

    // A taker buy order at the same price, quantity 100.
    let mut taker = Order::new(2, 100, 100, 2, Side::Buy);
    let trades_written = book.match_order(&mut taker, &mut trades_buffer, 10, &mut trade_counter);

    assert_eq!(trades_written, 1);
    assert_eq!(taker.quantity, 0);
    assert_eq!(book.len(), 0);
    assert_eq!(trade_counter, 1);

    let trade = trades_buffer[0];
    assert_eq!(trade.trade_id, 1);
    assert_eq!(trade.sequence_id, 10);
    assert_eq!(trade.maker_id, 1);
    assert_eq!(trade.taker_id, 2);
    assert_eq!(trade.price, 100);
    assert_eq!(trade.quantity, 100);
    assert_eq!(trade.side(), Side::Buy);
}

#[test]
fn test_partial_match_and_cancellation() {
    let mut book = OrderBook::new(10);
    let mut trade_counter = 0;
    let mut trades_buffer = [Trade::new(0, 0, 0, 0, 0, 0, Side::Buy); 5];

    // A maker buy order at price 100, quantity 150.
    book.add_order(1, 100, 150, 1, Side::Buy).unwrap();

    // A taker sell order of quantity 100.
    let mut taker = Order::new(2, 100, 100, 2, Side::Sell);
    let trades_written = book.match_order(&mut taker, &mut trades_buffer, 12, &mut trade_counter);

    assert_eq!(trades_written, 1);
    assert_eq!(taker.quantity, 0);
    assert_eq!(book.len(), 1);

    let slot_idx = book.orders_map.lookup(1).unwrap();
    assert_eq!(book.slots[slot_idx as usize].order.quantity, 50);

    let canceled_order = book.cancel_order(1).unwrap();
    assert_eq!(canceled_order.order_id, 1);
    assert_eq!(canceled_order.quantity, 50);
    assert_eq!(book.len(), 0);
}

struct Lcg {
    state: u64,
}

impl Lcg {
    fn new(seed: u64) -> Self {
        Self { state: seed }
    }

    fn next(&mut self) -> u64 {
        self.state =
            self.state.wrapping_mul(6364136223846793005).wrapping_add(1442695040888963407);
        self.state
    }

    fn next_range(&mut self, min: u64, max: u64) -> u64 {
        let range = max - min + 1;
        min + (self.next() % range)
    }
}

#[test]
fn test_order_book_invariants_random() {
    let mut book = OrderBook::new(2000);
    let mut rng = Lcg::new(42);

    let mut total_injected_qty = 0u64;
    let mut total_cancelled_qty = 0u64;
    let mut total_executed_qty = 0u64;

    let mut active_order_ids = Vec::new();
    let mut order_id_counter = 0u64;
    let mut trade_id_counter = 0u64;

    let mut trades_buffer = [Trade::new(0, 0, 0, 0, 0, 0, Side::Buy); 200];

    for _ in 0..10000 {
        // Seven of ten operations add an order, the others cancel one.
        let op = rng.next_range(1, 100);
        if op <= 70 || active_order_ids.is_empty() {
            order_id_counter += 1;
            let price = rng.next_range(90, 110);
            let qty = rng.next_range(1, 100);
            let side = if rng.next_range(0, 1) == 0 { Side::Buy } else { Side::Sell };

            let client_id = rng.next_range(1, 10);
            let mut incoming = Order::new(order_id_counter, price, qty, client_id, side);
            total_injected_qty += qty;

            let trades_written =
                book.match_order(&mut incoming, &mut trades_buffer, 0, &mut trade_id_counter);
            for i in 0..trades_written {
                total_executed_qty += trades_buffer[i].quantity;
            }

            if incoming.quantity > 0 {
                if book.len() < 1000 {
                    let original_qty = incoming.quantity;
                    if book
                        .add_order(
                            incoming.order_id,
                            incoming.price,
                            original_qty,
                            incoming.client_id,
                            incoming.side(),
                        )
                        .is_ok()
                    {
                        active_order_ids.push(incoming.order_id);
                    } else {
                        total_injected_qty -= original_qty;
                    }
                } else {
                    total_cancelled_qty += incoming.quantity;
                }
            }
        } else {
            let index_to_cancel =
                rng.next_range(0, (active_order_ids.len() - 1) as u64) as usize;
            let order_id = active_order_ids.swap_remove(index_to_cancel);

            if let Ok(canceled) = book.cancel_order(order_id) {
                total_cancelled_qty += canceled.quantity;
            }
        }

        let total_resting_qty = book.get_total_quantity_resting();
        let total_accounted = total_cancelled_qty + (2 * total_executed_qty) + total_resting_qty;
        assert_eq!(
            total_injected_qty,
            total_accounted,
            "Invariant failed! Injected: {}, Accounted: {} (Canceled: {}, Executed: {}, Resting: {})",
            total_injected_qty,
            total_accounted,
            total_cancelled_qty,
            total_executed_qty,
            total_resting_qty
        );
    }
}

#[test]
fn a_new_level_has_no_orders() {
    let level = PriceLevel::new(10250);
    assert_eq!(level.price, 10250);
    assert_eq!(level.total_quantity, 0);
    assert_eq!(level.head_idx, NULL_IDX);
    assert_eq!(level.tail_idx, NULL_IDX);
}

#[test]
fn a_new_book_is_empty() {
    let book = OrderBook::new(3);
    assert_eq!(book.len(), 0);
    assert_eq!(book.get_total_quantity_resting(), 0);
    assert_eq!(book.slots().len(), 3);
    assert_eq!(book.free_head(), 0);
    assert_eq!(book.slots[0].next_idx, 1);
    assert_eq!(book.slots[1].next_idx, 2);
    assert_eq!(book.slots[2].next_idx, NULL_IDX);
    assert!(book.bids.is_empty());
    assert!(book.asks.is_empty());
}

#[test]
fn a_book_without_slots_takes_no_order() {
    let mut book = OrderBook::new(0);
    assert_eq!(book.add_order(1, 10, 5, 1, Side::Buy), Err(EngineError::BookCapacityExceeded));
    assert_eq!(book.len(), 0);
}

#[test]
fn orders_without_price_or_quantity_are_refused() {
    let mut book = OrderBook::new(2);
    assert_eq!(book.add_order(1, 0, 0, 1, Side::Buy), Err(EngineError::InvalidPrice));
    assert_eq!(book.add_order(1, 10, 0, 1, Side::Buy), Err(EngineError::InvalidQuantity));
    assert_eq!(book.len(), 0);
}

#[test]
fn a_full_book_refuses_before_it_looks_for_duplicates() {
    let mut book = OrderBook::new(1);
    book.add_order(1, 10, 5, 1, Side::Buy).unwrap();
    assert_eq!(book.add_order(1, 10, 5, 1, Side::Buy), Err(EngineError::BookCapacityExceeded));
    assert_eq!(book.add_order(2, 10, 5, 1, Side::Buy), Err(EngineError::BookCapacityExceeded));
    assert_eq!(book.get_total_quantity_resting(), 5);
}

#[test]
fn an_identifier_rests_once() {
    let mut book = OrderBook::new(4);
    book.add_order(7, 10, 5, 1, Side::Buy).unwrap();
    assert_eq!(book.add_order(7, 11, 6, 1, Side::Sell), Err(EngineError::OrderAlreadyExists));
    assert_eq!(book.len(), 1);
    assert_eq!(book.get_total_quantity_resting(), 5);
    assert_eq!(book.free_head(), 1);
}

#[test]
fn an_unknown_order_cannot_be_cancelled() {
    let mut book = OrderBook::new(2);
    assert_eq!(book.cancel_order(9).err(), Some(EngineError::OrderNotFound));
    book.add_order(9, 10, 5, 1, Side::Buy).unwrap();
    book.cancel_order(9).unwrap();
    assert_eq!(book.cancel_order(9).err(), Some(EngineError::OrderNotFound));
}

#[test]
fn the_first_and_the_last_identifier_are_ordinary() {
    let mut book = OrderBook::new(4);
    book.add_order(0, 10, 5, 1, Side::Buy).unwrap();
    book.add_order(u64::MAX, 11, 6, 2, Side::Buy).unwrap();
    assert_eq!(book.add_order(0, 10, 5, 1, Side::Buy), Err(EngineError::OrderAlreadyExists));
    assert_eq!(
        book.add_order(u64::MAX, 10, 5, 1, Side::Buy),
        Err(EngineError::OrderAlreadyExists)
    );
    assert_eq!(book.cancel_order(u64::MAX).unwrap().quantity, 6);
    assert_eq!(book.cancel_order(0).unwrap().quantity, 5);
    assert_eq!(book.len(), 0);
}

#[test]
fn a_duplicate_is_found_behind_a_removed_entry() {
    // Identifiers 1, 9, 17 and 25 share a home in the table of a book of four orders.
    let mut book = OrderBook::new(4);
    book.add_order(1, 10, 1, 1, Side::Buy).unwrap();
    book.add_order(9, 10, 2, 1, Side::Buy).unwrap();
    book.add_order(17, 10, 3, 1, Side::Buy).unwrap();
    book.cancel_order(1).unwrap();
    assert_eq!(book.add_order(17, 10, 4, 1, Side::Buy), Err(EngineError::OrderAlreadyExists));
    book.add_order(25, 10, 5, 1, Side::Buy).unwrap();
    assert_eq!(book.cancel_order(17).unwrap().quantity, 3);
    assert_eq!(book.cancel_order(25).unwrap().quantity, 5);
    assert_eq!(book.cancel_order(9).unwrap().quantity, 2);
}

#[test]
fn the_index_outlives_many_cancellations() {
    let mut book = OrderBook::new(2);
    for id in 0..1000u64 {
        book.add_order(id, 10, 1, 1, Side::Sell).unwrap();
        assert_eq!(book.cancel_order(id).unwrap().order_id, id);
    }
    assert_eq!(book.cancel_order(5000).err(), Some(EngineError::OrderNotFound));
    assert_eq!(book.len(), 0);
}

#[test]
fn a_level_queues_its_orders_in_order_of_arrival() {
    let mut book = OrderBook::new(4);
    book.add_order(1, 10, 5, 1, Side::Buy).unwrap();
    book.add_order(2, 10, 6, 1, Side::Buy).unwrap();
    book.add_order(3, 10, 7, 1, Side::Buy).unwrap();
    let level = book.bids.get(&10).unwrap();
    assert_eq!(level.total_quantity, 18);
    assert_eq!(level.head_idx, 0);
    assert_eq!(level.tail_idx, 2);
    assert_eq!(book.slots[0].next_idx, 1);
    assert_eq!(book.slots[1].prev_idx, 0);
    assert_eq!(book.slots[1].next_idx, 2);
    assert_eq!(book.slots[2].prev_idx, 1);
    assert_eq!(book.free_head(), 3);

    book.cancel_order(2).unwrap();
    let level = book.bids.get(&10).unwrap();
    assert_eq!(level.total_quantity, 12);
    assert_eq!(book.slots[0].next_idx, 2);
    assert_eq!(book.slots[2].prev_idx, 0);
    assert_eq!(book.free_head(), 1);
    assert_eq!(book.slots[1].next_idx, 3);
    assert!(!book.slots[1].in_use);
    assert_eq!(book.slots[1].order.order_id, 0);

    book.cancel_order(1).unwrap();
    assert_eq!(book.bids.get(&10).unwrap().head_idx, 2);
    book.cancel_order(3).unwrap();
    assert!(!book.bids.contains_key(&10));
}

#[test]
fn matching_follows_price_then_time() {
    let mut book = OrderBook::new(10);
    book.add_order(1, 102, 10, 1, Side::Sell).unwrap();
    book.add_order(2, 101, 20, 2, Side::Sell).unwrap();
    book.add_order(3, 101, 30, 3, Side::Sell).unwrap();
    book.add_order(4, 103, 40, 4, Side::Sell).unwrap();
    let mut counter = 100;
    let mut trades = [no_trade(); 8];
    let mut taker = Order::new(5, 102, 100, 5, Side::Buy);
    assert_eq!(book.match_order(&mut taker, &mut trades, 77, &mut counter), 3);
    let seen: Vec<(u64, u64, u64, u64)> =
        trades[..3].iter().map(|t| (t.trade_id, t.maker_id, t.price, t.quantity)).collect();
    assert_eq!(seen, vec![(101, 2, 101, 20), (102, 3, 101, 30), (103, 1, 102, 10)]);
    assert!(trades[..3].iter().all(|t| t.sequence_id == 77 && t.taker_id == 5));
    assert_eq!(trades[3].trade_id, 0);
    assert_eq!(counter, 103);
    assert_eq!(taker.quantity, 40);
    assert_eq!(book.len(), 1);
    assert!(book.asks.contains_key(&103));
    assert_eq!(book.asks.len(), 1);
}

#[test]
fn a_seller_meets_the_highest_bid_first() {
    let mut book = OrderBook::new(10);
    book.add_order(1, 98, 10, 1, Side::Buy).unwrap();
    book.add_order(2, 100, 10, 2, Side::Buy).unwrap();
    book.add_order(3, 99, 10, 3, Side::Buy).unwrap();
    let mut counter = 0;
    let mut trades = [no_trade(); 8];
    let mut taker = Order::new(4, 99, 15, 4, Side::Sell);
    assert_eq!(book.match_order(&mut taker, &mut trades, 1, &mut counter), 2);
    assert_eq!((trades[0].maker_id, trades[0].price, trades[0].quantity), (2, 100, 10));
    assert_eq!((trades[1].maker_id, trades[1].price, trades[1].quantity), (3, 99, 5));
    assert_eq!(trades[0].side(), Side::Sell);
    assert_eq!(taker.quantity, 0);
    assert_eq!(book.bids.get(&99).unwrap().total_quantity, 5);
    assert_eq!(book.get_total_quantity_resting(), 15);
}

#[test]
fn matching_stops_when_the_record_is_full() {
    let mut book = OrderBook::new(10);
    book.add_order(1, 10, 5, 1, Side::Sell).unwrap();
    book.add_order(2, 10, 5, 2, Side::Sell).unwrap();
    let mut counter = 0;
    let mut trades = [no_trade(); 1];
    let mut taker = Order::new(3, 10, 10, 3, Side::Buy);
    assert_eq!(book.match_order(&mut taker, &mut trades, 1, &mut counter), 1);
    assert_eq!(taker.quantity, 5);
    assert_eq!(book.len(), 1);
    assert_eq!(book.match_order(&mut taker, &mut [], 1, &mut counter), 0);
    assert_eq!(counter, 1);
}

#[test]
fn nothing_trades_beyond_the_limit() {
    let mut book = OrderBook::new(10);
    book.add_order(1, 11, 5, 1, Side::Sell).unwrap();
    book.add_order(2, 9, 5, 1, Side::Buy).unwrap();
    let mut counter = 0;
    let mut trades = [no_trade(); 4];
    let mut buyer = Order::new(3, 10, 10, 3, Side::Buy);
    assert_eq!(book.match_order(&mut buyer, &mut trades, 1, &mut counter), 0);
    let mut seller = Order::new(4, 10, 10, 3, Side::Sell);
    assert_eq!(book.match_order(&mut seller, &mut trades, 1, &mut counter), 0);
    assert_eq!(book.len(), 2);
    assert_eq!((buyer.quantity, seller.quantity, counter), (10, 10, 0));
}

#[test]
fn error_messages() {
    assert_eq!(
        EngineError::InvalidPrice.message(),
        "InvalidPrice: Order price must be greater than zero"
    );
    assert_eq!(
        EngineError::InvalidQuantity.message(),
        "InvalidQuantity: Order quantity must be greater than zero"
    );
    assert_eq!(
        EngineError::OrderAlreadyExists.message(),
        "OrderAlreadyExists: Order ID already exists in the active book"
    );
    assert_eq!(
        EngineError::OrderNotFound.message(),
        "OrderNotFound: Order ID was not found in the active book"
    );
    assert_eq!(
        EngineError::BookCapacityExceeded.message(),
        "BookCapacityExceeded: Maximum pre-allocated slot capacity has been reached"
    );
    assert_eq!(
        EngineError::InvalidStateTransition.message(),
        "InvalidStateTransition: Invalid state transition for active order"
    );
    assert_eq!(
        EngineError::InvalidSide.message(),
        "InvalidSide: Invalid side value provided"
    );
    assert_eq!(
        EngineError::WashTradingViolation.message(),
        "WashTradingViolation: Order rejected due to detected self-matching wash trade pattern"
    );
}
