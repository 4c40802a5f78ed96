//! The laws of the book on concrete values.

use dec::book::OrderBook;
use dec::bytes::{read_le, write_le};
use dec::compliance::check_order;
use dec::errors::EngineError;
use dec::model::{Order, Side, Trade};
use dec::order_map::OrderMap;
use dec::snapshot::save_snapshot;

fn sample() -> OrderBook {
    let mut book = OrderBook::new(6);
    book.add_order(1, 100, 10, 1, Side::Sell).unwrap();
    book.add_order(2, 101, 20, 2, Side::Sell).unwrap();
    book.add_order(3, 99, 30, 3, Side::Buy).unwrap();
    book.add_order(4, 98, 40, 4, Side::Buy).unwrap();
    book
}

fn record() -> [Trade; 8] {
    [Trade::new(0, 0, 0, 0, 0, 0, Side::Buy); 8]
}

#[test]
fn cancelling_undoes_placing() {
    let mut book = sample();
    let before = save_snapshot(&book);
    book.add_order(5, 99, 50, 5, Side::Buy).unwrap();
    assert_eq!(book.get_total_quantity_resting(), 150);
    assert_eq!(book.len(), 5);
    assert_eq!(book.cancel_order(5).unwrap().quantity, 50);
    assert_eq!(save_snapshot(&book), before);
    assert_eq!(book.get_total_quantity_resting(), 100);
}

#[test]
fn cancelling_spares_other_orders() {
    let mut book = sample();
    book.cancel_order(3).unwrap();
    assert!(book.cancel_order(3).is_err());
    assert_eq!(book.len(), 3);
    assert_eq!(book.get_total_quantity_resting(), 70);
    for (id, quantity) in [(1, 10), (2, 20), (4, 40)] {
        assert_eq!(book.cancel_order(id).unwrap().quantity, quantity);
    }
}

#[test]
fn matching_conserves_quantity() {
    let mut book = sample();
    let mut trades = record();
    let mut counter = 0;
    let mut taker = Order::new(9, 101, 25, 9, Side::Buy);
    let n = book.match_order(&mut taker, &mut trades, 1, &mut counter);
    let executed: u64 = trades[..n].iter().map(|t| t.quantity).sum();
    assert_eq!(executed, 25);
    assert_eq!(taker.quantity + executed, 25);
    assert_eq!(book.get_total_quantity_resting() + executed, 100);
}

#[test]
fn books_stay_uncrossed() {
    let mut book = sample();
    let mut trades = record();
    let mut counter = 0;
    let mut taker = Order::new(9, 100, 25, 9, Side::Buy);
    assert_eq!(book.match_order(&mut taker, &mut trades, 1, &mut counter), 1);
    assert_eq!(taker.quantity, 15);
    book.add_order(9, 100, taker.quantity, 9, Side::Buy).unwrap();
    let best_bid = *book.bids.keys().next_back().unwrap();
    let best_ask = *book.asks.keys().next().unwrap();
    assert_eq!((best_bid, best_ask), (100, 101));
}

#[test]
fn every_slot_is_accounted_for() {
    let mut book = sample();
    for _ in 0..3 {
        let mut free = 0;
        let mut at = book.free_head();
        while (at as usize) < book.slots().len() {
            free += 1;
            at = book.slots()[at as usize].next_idx;
        }
        assert_eq!(free + book.len(), 6);
        let first = book.slots.iter().find(|slot| slot.in_use).unwrap().order.order_id;
        book.cancel_order(first).unwrap();
    }
}

#[test]
fn an_order_that_passes_the_check_is_no_wash_trade() {
    let mut book = sample();
    let mut trades = record();
    let mut counter = 0;
    let mut taker = Order::new(9, 100, 25, 2, Side::Buy);
    assert!(check_order(&taker, &book).is_ok());
    let n = book.match_order(&mut taker, &mut trades, 1, &mut counter);
    assert_eq!(n, 1);
    assert_eq!(trades[0].maker_id, 1);
    let wider = Order::new(10, 101, 25, 2, Side::Buy);
    assert!(check_order(&wider, &book).is_err());
}

#[test]
fn volume_is_conserved() {
    let mut book = OrderBook::new(4);
    let mut trades = record();
    let mut counter = 0;
    let (mut injected, mut cancelled, mut executed) = (0, 0, 0);
    for (id, price, quantity, side) in [
        (1, 10, 7, Side::Sell),
        (2, 11, 5, Side::Sell),
        (3, 11, 9, Side::Buy),
        (4, 9, 4, Side::Buy),
        (5, 8, 6, Side::Sell),
    ] {
        let mut order = Order::new(id, price, quantity, id, side);
        injected += quantity;
        let n = book.match_order(&mut order, &mut trades, id, &mut counter);
        executed += trades[..n].iter().map(|t| t.quantity).sum::<u64>();
        if book.add_order(id, price, order.quantity, id, side).is_err() {
            cancelled += order.quantity;
        }
        let resting = book.get_total_quantity_resting();
        assert_eq!(injected, cancelled + 2 * executed + resting);
    }
    cancelled += book.cancel_order(2).unwrap().quantity;
    assert_eq!((injected, cancelled, executed), (31, 3, 13));
    assert_eq!(book.get_total_quantity_resting(), 2);
}

#[test]
fn bytes_are_little_endian() {
    let mut out = vec![9];
    write_le(&mut out, 0x01020304, 4);
    assert_eq!(out, vec![9, 4, 3, 2, 1]);
    assert_eq!(read_le(&out, 1, 4), 0x01020304);
    assert_eq!(read_le(&out, 0, 0), 0);
    let all = [255u8; 8];
    assert_eq!(read_le(&all, 0, 8), u64::MAX);
}

#[test]
fn the_index_is_a_map() {
    let mut map = OrderMap::new(3);
    assert_eq!(map.capacity, 8);
    assert!(map.insert(5, 1).is_ok());
    assert!(map.insert(5, 2).is_err());
    assert!(map.insert(13, 2).is_ok());
    assert_eq!(map.lookup(5), Some(1));
    assert!(map.remove(5));
    assert!(!map.remove(5));
    assert_eq!(map.lookup(5), None);
    assert_eq!(map.lookup(13), Some(2));
    assert!(map.insert(13, 3).is_err());
    assert_eq!(OrderMap::new(0).capacity, 2);
    assert_eq!(OrderMap::new(4).capacity, 8);
    assert_eq!(OrderMap::new(5).capacity, 16);
}

#[test]
fn matching_spares_the_rest() {
    let mut book = sample();
    let mut trades = record();
    let mut counter = 0;
    let mut taker = Order::new(9, 100, 50, 9, Side::Buy);
    assert_eq!(book.match_order(&mut taker, &mut trades, 1, &mut counter), 1);
    assert!(!book.asks.contains_key(&100));
    assert_eq!(book.asks.get(&101).unwrap().total_quantity, 20);
    assert_eq!(book.bids.get(&99).unwrap().total_quantity, 30);
    assert_eq!(book.bids.get(&98).unwrap().total_quantity, 40);
    assert_eq!(book.match_order(&mut taker, &mut trades, 1, &mut counter), 0);
    assert_eq!(taker.quantity, 40);
}

#[test]
fn matching_in_parts_is_matching() {
    let mut whole = sample();
    let mut parts = sample();
    let mut first = record();
    let mut second = record();
    let (mut a, mut b) = (0, 0);
    let mut taker = Order::new(9, 101, 25, 9, Side::Buy);
    let mut again = taker;
    assert_eq!(whole.match_order(&mut taker, &mut first[..2], 1, &mut a), 2);
    assert_eq!(parts.match_order(&mut again, &mut second[..1], 1, &mut b), 1);
    assert_eq!(again.quantity, 15);
    assert_eq!(parts.match_order(&mut again, &mut second[1..2], 1, &mut b), 1);
    assert_eq!((taker.quantity, a), (again.quantity, b));
    for i in 0..2 {
        assert_eq!(first[i].trade_id, second[i].trade_id);
        assert_eq!(first[i].maker_id, second[i].maker_id);
        assert_eq!(first[i].quantity, second[i].quantity);
    }
    assert_eq!(save_snapshot(&whole), save_snapshot(&parts));
}

#[test]
fn matching_ignores_slots() {
    let mut book = sample();
    let mut moved = OrderBook::new(6);
    moved.add_order(4, 98, 40, 4, Side::Buy).unwrap();
    moved.add_order(2, 101, 20, 2, Side::Sell).unwrap();
    moved.add_order(1, 100, 10, 1, Side::Sell).unwrap();
    moved.add_order(3, 99, 30, 3, Side::Buy).unwrap();
    let mut first = record();
    let mut second = record();
    let (mut a, mut b) = (0, 0);
    let mut taker = Order::new(9, 101, 25, 9, Side::Buy);
    let mut again = taker;
    assert_eq!(book.match_order(&mut taker, &mut first, 1, &mut a), 2);
    assert_eq!(moved.match_order(&mut again, &mut second, 1, &mut b), 2);
    for i in 0..2 {
        assert_eq!(first[i].maker_id, second[i].maker_id);
        assert_eq!(first[i].quantity, second[i].quantity);
    }
    assert_eq!(taker.quantity, again.quantity);
    assert_eq!(book.get_total_quantity_resting(), moved.get_total_quantity_resting());
}

#[test]
fn the_capacity_is_exact() {
    let mut book = OrderBook::new(5);
    for id in 0..5 {
        assert_eq!(book.add_order(id, 10 + id, 1, 1, Side::Buy), Ok(()));
    }
    assert_eq!(book.len(), 5);
    assert_eq!(
        book.add_order(5, 10, 1, 1, Side::Sell),
        Err(EngineError::BookCapacityExceeded)
    );
    book.cancel_order(3).unwrap();
    assert_eq!(book.add_order(5, 10, 1, 1, Side::Sell), Ok(()));
}

#[test]
fn orders_are_accounted_for() {
    // Four additions, one cancellation, one maker filled and one reduced.
    let mut book = sample();
    let mut trades = record();
    let mut counter = 0;
    book.cancel_order(4).unwrap();
    let mut taker = Order::new(9, 101, 25, 9, Side::Buy);
    assert_eq!(book.match_order(&mut taker, &mut trades, 1, &mut counter), 2);
    assert_eq!(book.len(), 4 - 1 - 1);
}

#[test]
fn dropping_is_submitting_and_cancelling() {
    let mut dropped = sample();
    let mut cancelled = sample();
    let mut trades = record();
    let (mut a, mut b) = (0, 0);
    let mut order = Order::new(9, 100, 25, 9, Side::Buy);
    let mut again = order;
    assert_eq!(dropped.match_order(&mut order, &mut trades, 1, &mut a), 1);
    assert_eq!(cancelled.match_order(&mut again, &mut trades, 1, &mut b), 1);
    cancelled.add_order(9, 100, again.quantity, 9, Side::Buy).unwrap();
    assert_eq!(cancelled.cancel_order(9).unwrap().quantity, order.quantity);
    assert_eq!(order.quantity, 15);
    assert_eq!(save_snapshot(&dropped), save_snapshot(&cancelled));
}
