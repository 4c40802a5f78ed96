//! Tests of binary snapshots.

use dec::book::OrderBook;
use dec::model::{Order, Side, Trade};
use dec::snapshot::{load_snapshot, save_snapshot, SnapshotError};

#[test]
fn test_binary_state_snapshot_recovery() {
    let mut book_original = OrderBook::new(100);

    book_original.add_order(1, 100, 50, 10, Side::Buy).unwrap();
    book_original.add_order(2, 105, 30, 20, Side::Sell).unwrap();
    book_original.add_order(3, 100, 25, 30, Side::Buy).unwrap();

    let snapshot = save_snapshot(&book_original);

    let mut book_restored = OrderBook::new(100);
    load_snapshot(&mut book_restored, &snapshot).unwrap();

    assert_eq!(book_restored.free_head(), book_original.free_head());
    assert_eq!(book_restored.len(), 3);
    assert_eq!(book_restored.get_total_quantity_resting(), 105);

    assert!(book_restored.bids.contains_key(&100));
    assert!(book_restored.asks.contains_key(&105));

    let restored_bid_level = book_restored.bids.get(&100).unwrap();
    let original_bid_level = book_original.bids.get(&100).unwrap();
    assert_eq!(restored_bid_level.total_quantity, 75);
    assert_eq!(restored_bid_level.head_idx, original_bid_level.head_idx);
    assert_eq!(restored_bid_level.tail_idx, original_bid_level.tail_idx);
}

#[test]
fn a_snapshot_is_the_arena_in_little_endian_bytes() {
    let mut book = OrderBook::new(2);
    book.add_order(0x0102, 0x0304, 5, 6, Side::Sell).unwrap();
    let snapshot = save_snapshot(&book);
    assert_eq!(snapshot.len(), 12 + 2 * 56);
    assert_eq!(snapshot[..4], [1, 0, 0, 0]);
    assert_eq!(snapshot[4..12], [2, 0, 0, 0, 0, 0, 0, 0]);
    let slot = &snapshot[12..68];
    assert_eq!(slot[..8], [2, 1, 0, 0, 0, 0, 0, 0]);
    assert_eq!(slot[8..16], [4, 3, 0, 0, 0, 0, 0, 0]);
    assert_eq!(slot[16..24], [5, 0, 0, 0, 0, 0, 0, 0]);
    assert_eq!(slot[24..32], [6, 0, 0, 0, 0, 0, 0, 0]);
    assert_eq!(slot[32..40], [1, 0, 0, 0, 0, 0, 0, 0]);
    assert_eq!(slot[40..48], [255, 255, 255, 255, 255, 255, 255, 255]);
    assert_eq!(slot[48..56], [1, 0, 0, 0, 0, 0, 0, 0]);
    let free = &snapshot[68..];
    assert_eq!(free[..40], [0; 40]);
    assert_eq!(free[40..48], [255, 255, 255, 255, 255, 255, 255, 255]);
    assert_eq!(free[48..56], [0; 8]);
}

#[test]
fn a_restored_book_goes_on_as_before() {
    let mut book = OrderBook::new(8);
    book.add_order(1, 10, 5, 1, Side::Sell).unwrap();
    book.add_order(2, 10, 6, 2, Side::Sell).unwrap();
    book.add_order(3, 11, 7, 3, Side::Sell).unwrap();
    book.cancel_order(1).unwrap();
    book.add_order(4, 10, 8, 4, Side::Sell).unwrap();

    let mut restored = OrderBook::new(8);
    restored.add_order(99, 1, 1, 1, Side::Buy).unwrap();
    let mut snapshot = save_snapshot(&book);
    snapshot.push(42);
    load_snapshot(&mut restored, &snapshot).unwrap();
    assert!(restored.cancel_order(99).is_err());

    let mut first = [Trade::new(0, 0, 0, 0, 0, 0, Side::Buy); 4];
    let mut second = first;
    let (mut a, mut b) = (0, 0);
    let mut taker = Order::new(5, 11, 20, 5, Side::Buy);
    let mut again = taker;
    assert_eq!(book.match_order(&mut taker, &mut first, 1, &mut a), 3);
    assert_eq!(restored.match_order(&mut again, &mut second, 1, &mut b), 3);
    for i in 0..3 {
        assert_eq!(first[i].maker_id, second[i].maker_id);
        assert_eq!(first[i].quantity, second[i].quantity);
    }
    assert_eq!(taker.quantity, again.quantity);
    assert_eq!(save_snapshot(&book), save_snapshot(&restored));
    assert_eq!(restored.cancel_order(3).unwrap().quantity, 1);
}

#[test]
fn a_book_of_another_size_is_not_loaded() {
    let snapshot = save_snapshot(&OrderBook::new(3));
    let mut book = OrderBook::new(4);
    book.add_order(1, 10, 5, 1, Side::Buy).unwrap();
    assert_eq!(load_snapshot(&mut book, &snapshot), Err(SnapshotError::LengthMismatch));
    assert_eq!(book.len(), 1);
    assert_eq!(book.cancel_order(1).unwrap().quantity, 5);
}

#[test]
fn a_snapshot_that_ends_early_is_not_loaded() {
    let mut book = OrderBook::new(2);
    book.add_order(1, 10, 5, 1, Side::Buy).unwrap();
    let snapshot = save_snapshot(&book);
    for len in [0, 4, 11, 12, 13, 68, snapshot.len() - 1] {
        assert_eq!(
            load_snapshot(&mut book, &snapshot[..len]),
            Err(SnapshotError::UnexpectedEnd)
        );
    }
    assert_eq!(book.get_total_quantity_resting(), 5);
    assert!(load_snapshot(&mut book, &snapshot).is_ok());
}

#[test]
fn a_slot_with_an_unknown_side_or_flag_is_not_loaded() {
    let mut book = OrderBook::new(2);
    let snapshot = save_snapshot(&book);
    for at in [12 + 32, 12 + 48, 68 + 32, 68 + 48] {
        let mut damaged = snapshot.clone();
        damaged[at] = 2;
        assert_eq!(load_snapshot(&mut book, &damaged), Err(SnapshotError::InvalidSlot));
    }
}

#[test]
fn a_level_that_cannot_be_counted_is_not_loaded() {
    let mut book = OrderBook::new(2);
    book.add_order(1, 10, u64::MAX, 1, Side::Buy).unwrap();
    book.add_order(2, 10, 1, 1, Side::Sell).unwrap();
    let mut snapshot = save_snapshot(&book);
    assert!(load_snapshot(&mut book, &snapshot).is_ok());
    snapshot[68 + 32] = 0;
    assert_eq!(load_snapshot(&mut book, &snapshot), Err(SnapshotError::QuantityOverflow));
    assert_eq!(book.len(), 2);
    assert_eq!(book.asks.get(&10).unwrap().total_quantity, 1);
}

#[test]
fn the_first_slot_of_an_identifier_is_indexed() {
    let mut book = OrderBook::new(2);
    book.add_order(1, 10, 5, 1, Side::Buy).unwrap();
    book.add_order(2, 11, 6, 1, Side::Buy).unwrap();
    book.slots[1].order.order_id = 1;
    assert!(book.rebuild_indexes());
    assert_eq!(book.orders_map.lookup(1), Some(0));
    assert_eq!(book.orders_map.lookup(2), None);
    assert_eq!(book.bids.len(), 2);
}

#[test]
fn snapshot_error_messages() {
    assert_eq!(SnapshotError::UnexpectedEnd.message(), "Snapshot ends early");
    assert_eq!(SnapshotError::LengthMismatch.message(), "Snapshot slots length mismatch");
    assert_eq!(SnapshotError::InvalidSlot.message(), "Snapshot slot is invalid");
    assert_eq!(SnapshotError::QuantityOverflow.message(), "Snapshot quantity overflows");
}

#[test]
fn padding_is_kept() {
    let mut book = OrderBook::new(2);
    book.add_order(1, 10, 5, 1, Side::Sell).unwrap();
    let mut snapshot = save_snapshot(&book);
    for i in 0..7 {
        snapshot[12 + 49 + i] = 1 + i as u8;
        snapshot[68 + 49 + i] = 11 + i as u8;
    }
    load_snapshot(&mut book, &snapshot).unwrap();
    assert_eq!(book.slots[0]._padding, [1, 2, 3, 4, 5, 6, 7]);
    assert_eq!(save_snapshot(&book), snapshot);

    book.add_order(2, 10, 5, 1, Side::Sell).unwrap();
    let mut trades = [Trade::new(0, 0, 0, 0, 0, 0, Side::Buy); 2];
    let mut counter = 0;
    let mut taker = Order::new(3, 10, 6, 2, Side::Buy);
    assert_eq!(book.match_order(&mut taker, &mut trades, 1, &mut counter), 2);
    book.cancel_order(2).unwrap();
    assert_eq!(book.slots[0]._padding, [1, 2, 3, 4, 5, 6, 7]);
    assert_eq!(book.slots[1]._padding, [11, 12, 13, 14, 15, 16, 17]);
}
