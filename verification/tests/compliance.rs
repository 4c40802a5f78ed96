//! Tests of the wash-trading check.

use dec::book::OrderBook;
use dec::compliance::check_order;
use dec::errors::EngineError;
use dec::model::{Order, Side};

#[test]
fn test_wash_trading_prevention() {
    let mut book = OrderBook::new(10);

    // A resting sell order of client 100.
    book.add_order(1, 10, 50, 100, Side::Sell).unwrap();

    // Another client may buy.
    let incoming_allowed = Order::new(2, 10, 50, 200, Side::Buy);
    assert!(check_order(&incoming_allowed, &book).is_ok());

    // The same client may not.
    let incoming_violation = Order::new(3, 10, 50, 100, Side::Buy);
    assert_eq!(
        check_order(&incoming_violation, &book),
        Err(EngineError::WashTradingViolation)
    );
}

#[test]
fn only_prices_within_the_limit_count() {
    let mut book = OrderBook::new(10);
    book.add_order(1, 12, 50, 100, Side::Sell).unwrap();
    book.add_order(2, 8, 50, 100, Side::Buy).unwrap();
    assert!(check_order(&Order::new(3, 11, 5, 100, Side::Buy), &book).is_ok());
    assert!(check_order(&Order::new(3, 9, 5, 100, Side::Sell), &book).is_ok());
    assert_eq!(
        check_order(&Order::new(3, 12, 5, 100, Side::Buy), &book),
        Err(EngineError::WashTradingViolation)
    );
    assert_eq!(
        check_order(&Order::new(3, 8, 5, 100, Side::Sell), &book),
        Err(EngineError::WashTradingViolation)
    );
}

#[test]
fn orders_behind_others_count() {
    let mut book = OrderBook::new(10);
    book.add_order(1, 10, 50, 1, Side::Buy).unwrap();
    book.add_order(2, 9, 50, 2, Side::Buy).unwrap();
    book.add_order(3, 9, 50, 100, Side::Buy).unwrap();
    assert_eq!(
        check_order(&Order::new(4, 9, 5, 100, Side::Sell), &book),
        Err(EngineError::WashTradingViolation)
    );
    assert!(check_order(&Order::new(4, 10, 5, 100, Side::Sell), &book).is_ok());
    assert!(check_order(&Order::new(4, 20, 5, 100, Side::Buy), &book).is_ok());
}
