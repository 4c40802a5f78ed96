//! Orders, trades and the two sides of the market.
//!
//! Prices and quantities are fixed-point integers (scaled by 10,000).

use vstd::prelude::*;

verus! {

/// The side of the market that an order stands on.
#[derive(Debug, Clone, Copy, PartialEq, Eq, Structural)]
pub enum Side {
    /// The order buys (a bid).
    Buy,
    /// The order sells (an ask).
    Sell,
}

impl Side {
    /// The side that an order of this side trades against.
    pub open spec fn other(self) -> Side {
        match self {
            Side::Buy => Side::Sell,
            Side::Sell => Side::Buy,
        }
    }

    /// Returns the side that an order of this side trades against.
    pub fn opposite(self) -> (side: Side)
        ensures
            side == self.other(),
    {
        match self {
            Side::Buy => Side::Sell,
            Side::Sell => Side::Buy,
        }
    }
}

/// A limit order.
#[derive(Debug, Clone, Copy, PartialEq, Eq, Structural)]
pub struct Order {
    /// Identifier of the order.
    pub order_id: u64,
    /// Limit price.
    pub price: u64,
    /// Quantity that is still open.
    pub quantity: u64,
    /// Identifier of the client that sent the order.
    pub client_id: u64,
    /// Side of the order.
    pub side: Side,
}

impl Order {
    /// Creates an order.
    pub fn new(order_id: u64, price: u64, quantity: u64, client_id: u64, side: Side) -> (order:
        Order)
        ensures
            order == (Order { order_id, price, quantity, client_id, side }),
    {
        Order { order_id, price, quantity, client_id, side }
    }

    /// Returns the side of the order.
    pub fn side(&self) -> (side: Side)
        ensures
            side == self.side,
    {
        self.side
    }
}

/// One execution between a resting order (the maker) and an incoming one (the taker).
#[derive(Debug, Clone, Copy, PartialEq, Eq, Structural)]
pub struct Trade {
    /// Identifier of the trade.
    pub trade_id: u64,
    /// Sequencer stamp of the incoming order.
    pub sequence_id: u64,
    /// Order ID of the maker.
    pub maker_id: u64,
    /// Order ID of the taker.
    pub taker_id: u64,
    /// Execution price: the limit of the maker.
    pub price: u64,
    /// Executed quantity.
    pub quantity: u64,
    /// Side of the taker.
    pub side: Side,
}

impl Trade {
    /// Creates a trade record.
    pub fn new(
        trade_id: u64,
        sequence_id: u64,
        maker_id: u64,
        taker_id: u64,
        price: u64,
        quantity: u64,
        side: Side,
    ) -> (trade: Trade)
        ensures
            trade == (Trade { trade_id, sequence_id, maker_id, taker_id, price, quantity, side }),
    {
        Trade { trade_id, sequence_id, maker_id, taker_id, price, quantity, side }
    }

    /// Returns the side of the taker.
    pub fn side(&self) -> (side: Side)
        ensures
            side == self.side,
    {
        self.side
    }
}

} // verus!
