//! Errors of the matching engine.

use vstd::prelude::*;

verus! {

/// What an engine operation refuses.
#[derive(Debug, Clone, Copy, PartialEq, Eq, Structural)]
pub enum EngineError {
    /// The order price is invalid (zero).
    InvalidPrice,
    /// The order quantity is invalid (zero).
    InvalidQuantity,
    /// The order ID already rests in the book.
    OrderAlreadyExists,
    /// The order ID does not rest in the book.
    OrderNotFound,
    /// Every pre-allocated slot is taken.
    BookCapacityExceeded,
    /// An invalid transition of order state was attempted.
    InvalidStateTransition,
    /// A side value, or the framing around it, is not valid.
    InvalidSide,
    /// The order would trade with a resting order of the same client.
    WashTradingViolation,
}

impl EngineError {
    /// The text that describes an error to an operator.
    pub open spec fn text(self) -> Seq<char> {
        match self {
            EngineError::InvalidPrice => "InvalidPrice: Order price must be greater than zero"@,
            EngineError::InvalidQuantity =>
                "InvalidQuantity: Order quantity must be greater than zero"@,
            EngineError::OrderAlreadyExists =>
                "OrderAlreadyExists: Order ID already exists in the active book"@,
            EngineError::OrderNotFound =>
                "OrderNotFound: Order ID was not found in the active book"@,
            EngineError::BookCapacityExceeded =>
                "BookCapacityExceeded: Maximum pre-allocated slot capacity has been reached"@,
            EngineError::InvalidStateTransition =>
                "InvalidStateTransition: Invalid state transition for active order"@,
            EngineError::InvalidSide => "InvalidSide: Invalid side value provided"@,
            EngineError::WashTradingViolation =>
                "WashTradingViolation: Order rejected due to detected self-matching wash trade pattern"@,
        }
    }

    /// Returns the text that describes this error.
    pub fn message(&self) -> (message: &'static str)
        ensures
            message@ == self.text(),
    {
        match self {
            EngineError::InvalidPrice => "InvalidPrice: Order price must be greater than zero",
            EngineError::InvalidQuantity =>
                "InvalidQuantity: Order quantity must be greater than zero",
            EngineError::OrderAlreadyExists =>
                "OrderAlreadyExists: Order ID already exists in the active book",
            EngineError::OrderNotFound =>
                "OrderNotFound: Order ID was not found in the active book",
            EngineError::BookCapacityExceeded =>
                "BookCapacityExceeded: Maximum pre-allocated slot capacity has been reached",
            EngineError::InvalidStateTransition =>
                "InvalidStateTransition: Invalid state transition for active order",
            EngineError::InvalidSide => "InvalidSide: Invalid side value provided",
            EngineError::WashTradingViolation =>
                "WashTradingViolation: Order rejected due to detected self-matching wash trade pattern",
        }
    }
}

} // verus!
