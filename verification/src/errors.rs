//! The engine's recoverable error kinds.

use vstd::prelude::*;

verus! {

/// Why a ledger or matching operation was refused.
///
/// Both kinds are returned as recoverable results and propagated unchanged up
/// to the caller of `Orderbook::handle_order`; the engine performs no retries
/// and no internal recovery.
#[derive(PartialEq, Eq, Structural, Copy, Clone, Debug)]
pub enum BookError {
    /// A balance could not cover a withdrawal or an escrow.
    InsufficientFunds,
    /// A non-limit order was handed to a resting-order queue.
    InvalidOrderType,
}

impl BookError {
    /// A human-readable description of the error.
    pub fn message(&self) -> (r: &'static str)
        ensures
            *self is InsufficientFunds ==> r@ == "Insufficient funds"@,
            *self is InvalidOrderType ==> r@ == "Order is not a limit order"@,
    {
        match self {
            BookError::InsufficientFunds => "Insufficient funds",
            BookError::InvalidOrderType => "Order is not a limit order",
        }
    }
}

} // verus!
