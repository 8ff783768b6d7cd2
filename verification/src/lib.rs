//! A single-instrument order-matching engine.
//!
//! Buy and sell intents are matched against a price-ordered book of resting
//! orders under price-time priority, and the resulting asset transfers are
//! settled against per-participant ledger entries.

pub mod currency;
pub mod errors;
pub mod account;
pub mod ledger;
pub mod order;
pub mod tick;
pub mod orderbook;
pub mod app;

use vstd::prelude::*;

verus! {

} // verus!
