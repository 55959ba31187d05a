//! A single-instrument limit order book and matching engine.
//!
//! Incoming buy and sell orders are matched against resting liquidity under
//! price-time priority.  Resting interest is split across four books
//! (bid-limit, ask-limit, bid-market, ask-market) kept consistent with a
//! registry of live orders; a continuous crossing engine fills incoming
//! orders, and a call auction computes a batch equilibrium price.

pub mod order;
pub mod key;
pub mod book;
pub mod registry;
pub mod order_book;
pub mod auction;
pub mod merge;
