//! A minimal single-market order-matching core.
//!
//! Resting limit orders are grouped by exact price into price levels
//! (`Limit`); incoming market orders consume resting liquidity in price
//! priority (best price first) and, within a price level, in time priority
//! (first in, first out). A `MatchingEngine` maps a `TradingPair` to its
//! `OrderBook` and routes order placement.
//!
//! Prices and order sizes are exact fixed-point quantities: callers pick a
//! minor unit (for example thousandths) and pass integer multiples of it, so
//! price keys compare exactly and "filled" is an exact comparison with zero.

pub mod engine;
pub mod orderbook;
