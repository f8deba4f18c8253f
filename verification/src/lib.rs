//! Matching core of a single-symbol, price-time-priority limit order book.
//!
//! Prices are integer tick indices on a fixed axis derived from the
//! configuration. Resting liquidity lives in per-tick FIFO queues of ledger
//! indices; the ledger is a slab of live orders; a dense bitset per side
//! summarises which ticks hold liquidity so the matcher can skip empty
//! levels.

pub mod enums;
pub mod fixed_price_order_book;
pub mod ledger;
pub mod models;
pub mod traits;
