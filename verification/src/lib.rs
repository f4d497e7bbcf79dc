//! Verified core of a market-data streaming service: the wire formats
//! (quote datagrams and the line-oriented subscription protocol), the
//! quote generator's price/volume rules, and the dispatcher's subscriber
//! directory with its keepalive and eviction logic.

pub mod cli;
pub mod codec;
pub mod config;
pub mod dispatcher;
pub mod errors;
pub mod generator;
pub mod net;
pub mod protocol;
pub mod quote;
pub mod tickers;
pub mod text;

use vstd::prelude::*;

verus! {

/// Default quote generation interval in milliseconds.
pub const DEFAULT_QUOTE_RATE_MS: u64 = 1_000;

/// Default keepalive timeout in seconds on the server.
pub const DEFAULT_KEEPALIVE_TIMEOUT_SECS: u64 = 5;

/// Interval in seconds for client PING messages.
pub const PING_INTERVAL_SECS: u64 = 2;

/// Default initial price in cents when configuration omits a ticker.
pub const DEFAULT_INITIAL_PRICE_CENTS: u64 = 10_000;

} // verus!
