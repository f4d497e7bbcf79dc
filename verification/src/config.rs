//! The server's configuration values, with the defaulting rules for
//! the optional fields. Reading and decoding the configuration file is
//! the caller's business; this module fixes what the values mean.

use vstd::prelude::*;

use crate::{DEFAULT_KEEPALIVE_TIMEOUT_SECS, DEFAULT_QUOTE_RATE_MS};

verus! {

/// Server configuration.
#[derive(Debug)]
pub struct ServerConfig {
    pub tcp_addr: String,
    pub tickers_file: String,
    pub quote_rate_ms: u64,
    pub keepalive_timeout_secs: u64,
    /// Initial prices in cents, one entry per configured ticker.
    pub initial_prices: Vec<(String, u64)>,
}

impl ServerConfig {
    /// Assembles a configuration from the decoded fields: a missing
    /// quote rate or keepalive window takes its default.
    pub fn from_parts(
        tcp_addr: String,
        tickers_file: String,
        quote_rate_ms: Option<u64>,
        keepalive_timeout_secs: Option<u64>,
        initial_prices: Vec<(String, u64)>,
    ) -> (r: ServerConfig)
        ensures
            r.tcp_addr@ == tcp_addr@,
            r.tickers_file@ == tickers_file@,
            r.quote_rate_ms == (match quote_rate_ms {
                Some(v) => v,
                None => DEFAULT_QUOTE_RATE_MS,
            }),
            r.keepalive_timeout_secs == (match keepalive_timeout_secs {
                Some(v) => v,
                None => DEFAULT_KEEPALIVE_TIMEOUT_SECS,
            }),
            r.initial_prices@ == initial_prices@,
    {
        ServerConfig {
            tcp_addr,
            tickers_file,
            quote_rate_ms: match quote_rate_ms {
                Some(v) => v,
                None => DEFAULT_QUOTE_RATE_MS,
            },
            keepalive_timeout_secs: match keepalive_timeout_secs {
                Some(v) => v,
                None => DEFAULT_KEEPALIVE_TIMEOUT_SECS,
            },
            initial_prices,
        }
    }
}

} // verus!
