//! The quote data type and its well-formedness rules.
//!
//! A price is held as an exact count of cents, so the arithmetic on it
//! is total and the wire rendering (two decimal places) is fixed by the
//! value alone.

use vstd::prelude::*;

verus! {

/// Upper bound on a price in cents; prices are clamped here so that the
/// generator's random walk can never overflow.
pub const MAX_PRICE_CENTS: u64 = 1_000_000_000_000_000_000;

/// Representation of a stock quote transmitted over UDP.
#[derive(Debug, Clone, PartialEq)]
pub struct StockQuote {
    /// Uppercase ticker symbol.
    pub ticker: String,
    /// Last traded price in cents (the wire format shows two decimal places).
    pub price_cents: u64,
    /// Trade volume in shares.
    pub volume: u32,
    /// Unix timestamp in milliseconds (UTC).
    pub timestamp: i64,
}

/// The mathematical content of a quote.
pub ghost struct QuoteModel {
    pub ticker: Seq<char>,
    pub price_cents: u64,
    pub volume: u32,
    pub timestamp: i64,
}

impl View for StockQuote {
    type V = QuoteModel;

    open spec fn view(&self) -> QuoteModel {
        QuoteModel {
            ticker: self.ticker@,
            price_cents: self.price_cents,
            volume: self.volume,
            timestamp: self.timestamp,
        }
    }
}

/// A ticker character: an uppercase ASCII letter or an ASCII digit.
pub open spec fn is_ticker_char(c: char) -> bool {
    48 <= c as nat <= 57 || 65 <= c as nat <= 90
}

/// A ticker symbol: one to sixteen ticker characters.
pub open spec fn wf_ticker(t: Seq<char>) -> bool {
    &&& 1 <= t.len() <= 16
    &&& forall|i: int| 0 <= i < t.len() ==> is_ticker_char(#[trigger] t[i])
}

/// A well-formed quote: valid ticker, price at least one cent and
/// within the clamp.
pub open spec fn wf_quote(q: QuoteModel) -> bool {
    &&& wf_ticker(q.ticker)
    &&& 1 <= q.price_cents <= MAX_PRICE_CENTS
}

impl StockQuote {
    /// Convenience constructor producing a quote stamped with the
    /// current UTC time.
    pub fn new(ticker: String, price_cents: u64, volume: u32) -> (q: StockQuote)
        ensures
            q.ticker@ == ticker@,
            q.price_cents == price_cents,
            q.volume == volume,
    {
        StockQuote { ticker, price_cents, volume, timestamp: now_millis() }
    }
}

/// Relies on `chrono::Utc::now` and `chrono::DateTime::timestamp_millis`:
/// the current wall-clock time as milliseconds since the Unix epoch.
/// Nothing is assumed of the value.
#[verifier::external_body]
pub fn now_millis() -> i64 {
    chrono::Utc::now().timestamp_millis()
}

} // verus!
