//! The quote generator: a per-ticker random walk on prices held in
//! exact cents, and volumes drawn from a range that depends on the
//! ticker's popularity.
//!
//! One step multiplies the price by a factor drawn uniformly from the
//! open interval (-2%, +2%) in steps of a hundredth of a percent,
//! rounds half away from zero to whole cents, and clamps the result
//! between one cent and the price cap.

use vstd::prelude::*;
use vstd::string::StrSliceExecFns;

use crate::quote::{wf_quote, wf_ticker, StockQuote, MAX_PRICE_CENTS};
use crate::text::str_eq;
use crate::DEFAULT_INITIAL_PRICE_CENTS;

verus! {

/// A ticker with a higher simulated volume.
pub open spec fn is_popular(t: Seq<char>) -> bool {
    t == "AAPL"@ || t == "MSFT"@ || t == "TSLA"@
}

/// First index whose key reads as `t`; the length when absent.
pub open spec fn find_key(keys: Seq<Seq<char>>, t: Seq<char>, from: int) -> int
    decreases keys.len() - from,
{
    if from < 0 || from >= keys.len() {
        keys.len() as int
    } else if keys[from] == t {
        from
    } else {
        find_key(keys, t, from + 1)
    }
}

pub proof fn lemma_find_key(keys: Seq<Seq<char>>, t: Seq<char>, from: int)
    requires
        0 <= from <= keys.len(),
    ensures
        from <= find_key(keys, t, from) <= keys.len(),
        find_key(keys, t, from) < keys.len() ==> keys[find_key(keys, t, from)] == t,
        forall|j: int| from <= j < find_key(keys, t, from) ==> keys[j] != t,
    decreases keys.len() - from,
{
    if from < keys.len() && keys[from] != t {
        lemma_find_key(keys, t, from + 1);
    }
}

/// Clamp a cent count between one cent and the price cap.
pub open spec fn clamp_cents(v: int) -> u64 {
    if v < 1 {
        1u64
    } else if v > MAX_PRICE_CENTS {
        MAX_PRICE_CENTS
    } else {
        v as u64
    }
}

/// One random-walk step: scale by `1 + d/10000`, round half away from
/// zero to whole cents, clamp.
pub open spec fn price_step(prev: u64, d: int) -> u64 {
    clamp_cents((prev * (10000 + d) + 5000) / 10000)
}

/// Generates stock quotes for a fixed ticker list, holding the last
/// price of each distinct ticker.
pub struct QuoteGenerator {
    tickers: Vec<String>,
    price_keys: Vec<String>,
    price_vals: Vec<u64>,
    quote_interval_ms: u64,
}

impl QuoteGenerator {
    /// The generator's invariant: one price per distinct ticker,
    /// every price within bounds, every ticker well formed.
    pub closed spec fn wf(self) -> bool {
        &&& self.price_keys@.len() == self.price_vals@.len()
        &&& forall|i: int, j: int|
            0 <= i < j < self.price_keys@.len() ==> self.price_keys.deep_view()[i]
                != self.price_keys.deep_view()[j]
        &&& forall|i: int|
            0 <= i < self.price_vals@.len() ==> 1 <= #[trigger] self.price_vals@[i]
                <= MAX_PRICE_CENTS
        &&& forall|i: int|
            0 <= i < self.tickers@.len() ==> find_key(
                self.price_keys.deep_view(),
                #[trigger] self.tickers.deep_view()[i],
                0,
            ) < self.price_keys@.len()
        &&& forall|i: int|
            0 <= i < self.tickers@.len() ==> wf_ticker(#[trigger] self.tickers.deep_view()[i])
    }

    /// The price held for ticker `t`.
    pub closed spec fn spec_price(self, t: Seq<char>) -> Option<u64> {
        let i = find_key(self.price_keys.deep_view(), t, 0);
        if i < self.price_keys@.len() {
            Some(self.price_vals@[i])
        } else {
            None
        }
    }

    pub closed spec fn spec_tickers(self) -> Seq<Seq<char>> {
        self.tickers.deep_view()
    }

    pub closed spec fn spec_interval_ms(self) -> u64 {
        self.quote_interval_ms
    }

    /// The tick interval in milliseconds.
    pub fn interval_ms(&self) -> (r: u64)
        ensures
            r == self.spec_interval_ms(),
    {
        self.quote_interval_ms
    }

    /// The price currently held for `ticker`, in cents.
    pub fn price_of(&self, ticker: &str) -> (r: Option<u64>)
        requires
            self.wf(),
        ensures
            r == self.spec_price(ticker@),
    {
        let idx = find_key_index(&self.price_keys, ticker);
        proof {
            lemma_find_key(self.price_keys.deep_view(), ticker@, 0);
        }
        if idx < self.price_keys.len() {
            Some(self.price_vals[idx])
        } else {
            None
        }
    }

    /// The ticker list, in generation order.
    pub fn tickers(&self) -> (r: &Vec<String>)
        ensures
            r.deep_view() == self.spec_tickers(),
    {
        &self.tickers
    }
}

/// First price paired with `t` in `pairs`, if any.
pub open spec fn pairs_find(pairs: Seq<(String, u64)>, t: Seq<char>, from: int) -> Option<u64>
    decreases pairs.len() - from,
{
    if from < 0 || from >= pairs.len() {
        None
    } else if pairs[from].0@ == t {
        Some(pairs[from].1)
    } else {
        pairs_find(pairs, t, from + 1)
    }
}

/// Looks up the first price paired with `t`.
fn pairs_lookup(pairs: &Vec<(String, u64)>, t: &str, from: usize) -> (r: Option<u64>)
    requires
        from <= pairs@.len(),
    ensures
        r == pairs_find(pairs@, t@, from as int),
    decreases pairs@.len() - from,
{
    if from < pairs.len() {
        if str_eq(pairs[from].0.as_str(), t) {
            Some(pairs[from].1)
        } else {
            pairs_lookup(pairs, t, from + 1)
        }
    } else {
        None
    }
}

/// Finds the index of `t` among the held price keys.
fn find_key_index(keys: &Vec<String>, t: &str) -> (r: usize)
    ensures
        r == find_key(keys.deep_view(), t@, 0),
{
    let n = keys.len();
    let mut i: usize = 0;
    while i < n
        invariant
            n == keys@.len(),
            i <= n,
            forall|j: int| 0 <= j < i ==> keys.deep_view()[j] != t@,
        decreases n - i,
    {
        if str_eq(keys[i].as_str(), t) {
            proof {
                assert(keys.deep_view()[i as int] == t@);
                lemma_find_key(keys.deep_view(), t@, 0);
                lemma_find_key_prefix(keys.deep_view(), t@, i as int);
            }
            return i;
        }
        i = i + 1;
    }
    proof {
        lemma_find_key(keys.deep_view(), t@, 0);
        lemma_find_key_prefix(keys.deep_view(), t@, n as int);
    }
    n
}

/// When the first `from` keys differ from `t`, the search result is at
/// or after `from`.
pub proof fn lemma_find_key_prefix(keys: Seq<Seq<char>>, t: Seq<char>, upto: int)
    requires
        0 <= upto <= keys.len(),
        forall|j: int| 0 <= j < upto ==> keys[j] != t,
    ensures
        find_key(keys, t, 0) >= upto,
{
    lemma_find_key_skip(keys, t, 0, upto);
}

pub proof fn lemma_find_key_skip(keys: Seq<Seq<char>>, t: Seq<char>, from: int, upto: int)
    requires
        0 <= from <= upto <= keys.len(),
        forall|j: int| from <= j < upto ==> keys[j] != t,
    ensures
        find_key(keys, t, from) >= upto,
    decreases upto - from,
{
    lemma_find_key(keys, t, from);
    if from < upto {
        lemma_find_key_skip(keys, t, from + 1, upto);
    }
}

/// Relies on `rand::random_range` over an `i64` range: a uniform
/// sample in `[low, high)`.
#[verifier::external_body]
fn sample_range_i64(low: i64, high: i64) -> (r: i64)
    requires
        low < high,
    ensures
        low <= r < high,
{
    rand::random_range(low..high)
}

/// Relies on `rand::random_range` over a `u32` range: a uniform
/// sample in `[low, high)`.
#[verifier::external_body]
fn sample_range_u32(low: u32, high: u32) -> (r: u32)
    requires
        low < high,
    ensures
        low <= r < high,
{
    rand::random_range(low..high)
}

impl QuoteGenerator {
    /// Create a new generator, seeding each distinct ticker's price
    /// from the configured pairs (first entry wins) or the default,
    /// clamped to the valid price range.
    pub fn new(
        tickers: Vec<String>,
        initial_prices: &Vec<(String, u64)>,
        quote_rate_ms: Option<u64>,
    ) -> (r: QuoteGenerator)
        requires
            forall|i: int| 0 <= i < tickers@.len() ==> wf_ticker(#[trigger] tickers.deep_view()[i]),
        ensures
            r.wf(),
            r.spec_tickers() == tickers.deep_view(),
            r.spec_interval_ms() == (match quote_rate_ms {
                Some(ms) => ms,
                None => crate::DEFAULT_QUOTE_RATE_MS,
            }),
            forall|i: int|
                0 <= i < tickers@.len() ==> r.spec_price(#[trigger] tickers.deep_view()[i])
                    == Some(
                    clamp_cents(
                        (match pairs_find(initial_prices@, tickers.deep_view()[i], 0) {
                            Some(v) => v,
                            None => DEFAULT_INITIAL_PRICE_CENTS,
                        }) as int,
                    ),
                ),
    {
        let mut price_keys: Vec<String> = Vec::new();
        let mut price_vals: Vec<u64> = Vec::new();
        let n = tickers.len();
        let mut i: usize = 0;
        while i < n
            invariant
                n == tickers@.len(),
                i <= n,
                price_keys@.len() == price_vals@.len(),
                forall|a: int, b: int|
                    0 <= a < b < price_keys@.len() ==> price_keys.deep_view()[a]
                        != price_keys.deep_view()[b],
                forall|a: int|
                    0 <= a < price_vals@.len() ==> 1 <= #[trigger] price_vals@[a]
                        <= MAX_PRICE_CENTS,
                forall|a: int|
                    0 <= a < price_keys@.len() ==> exists|b: int|
                        0 <= b < i && #[trigger] price_keys.deep_view()[a]
                            == tickers.deep_view()[b],
                forall|a: int|
                    0 <= a < i ==> {
                        let k = find_key(
                            price_keys.deep_view(),
                            #[trigger] tickers.deep_view()[a],
                            0,
                        );
                        &&& k < price_keys@.len()
                        &&& price_vals@[k] == clamp_cents(
                            (match pairs_find(initial_prices@, tickers.deep_view()[a], 0) {
                                Some(v) => v,
                                None => DEFAULT_INITIAL_PRICE_CENTS,
                            }) as int,
                        )
                    },
            decreases n - i,
        {
            let t = &tickers[i];
            let ghost keys0 = price_keys.deep_view();
            let ghost vals0 = price_vals@;
            let idx = find_key_index(&price_keys, t.as_str());
            proof {
                lemma_find_key(keys0, t@, 0);
                assert(t@ == tickers.deep_view()[i as int]);
            }
            if idx == price_keys.len() {
                let seed = match pairs_lookup(initial_prices, t.as_str(), 0) {
                    Some(v) => v,
                    None => DEFAULT_INITIAL_PRICE_CENTS,
                };
                let clamped: u64 = if seed < 1 {
                    1
                } else if seed > MAX_PRICE_CENTS {
                    MAX_PRICE_CENTS
                } else {
                    seed
                };
                price_keys.push(t.clone());
                price_vals.push(clamped);
                proof {
                    let keys1 = price_keys.deep_view();
                    assert(keys1 =~~= keys0.push(t@));
                    assert(price_vals@ =~= vals0.push(clamped));
                    assert(clamped == clamp_cents(
                        (match pairs_find(initial_prices@, t@, 0) {
                            Some(v) => v,
                            None => DEFAULT_INITIAL_PRICE_CENTS,
                        }) as int,
                    ));
                    assert(forall|j: int| 0 <= j < keys0.len() ==> #[trigger] keys0[j] != t@);
                    assert forall|a: int, b: int|
                        0 <= a < b < keys1.len() implies keys1[a] != keys1[b] by {
                        if b == keys1.len() - 1 {
                            assert(keys1[a] == keys0[a]);
                            assert(keys1[b] == t@);
                        } else {
                            assert(keys1[a] == keys0[a] && keys1[b] == keys0[b]);
                        }
                    }
                    assert forall|a: int|
                        0 <= a < i + 1 implies {
                        let k = find_key(keys1, #[trigger] tickers.deep_view()[a], 0);
                        &&& k < keys1.len()
                        &&& price_vals@[k] == clamp_cents(
                            (match pairs_find(initial_prices@, tickers.deep_view()[a], 0) {
                                Some(v) => v,
                                None => DEFAULT_INITIAL_PRICE_CENTS,
                            }) as int,
                        )
                    } by {
                        let ta = tickers.deep_view()[a];
                        lemma_find_key(keys0, ta, 0);
                        lemma_find_key_push(keys0, ta, t@);
                        if a < i {
                            let k0 = find_key(keys0, ta, 0);
                            assert(k0 < keys0.len());
                            assert(find_key(keys1, ta, 0) == k0);
                            assert(price_vals@[k0] == vals0[k0]);
                        } else {
                            assert(ta == t@);
                            assert(find_key(keys0, ta, 0) == keys0.len());
                            assert(find_key(keys1, ta, 0) == keys0.len() as int);
                            assert(price_vals@[keys0.len() as int] == clamped);
                        }
                    }
                }
            } else {
                proof {
                    let keys1 = price_keys.deep_view();
                    assert(keys1 == keys0);
                    let ta = tickers.deep_view()[i as int];
                    assert(keys0[idx as int] == ta);
                    assert(exists|b: int| 0 <= b < i && #[trigger] tickers.deep_view()[b] == keys0[idx as int]) by {
                        assert(exists|b: int|
                            0 <= b < i && #[trigger] keys0[idx as int] == tickers.deep_view()[b]);
                    }
                    assert forall|a: int|
                        0 <= a < i + 1 implies {
                        let k = find_key(keys1, #[trigger] tickers.deep_view()[a], 0);
                        &&& k < keys1.len()
                        &&& price_vals@[k] == clamp_cents(
                            (match pairs_find(initial_prices@, tickers.deep_view()[a], 0) {
                                Some(v) => v,
                                None => DEFAULT_INITIAL_PRICE_CENTS,
                            }) as int,
                        )
                    } by {
                        if a == i {
                            let b = choose|b: int|
                                0 <= b < i && #[trigger] tickers.deep_view()[b] == keys0[idx as int];
                            assert(tickers.deep_view()[b] == ta);
                            assert({
                                let k = find_key(keys1, tickers.deep_view()[b], 0);
                                &&& k < keys1.len()
                                &&& price_vals@[k] == clamp_cents(
                                    (match pairs_find(
                                        initial_prices@,
                                        tickers.deep_view()[b],
                                        0,
                                    ) {
                                        Some(v) => v,
                                        None => DEFAULT_INITIAL_PRICE_CENTS,
                                    }) as int,
                                )
                            });
                        }
                    }
                }
            }
            i = i + 1;
        }
        let interval = match quote_rate_ms {
            Some(ms) => ms,
            None => crate::DEFAULT_QUOTE_RATE_MS,
        };
        QuoteGenerator { tickers, price_keys, price_vals, quote_interval_ms: interval }
    }
}

/// After pushing a fresh key, searches for other keys are unchanged
/// and the fresh key is found at the end.
pub proof fn lemma_find_key_push(keys: Seq<Seq<char>>, t: Seq<char>, k: Seq<char>)
    ensures
        find_key(keys, t, 0) < keys.len() ==> find_key(keys.push(k), t, 0) == find_key(keys, t, 0),
        find_key(keys, t, 0) == keys.len() && k == t ==> find_key(keys.push(k), t, 0)
            == keys.len(),
        find_key(keys, t, 0) == keys.len() && k != t ==> find_key(keys.push(k), t, 0) == keys.len()
            + 1,
{
    lemma_find_key_push_from(keys, t, k, 0);
}

pub proof fn lemma_find_key_push_from(keys: Seq<Seq<char>>, t: Seq<char>, k: Seq<char>, from: int)
    requires
        0 <= from <= keys.len(),
    ensures
        find_key(keys, t, from) < keys.len() ==> find_key(keys.push(k), t, from) == find_key(
            keys,
            t,
            from,
        ),
        find_key(keys, t, from) == keys.len() && k == t ==> find_key(keys.push(k), t, from)
            == keys.len(),
        find_key(keys, t, from) == keys.len() && k != t ==> find_key(keys.push(k), t, from)
            == keys.len() + 1,
    decreases keys.len() - from,
{
    if from < keys.len() {
        assert(keys.push(k)[from] == keys[from]);
        if keys[from] != t {
            lemma_find_key_push_from(keys, t, k, from + 1);
        }
    } else {
        assert(keys.push(k)[from] == k);
        if k != t {
            assert(find_key(keys.push(k), t, from + 1) == keys.push(k).len());
        }
    }
}

impl QuoteGenerator {
    /// Advance the held price of `ticker` by one random-walk step and
    /// return the new price in cents.
    pub fn next_price(&mut self, ticker: &str) -> (r: u64)
        requires
            old(self).wf(),
            old(self).spec_price(ticker@) is Some,
        ensures
            final(self).wf(),
            final(self).spec_tickers() == old(self).spec_tickers(),
            final(self).spec_interval_ms() == old(self).spec_interval_ms(),
            exists|d: int|
                -199 <= d <= 199 && r == #[trigger] price_step(
                    old(self).spec_price(ticker@)->Some_0,
                    d,
                ),
            final(self).spec_price(ticker@) == Some(r),
            forall|t: Seq<char>|
                t != ticker@ ==> final(self).spec_price(t) == old(self).spec_price(t),
    {
        let idx = find_key_index(&self.price_keys, ticker);
        proof {
            lemma_find_key(self.price_keys.deep_view(), ticker@, 0);
        }
        let prev = self.price_vals[idx];
        proof {
            assert(1 <= prev <= MAX_PRICE_CENTS);
        }
        let d = sample_range_i64(-199, 200);
        let factor: u64 = (10000 + d) as u64;
        proof {
            assert((prev as int) * (factor as int) <= (MAX_PRICE_CENTS as int) * 10199)
                by (nonlinear_arith)
                requires
                    1 <= prev <= MAX_PRICE_CENTS,
                    factor <= 10199,
            ;
        }
        let num: u128 = (prev as u128) * (factor as u128) + 5000;
        let rounded: u128 = num / 10000;
        let r: u64 = if rounded < 1 {
            1
        } else if rounded > MAX_PRICE_CENTS as u128 {
            MAX_PRICE_CENTS
        } else {
            rounded as u64
        };
        self.price_vals[idx] = r;
        proof {
            assert(r == price_step(prev, d as int));
            assert(prev == old(self).spec_price(ticker@)->Some_0);
            assert(exists|dd: int|
                -199 <= dd <= 199 && r == #[trigger] price_step(
                    old(self).spec_price(ticker@)->Some_0,
                    dd,
                )) by {
                assert(-199 <= d as int <= 199 && r == price_step(
                    old(self).spec_price(ticker@)->Some_0,
                    d as int,
                ));
            }
            let keys = self.price_keys.deep_view();
            assert forall|t: Seq<char>|
                t != ticker@ implies final(self).spec_price(t) == old(self).spec_price(t) by {
                lemma_find_key(keys, t, 0);
                if find_key(keys, t, 0) < keys.len() {
                    assert(keys[find_key(keys, t, 0)] == t);
                    assert(find_key(keys, t, 0) != idx);
                }
            }
        }
        r
    }

    /// Draw a volume for `ticker`: a popular symbol draws from
    /// `[1000, 6001)`, any other from `[100, 1101)`.
    pub fn next_volume(&self, ticker: &str) -> (r: u32)
        ensures
            is_popular(ticker@) ==> 1000 <= r < 6001,
            !is_popular(ticker@) ==> 100 <= r < 1101,
    {
        let popular = str_eq(ticker, "AAPL") || str_eq(ticker, "MSFT") || str_eq(ticker, "TSLA");
        if popular {
            sample_range_u32(1000, 6001)
        } else {
            sample_range_u32(100, 1101)
        }
    }

    /// One tick: a fresh quote for every ticker in list order, each
    /// well formed, each stepping that ticker's held price.
    pub fn tick(&mut self) -> (r: Vec<StockQuote>)
        requires
            old(self).wf(),
        ensures
            final(self).wf(),
            final(self).spec_tickers() == old(self).spec_tickers(),
            final(self).spec_interval_ms() == old(self).spec_interval_ms(),
            r@.len() == old(self).spec_tickers().len(),
            forall|i: int|
                0 <= i < r@.len() ==> {
                    &&& (#[trigger] r@[i])@.ticker == old(self).spec_tickers()[i]
                    &&& wf_quote(r@[i]@)
                    &&& (is_popular(r@[i]@.ticker) ==> 1000 <= r@[i]@.volume < 6001)
                    &&& (!is_popular(r@[i]@.ticker) ==> 100 <= r@[i]@.volume < 1101)
                },
            forall|i: int|
                0 <= i < r@.len() && (forall|j: int|
                    i < j < r@.len() ==> r@[j]@.ticker != r@[i]@.ticker)
                    ==> final(self).spec_price((#[trigger] r@[i])@.ticker)
                    == Some(r@[i]@.price_cents),
    {
        let mut out: Vec<StockQuote> = Vec::new();
        let n = self.tickers.len();
        let mut i: usize = 0;
        while i < n
            invariant
                self.wf(),
                self.spec_tickers() == old(self).spec_tickers(),
                self.spec_interval_ms() == old(self).spec_interval_ms(),
                n == self.tickers@.len(),
                i <= n,
                out@.len() == i,
                forall|k: int|
                    0 <= k < i ==> {
                        &&& (#[trigger] out@[k])@.ticker == old(self).spec_tickers()[k]
                        &&& wf_quote(out@[k]@)
                        &&& (is_popular(out@[k]@.ticker) ==> 1000 <= out@[k]@.volume < 6001)
                        &&& (!is_popular(out@[k]@.ticker) ==> 100 <= out@[k]@.volume < 1101)
                    },
                forall|k: int|
                    0 <= k < i && (forall|j: int|
                        k < j < i ==> out@[j]@.ticker != out@[k]@.ticker) ==> self.spec_price(
                        (#[trigger] out@[k])@.ticker,
                    ) == Some(out@[k]@.price_cents),
            decreases n - i,
        {
            let t = self.tickers[i].clone();
            proof {
                assert(t@ == self.spec_tickers()[i as int]);
                assert(self.spec_price(t@) is Some);
            }
            let ghost pre = *self;
            let price = self.next_price(t.as_str());
            proof {
                assert(self.spec_tickers() == old(self).spec_tickers());
                assert(self.tickers.deep_view().len() == self.tickers@.len());
                assert(old(self).tickers.deep_view().len() == old(self).tickers@.len());
            }
            let volume = self.next_volume(t.as_str());
            let q = StockQuote::new(t, price, volume);
            proof {
                assert(wf_ticker(q@.ticker));
                assert(1 <= q@.price_cents <= MAX_PRICE_CENTS);
            }
            let ghost out_pre = out@;
            out.push(q);
            proof {
                assert forall|k: int|
                    0 <= k < i + 1 && (forall|j: int|
                        k < j < i + 1 ==> out@[j]@.ticker != out@[k]@.ticker) implies self.spec_price(
                    (#[trigger] out@[k])@.ticker,
                ) == Some(out@[k]@.price_cents) by {
                    if k < i {
                        assert(out@[k] == out_pre[k]);
                        assert(out@[i as int] == q);
                        assert(q@.ticker == t@);
                        assert(out_pre[k]@.ticker != t@);
                        assert(forall|j: int|
                            k < j < i ==> out_pre[j]@.ticker != out_pre[k]@.ticker) by {
                            assert(forall|j: int| k < j < i ==> out@[j] == out_pre[j]);
                        }
                        assert(pre.spec_price(out_pre[k]@.ticker) == Some(
                            out_pre[k]@.price_cents,
                        ));
                        assert(self.spec_price(out_pre[k]@.ticker) == pre.spec_price(
                            out_pre[k]@.ticker,
                        ));
                    } else {
                        assert(out@[k] == q);
                        assert(q@.ticker == t@);
                        assert(self.spec_price(t@) == Some(price));
                    }
                }
            }
            i = i + 1;
        }
        out
    }
}

} // verus!
