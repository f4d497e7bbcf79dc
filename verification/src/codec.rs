//! The UDP quote datagram format: one compact JSON object per datagram,
//! fields in the fixed order `ticker, price, volume, timestamp`.
//!
//! The encoder renders the price with two decimal places, dropping a
//! trailing zero digit (`150.25`, `150.2`, `150.0`), as a shortest-form
//! JSON number printer does for values rounded to two decimals. The
//! decoder accepts exactly this shape and returns the decoded quote;
//! decoding an encoded well-formed quote gives the quote back.

use vstd::prelude::*;
use vstd::string::StrSliceExecFns;
use vstd::string::StringExecFns;

use crate::quote::{is_ticker_char, wf_quote, wf_ticker, QuoteModel, StockQuote, MAX_PRICE_CENTS};
use crate::text::{all_ascii, all_digits, ascii_bytes, dec_bytes, dec_val, digit_run_len, is_digit, parse_dec_u64, scan_digits};

verus! {

pub open spec fn lit_header() -> Seq<u8> {
    ascii_bytes("{\"ticker\":\""@)
}

pub open spec fn lit_price() -> Seq<u8> {
    ascii_bytes("\",\"price\":"@)
}

pub open spec fn lit_volume() -> Seq<u8> {
    ascii_bytes(",\"volume\":"@)
}

pub open spec fn lit_timestamp() -> Seq<u8> {
    ascii_bytes(",\"timestamp\":"@)
}

pub open spec fn lit_close() -> Seq<u8> {
    ascii_bytes("}"@)
}

/// The fractional part of a price in cents: two decimal digits, with a
/// trailing zero dropped (so always one or two digits, never empty).
pub open spec fn frac_bytes(c: u64) -> Seq<u8> {
    if c % 100 == 0 {
        seq![48u8]
    } else if c % 10 == 0 {
        seq![((c % 100) / 10 + 48) as u8]
    } else {
        seq![((c % 100) / 10 + 48) as u8, (c % 10 + 48) as u8]
    }
}

/// The rendering of a price in cents: whole part, a dot, then the
/// fractional digits.
pub open spec fn price_bytes(c: u64) -> Seq<u8> {
    dec_bytes((c / 100) as nat) + seq![46u8] + frac_bytes(c)
}

/// The rendering of a timestamp: a minus sign for negative values,
/// then the decimal digits of the magnitude.
pub open spec fn ts_bytes(t: i64) -> Seq<u8> {
    if t >= 0 {
        dec_bytes(t as nat)
    } else {
        seq![45u8] + dec_bytes((-(t as int)) as nat)
    }
}

/// The complete datagram for a quote.
pub open spec fn spec_encode_quote(q: QuoteModel) -> Seq<u8> {
    lit_header() + ascii_bytes(q.ticker) + lit_price() + price_bytes(q.price_cents) + lit_volume()
        + dec_bytes(q.volume as nat) + lit_timestamp() + ts_bytes(q.timestamp) + lit_close()
}

/// Appends the bytes of an ASCII string.
pub fn push_ascii_str(out: &mut Vec<u8>, s: &str)
    requires
        all_ascii(s@),
    ensures
        final(out)@ == old(out)@ + ascii_bytes(s@),
{
    let n = s.unicode_len();
    let mut i: usize = 0;
    while i < n
        invariant
            all_ascii(s@),
            n == s@.len(),
            i <= n,
            out@ == old(out)@ + ascii_bytes(s@).take(i as int),
        decreases n - i,
    {
        let c = s.get_char(i);
        let x = c as u32;
        proof {
            assert((s@[i as int] as nat) < 128);
        }
        out.push(x as u8);
        proof {
            assert(out@ =~= old(out)@ + ascii_bytes(s@).take(i + 1));
        }
        i = i + 1;
    }
    proof {
        assert(ascii_bytes(s@).take(n as int) =~= ascii_bytes(s@));
    }
}

/// Appends the price rendering of a cent count.
pub fn push_price(out: &mut Vec<u8>, c: u64)
    ensures
        final(out)@ == old(out)@ + price_bytes(c),
{
    crate::text::push_dec_u64(out, c / 100);
    out.push(46);
    let frac = c % 100;
    if frac == 0 {
        out.push(48);
    } else if frac % 10 == 0 {
        out.push((frac / 10) as u8 + 48);
    } else {
        out.push((frac / 10) as u8 + 48);
        out.push((frac % 10) as u8 + 48);
    }
    proof {
        assert(out@ =~= old(out)@ + price_bytes(c));
    }
}

/// Appends the timestamp rendering.
pub fn push_ts(out: &mut Vec<u8>, t: i64)
    ensures
        final(out)@ == old(out)@ + ts_bytes(t),
{
    if t >= 0 {
        crate::text::push_dec_u64(out, t as u64);
    } else {
        out.push(45);
        let wide: i128 = t as i128;
        let mag: u64 = (-wide) as u64;
        crate::text::push_dec_u64(out, mag);
        proof {
            assert(out@ =~= old(out)@ + ts_bytes(t));
        }
    }
}

/// Serializes a quote into its UDP datagram.
pub fn encode_quote(q: &StockQuote) -> (r: Vec<u8>)
    requires
        wf_quote(q@),
    ensures
        r@ == spec_encode_quote(q@),
{
    let mut out: Vec<u8> = Vec::new();
    proof {
        assert(all_ascii("{\"ticker\":\""@)) by {
            reveal_strlit("{\"ticker\":\"");
        }
        assert(all_ascii("\",\"price\":"@)) by {
            reveal_strlit("\",\"price\":");
        }
        assert(all_ascii(",\"volume\":"@)) by {
            reveal_strlit(",\"volume\":");
        }
        assert(all_ascii(",\"timestamp\":"@)) by {
            reveal_strlit(",\"timestamp\":");
        }
        assert(all_ascii("}"@)) by {
            reveal_strlit("}");
        }
    }
    push_ascii_str(&mut out, "{\"ticker\":\"");
    let t: &str = q.ticker.as_str();
    proof {
        assert forall|i: int| 0 <= i < t@.len() implies (#[trigger] t@[i] as nat) < 128 by {
            assert(crate::quote::is_ticker_char(t@[i]));
        }
    }
    push_ascii_str(&mut out, t);
    push_ascii_str(&mut out, "\",\"price\":");
    push_price(&mut out, q.price_cents);
    push_ascii_str(&mut out, ",\"volume\":");
    crate::text::push_dec_u64(&mut out, q.volume as u64);
    push_ascii_str(&mut out, ",\"timestamp\":");
    push_ts(&mut out, q.timestamp);
    push_ascii_str(&mut out, "}");
    proof {
        assert(out@ =~= spec_encode_quote(q@));
    }
    out
}

/// A byte that may appear in a ticker symbol: an uppercase ASCII
/// letter or an ASCII digit.
pub open spec fn is_ticker_byte(b: u8) -> bool {
    48 <= b <= 57 || 65 <= b <= 90
}

/// Length of the run of ticker bytes in `b` that starts at `from`.
pub open spec fn ticker_run_len(b: Seq<u8>, from: int) -> nat
    decreases b.len() - from,
{
    if from < 0 || from >= b.len() || !is_ticker_byte(b[from]) {
        0
    } else {
        1 + ticker_run_len(b, from + 1)
    }
}

pub proof fn lemma_ticker_run(b: Seq<u8>, from: int)
    requires
        0 <= from <= b.len(),
    ensures
        from + ticker_run_len(b, from) <= b.len(),
        forall|j: int|
            from <= j < from + ticker_run_len(b, from) ==> is_ticker_byte(#[trigger] b[j]),
        from + ticker_run_len(b, from) < b.len() ==> !is_ticker_byte(
            b[from + ticker_run_len(b, from)],
        ),
    decreases b.len() - from,
{
    if from < b.len() && is_ticker_byte(b[from]) {
        lemma_ticker_run(b, from + 1);
    }
}

pub proof fn lemma_ticker_run_exact(b: Seq<u8>, from: int, k: int)
    requires
        0 <= from,
        0 <= k,
        from + k <= b.len(),
        forall|j: int| from <= j < from + k ==> is_ticker_byte(#[trigger] b[j]),
        from + k == b.len() || !is_ticker_byte(b[from + k]),
    ensures
        ticker_run_len(b, from) == k,
    decreases k,
{
    if k > 0 {
        assert(is_ticker_byte(b[from]));
        lemma_ticker_run_exact(b, from + 1, k - 1);
    }
}

/// Index just past the run of ticker bytes that starts at `from`.
pub fn scan_ticker(b: &[u8], from: usize) -> (end: usize)
    requires
        from <= b@.len(),
    ensures
        end == from + ticker_run_len(b@, from as int),
    decreases b@.len() - from,
{
    if from < b.len() && (48 <= b[from] && b[from] <= 57 || 65 <= b[from] && b[from] <= 90) {
        scan_ticker(b, from + 1)
    } else {
        from
    }
}

/// `lit` occurs in `b` at position `i`.
pub open spec fn has_at(b: Seq<u8>, i: int, lit: Seq<u8>) -> bool {
    0 <= i && i + lit.len() <= b.len() && b.subrange(i, i + lit.len()) == lit
}

/// Whether the bytes of the ASCII string `lit` occur in `b` at `i`.
pub fn match_at(b: &[u8], i: usize, lit: &str) -> (r: bool)
    requires
        all_ascii(lit@),
        i <= b@.len(),
    ensures
        r == has_at(b@, i as int, ascii_bytes(lit@)),
{
    let n = lit.unicode_len();
    if n > b.len() - i {
        return false;
    }
    let mut j: usize = 0;
    while j < n
        invariant
            all_ascii(lit@),
            n == lit@.len(),
            i + n <= b@.len(),
            i + n <= usize::MAX,
            j <= n,
            forall|k: int| 0 <= k < j ==> b@[i + k] == ascii_bytes(lit@)[k],
        decreases n - j,
    {
        let c = lit.get_char(j);
        let x = c as u32;
        proof {
            assert((lit@[j as int] as nat) < 128);
        }
        if b[i + j] != x as u8 {
            proof {
                assert(b@.subrange(i as int, i + n) != ascii_bytes(lit@)) by {
                    assert(b@.subrange(i as int, i + n)[j as int] != ascii_bytes(lit@)[j as int]);
                }
            }
            return false;
        }
        j = j + 1;
    }
    proof {
        assert(b@.subrange(i as int, i + n) =~= ascii_bytes(lit@));
    }
    true
}

/// Largest magnitude of a negative timestamp.
pub const I64_MIN_MAG: u64 = 0x8000_0000_0000_0000;

/// The quote denoted by a datagram, if any: the fixed field order with a
/// non-empty ticker of at most sixteen ticker characters, a price with
/// one or two decimal digits that lands between one cent and the clamp,
/// a volume that fits 32 bits, and a timestamp that fits 64 signed bits.
pub open spec fn spec_parse_quote(b: Seq<u8>) -> Option<QuoteModel> {
    let t0 = lit_header().len() as int;
    let tlen = ticker_run_len(b, t0) as int;
    let ticker = b.subrange(t0, t0 + tlen);
    let p_lit = t0 + tlen;
    let p0 = p_lit + lit_price().len() as int;
    let ilen = digit_run_len(b, p0) as int;
    let whole = dec_val(b.subrange(p0, p0 + ilen));
    let dot = p0 + ilen;
    let f0 = dot + 1;
    let flen = digit_run_len(b, f0) as int;
    let fval = dec_val(b.subrange(f0, f0 + flen));
    let cents = whole * 100 + if flen == 1 {
        fval * 10
    } else {
        fval
    };
    let v_lit = f0 + flen;
    let v0 = v_lit + lit_volume().len() as int;
    let vlen = digit_run_len(b, v0) as int;
    let vol = dec_val(b.subrange(v0, v0 + vlen));
    let s_lit = v0 + vlen;
    let s0 = s_lit + lit_timestamp().len() as int;
    let neg = s0 < b.len() && b[s0] == 45;
    let m0 = if neg {
        s0 + 1
    } else {
        s0
    };
    let mlen = digit_run_len(b, m0) as int;
    let mag = dec_val(b.subrange(m0, m0 + mlen));
    let ts: int = if neg {
        -(mag as int)
    } else {
        mag as int
    };
    let e0 = m0 + mlen;
    if {
        &&& has_at(b, 0, lit_header())
        &&& 1 <= tlen <= 16
        &&& has_at(b, p_lit, lit_price())
        &&& 1 <= ilen <= 17
        &&& dot < b.len() && b[dot] == 46
        &&& 1 <= flen <= 2
        &&& 1 <= cents <= MAX_PRICE_CENTS
        &&& has_at(b, v_lit, lit_volume())
        &&& 1 <= vlen <= 19
        &&& vol <= u32::MAX
        &&& has_at(b, s_lit, lit_timestamp())
        &&& 1 <= mlen <= 19
        &&& (if neg {
            mag <= I64_MIN_MAG
        } else {
            mag <= i64::MAX
        })
        &&& has_at(b, e0, lit_close())
        &&& e0 + 1 == b.len()
    } {
        Some(
            QuoteModel {
                ticker: ticker.map(|_j: int, x: u8| x as char),
                price_cents: cents as u64,
                volume: vol as u32,
                timestamp: ts as i64,
            },
        )
    } else {
        None
    }
}

/// Deserializes a quote datagram; returns `None` exactly when the bytes
/// do not denote a quote.
#[verifier::rlimit(100)]
pub fn decode_quote(payload: &[u8]) -> (r: Option<StockQuote>)
    ensures
        match r {
            Some(q) => spec_parse_quote(payload@) == Some(q@) && wf_quote(q@),
            None => spec_parse_quote(payload@) is None,
        },
{
    let b = payload;
    let blen: usize = b.len();
    proof {
        assert(b@.len() == blen <= usize::MAX);
        assert(all_ascii("{\"ticker\":\""@)) by {
            reveal_strlit("{\"ticker\":\"");
        }
        assert(all_ascii("\",\"price\":"@)) by {
            reveal_strlit("\",\"price\":");
        }
        assert(all_ascii(",\"volume\":"@)) by {
            reveal_strlit(",\"volume\":");
        }
        assert(all_ascii(",\"timestamp\":"@)) by {
            reveal_strlit(",\"timestamp\":");
        }
        assert(all_ascii("}"@)) by {
            reveal_strlit("}");
        }
        reveal_with_fuel(crate::text::pow10, 20);
    }
    if !match_at(b, 0, "{\"ticker\":\"") {
        return None;
    }
    let t0 = "{\"ticker\":\"".unicode_len();
    proof {
        assert(t0 == lit_header().len());
    }
    let tend = scan_ticker(b, t0);
    proof {
        lemma_ticker_run(b@, t0 as int);
    }
    let tlen = tend - t0;
    if tlen < 1 || tlen > 16 {
        return None;
    }
    let mut tbytes: Vec<u8> = Vec::new();
    let mut i: usize = t0;
    while i < tend
        invariant
            t0 <= i <= tend <= b@.len(),
            tbytes@ =~= b@.subrange(t0 as int, i as int),
            forall|j: int| t0 <= j < tend ==> is_ticker_byte(#[trigger] b@[j]),
        decreases tend - i,
    {
        tbytes.push(b[i]);
        proof {
            assert(tbytes@ =~= b@.subrange(t0 as int, i + 1));
        }
        i = i + 1;
    }
    let ticker = crate::text::ascii_to_string(tbytes);
    if !match_at(b, tend, "\",\"price\":") {
        return None;
    }
    let p0 = tend + "\",\"price\":".unicode_len();
    let dend = scan_digits(b, p0);
    proof {
        crate::text::lemma_digit_run(b@, p0 as int);
        crate::text::lemma_dec_val_bound(b@.subrange(p0 as int, dend as int));
    }
    let ilen = dend - p0;
    if ilen < 1 || ilen > 17 {
        return None;
    }
    let whole = parse_dec_u64(b, p0, dend);
    if !(dend < b.len() && b[dend] == 46) {
        return None;
    }
    let f0 = dend + 1;
    let fend = scan_digits(b, f0);
    proof {
        crate::text::lemma_digit_run(b@, f0 as int);
        crate::text::lemma_dec_val_bound(b@.subrange(f0 as int, fend as int));
    }
    let flen = fend - f0;
    if flen < 1 || flen > 2 {
        return None;
    }
    let fval = parse_dec_u64(b, f0, fend);
    let cents = whole * 100 + (if flen == 1 {
        fval * 10
    } else {
        fval
    });
    if cents < 1 || cents > MAX_PRICE_CENTS {
        return None;
    }
    if !match_at(b, fend, ",\"volume\":") {
        return None;
    }
    let v0 = fend + ",\"volume\":".unicode_len();
    let vend = scan_digits(b, v0);
    proof {
        crate::text::lemma_digit_run(b@, v0 as int);
        crate::text::lemma_dec_val_bound(b@.subrange(v0 as int, vend as int));
    }
    let vlen = vend - v0;
    if vlen < 1 || vlen > 19 {
        return None;
    }
    let vol = parse_dec_u64(b, v0, vend);
    if vol > u32::MAX as u64 {
        return None;
    }
    if !match_at(b, vend, ",\"timestamp\":") {
        return None;
    }
    let s0 = vend + ",\"timestamp\":".unicode_len();
    let neg = s0 < b.len() && b[s0] == 45;
    let m0 = if neg {
        s0 + 1
    } else {
        s0
    };
    let mend = scan_digits(b, m0);
    proof {
        crate::text::lemma_digit_run(b@, m0 as int);
        crate::text::lemma_dec_val_bound(b@.subrange(m0 as int, mend as int));
    }
    let mlen = mend - m0;
    if mlen < 1 || mlen > 19 {
        return None;
    }
    let mag = parse_dec_u64(b, m0, mend);
    let ts: i64;
    if neg {
        if mag > I64_MIN_MAG {
            return None;
        }
        if mag == I64_MIN_MAG {
            ts = i64::MIN;
        } else {
            ts = -(mag as i64);
        }
    } else {
        if mag > i64::MAX as u64 {
            return None;
        }
        ts = mag as i64;
    }
    if !match_at(b, mend, "}") {
        return None;
    }
    if mend >= blen || mend + 1 != blen {
        return None;
    }
    let q = StockQuote { ticker, price_cents: cents, volume: vol as u32, timestamp: ts };
    proof {
        let bb = b@;
        let spec_ticker = bb.subrange(t0 as int, tend as int).map(|_j: int, x: u8| x as char);
        assert(q@.ticker =~= spec_ticker);
        assert(wf_ticker(q@.ticker));
        assert(spec_parse_quote(bb) == Some(q@));
    }
    Some(q)
}

/// Decoding an encoded well-formed quote yields the quote back,
/// field for field.
#[verifier::rlimit(100)]
pub proof fn lemma_quote_roundtrip(q: QuoteModel)
    requires
        wf_quote(q),
    ensures
        spec_parse_quote(spec_encode_quote(q)) == Some(q),
{
    reveal_strlit("{\"ticker\":\"");
    reveal_strlit("\",\"price\":");
    reveal_strlit(",\"volume\":");
    reveal_strlit(",\"timestamp\":");
    reveal_strlit("}");
    reveal_with_fuel(crate::text::pow10, 20);
    let b = spec_encode_quote(q);
    let h = lit_header();
    let t = ascii_bytes(q.ticker);
    let p = lit_price();
    let pb = price_bytes(q.price_cents);
    let v = lit_volume();
    let dv = dec_bytes(q.volume as nat);
    let sl = lit_timestamp();
    let tsb = ts_bytes(q.timestamp);
    let cl = lit_close();
    let c = q.price_cents;
    let ib = dec_bytes((c / 100) as nat);
    let fb = frac_bytes(c);
    let mag: nat = if q.timestamp >= 0 {
        q.timestamp as nat
    } else {
        (-(q.timestamp as int)) as nat
    };
    let mb = dec_bytes(mag);
    crate::text::lemma_dec_bytes_roundtrip((c / 100) as nat);
    crate::text::lemma_dec_bytes_roundtrip(q.volume as nat);
    crate::text::lemma_dec_bytes_roundtrip(mag);
    crate::text::lemma_dec_len((c / 100) as nat, 17);
    crate::text::lemma_dec_len(q.volume as nat, 10);
    crate::text::lemma_dec_len(mag, 19);
    let tlen = t.len() as int;
    let ilen = ib.len() as int;
    let flen = fb.len() as int;
    let vlen = dv.len() as int;
    let mlen = mb.len() as int;
    assert(pb =~= ib + seq![46u8] + fb);
    assert(tsb =~= if q.timestamp >= 0 {
        mb
    } else {
        seq![45u8] + mb
    });

    // offsets of the pieces
    let t0 = 11int;
    let p_lit = t0 + tlen;
    let p0 = p_lit + 10;
    let dot = p0 + ilen;
    let f0 = dot + 1;
    let v_lit = f0 + flen;
    let v0 = v_lit + 10;
    let s_lit = v0 + vlen;
    let s0 = s_lit + 13;
    let m0 = if q.timestamp >= 0 {
        s0
    } else {
        s0 + 1
    };
    let e0 = m0 + mlen;
    assert(h.len() == 11 && p.len() == 10 && v.len() == 10 && sl.len() == 13 && cl.len() == 1);
    assert(b.len() == e0 + 1);

    // the header
    assert(b.subrange(0, 11) =~= h);
    assert(has_at(b, 0, h));

    // the ticker and its terminator
    assert(b.subrange(t0, t0 + tlen) =~= t);
    assert(forall|j: int| t0 <= j < t0 + tlen ==> is_ticker_byte(#[trigger] b[j])) by {
        assert(forall|j: int|
            0 <= j < tlen ==> crate::quote::is_ticker_char(#[trigger] q.ticker[j]));
        assert(forall|j: int| t0 <= j < t0 + tlen ==> b[j] == t[j - t0]);
    }
    assert(b[t0 + tlen] == 34 && !is_ticker_byte(b[t0 + tlen]));
    lemma_ticker_run_exact(b, t0, tlen);

    // price literal, whole digits, dot, fraction digits
    assert(b.subrange(p_lit, p_lit + 10) =~= p);
    assert(has_at(b, p_lit, p));
    assert(b.subrange(p0, p0 + ilen) =~= ib);
    assert(b[p0 + ilen] == 46 && !crate::text::is_digit(b[p0 + ilen]));
    crate::text::lemma_digit_run_exact(b, p0, ilen);
    assert(dec_val(b.subrange(p0, p0 + ilen)) == c / 100);
    assert(b.subrange(f0, f0 + flen) =~= fb);
    assert(all_digits(fb));
    assert(b[f0 + flen] == 44 && !crate::text::is_digit(b[f0 + flen]));
    crate::text::lemma_digit_run_exact(b, f0, flen);
    let fval = dec_val(b.subrange(f0, f0 + flen));
    assert((c / 100) * 100 + (if flen == 1 {
        fval * 10
    } else {
        fval
    }) == c) by {
        assert(dec_val(Seq::<u8>::empty()) == 0);
        if c % 100 == 0 {
            assert(fb =~= seq![48u8]);
            assert(fb.drop_last() =~= Seq::<u8>::empty());
            assert(fval == 0);
        } else if c % 10 == 0 {
            let x = ((c % 100) / 10 + 48) as u8;
            assert(fb =~= seq![x]);
            assert(seq![x].drop_last() =~= Seq::<u8>::empty());
            assert(seq![x].last() == x);
            assert(dec_val(seq![x]) == dec_val(Seq::<u8>::empty()) * 10 + crate::text::digit_val(
                x,
            ));
            assert(crate::text::digit_val(x) == (c % 100) / 10);
            assert(fval == (c % 100) / 10);
            assert((c % 100) % 10 == c % 10) by (nonlinear_arith);
            assert(((c % 100) / 10) * 10 == c % 100);
        } else {
            let x = ((c % 100) / 10 + 48) as u8;
            let y = (c % 10 + 48) as u8;
            assert(fb =~= seq![x, y]);
            assert(seq![x, y].drop_last() =~= seq![x]);
            assert(seq![x].drop_last() =~= Seq::<u8>::empty());
            assert(seq![x].last() == x);
            assert(dec_val(seq![x]) == dec_val(Seq::<u8>::empty()) * 10 + crate::text::digit_val(
                x,
            ));
            assert(seq![x, y].last() == y);
            assert(dec_val(seq![x, y]) == dec_val(seq![x]) * 10 + crate::text::digit_val(y));
            assert(crate::text::digit_val(x) == (c % 100) / 10);
            assert(crate::text::digit_val(y) == c % 10);
            assert(fval == ((c % 100) / 10) * 10 + c % 10);
            assert((c % 100) % 10 == c % 10) by (nonlinear_arith);
            assert(((c % 100) / 10) * 10 + (c % 100) % 10 == c % 100);
        }
    }

    // volume literal and digits
    assert(b.subrange(v_lit, v_lit + 10) =~= v);
    assert(has_at(b, v_lit, v));
    assert(b.subrange(v0, v0 + vlen) =~= dv);
    assert(b[v0 + vlen] == 44 && !crate::text::is_digit(b[v0 + vlen]));
    crate::text::lemma_digit_run_exact(b, v0, vlen);
    assert(dec_val(b.subrange(v0, v0 + vlen)) == q.volume as nat);

    // timestamp literal, sign, digits
    assert(b.subrange(s_lit, s_lit + 13) =~= sl);
    assert(has_at(b, s_lit, sl));
    if q.timestamp >= 0 {
        assert(b[s0] == mb[0] && crate::text::is_digit(b[s0]));
        assert(b[s0] != 45);
    } else {
        assert(b[s0] == 45);
    }
    assert(b.subrange(m0, m0 + mlen) =~= mb);
    assert(b[m0 + mlen] == 125 && !crate::text::is_digit(b[m0 + mlen]));
    crate::text::lemma_digit_run_exact(b, m0, mlen);
    assert(dec_val(b.subrange(m0, m0 + mlen)) == mag);
    assert(mag <= I64_MIN_MAG);

    // closing brace and the end of the buffer
    assert(b.subrange(e0, e0 + 1) =~= cl);
    assert(has_at(b, e0, cl));

    // the parsed model equals the encoded one
    let parsed = spec_parse_quote(b);
    assert(parsed is Some);
    assert(all_ascii(q.ticker)) by {
        assert(forall|j: int|
            0 <= j < tlen ==> crate::quote::is_ticker_char(#[trigger] q.ticker[j]));
    }
    crate::text::lemma_ascii_chars_roundtrip(q.ticker);
    assert(b.subrange(t0, t0 + tlen).map(|_j: int, x: u8| x as char) == q.ticker);
    assert(parsed == Some(q));
}

/// Decodes one inbound datagram, as the client's listener does:
/// the quote it denotes, or the parse-failure report.
pub fn handle_payload(payload: &[u8]) -> (r: Result<StockQuote, String>)
    ensures
        match r {
            Ok(q) => spec_parse_quote(payload@) == Some(q@) && wf_quote(q@),
            Err(m) => spec_parse_quote(payload@) is None && m@ == "Failed to parse quote JSON"@,
        },
{
    match decode_quote(payload) {
        Some(q) => Ok(q),
        None => Err("Failed to parse quote JSON".to_owned()),
    }
}

} // verus!
