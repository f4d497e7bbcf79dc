//! Ticker lists as loaded from a ticker file's contents: one symbol per
//! line, surrounding whitespace stripped, ASCII letters uppercased,
//! blank lines dropped, order and duplicates kept.

use vstd::prelude::*;
use vstd::string::StrSliceExecFns;

use crate::errors::{ErrorLocation, QuoteError};
use crate::protocol::{find_char, is_ws, lemma_find_char, norm_token, scan_ws, scan_ws_back, str_find_char, ws_run, ws_run_back};
use vstd::utf8::is_ascii_chars;
use crate::text::upper_chars;
use crate::quote::wf_ticker;

verus! {

/// The normalized non-blank lines of `s[from..]`, in order.
pub open spec fn spec_load_lines(s: Seq<char>, from: int) -> Seq<Seq<char>>
    decreases s.len() - from,
{
    if from < 0 || from > s.len() {
        Seq::empty()
    } else {
        let p0 = find_char(s, from, '\n');
        let p = if p0 < from {
            from
        } else {
            p0
        };
        let tok = norm_token(s, from, p);
        let head: Seq<Seq<char>> = if tok.len() == 0 {
            Seq::empty()
        } else {
            seq![tok]
        };
        if p >= s.len() || p < from {
            head
        } else {
            head + spec_load_lines(s, p + 1)
        }
    }
}

/// The normalized non-blank lines of `s[from..]`, as strings.
fn collect_lines(s: &str, from: usize) -> (r: Vec<String>)
    requires
        from <= s@.len(),
    ensures
        r.deep_view() == spec_load_lines(s@, from as int),
    decreases s@.len() - from,
{
    let slen = s.unicode_len();
    let p = str_find_char(s, from, '\n');
    proof {
        lemma_find_char(s@, from as int, '\n');
    }
    let tok = normalize_line(s, from, p);
    let tok_len = tok.as_str().unicode_len();
    if p == slen {
        let mut v: Vec<String> = Vec::new();
        if tok_len > 0 {
            v.push(tok);
        }
        proof {
            assert(v.deep_view() =~~= spec_load_lines(s@, from as int));
        }
        v
    } else {
        let mut rest = collect_lines(s, p + 1);
        if tok_len > 0 {
            rest.insert(0, tok);
        }
        proof {
            assert(rest.deep_view() =~~= spec_load_lines(s@, from as int));
        }
        rest
    }
}

/// Normalizes the line `s[from..to]`: trim, then uppercase ASCII.
fn normalize_line(s: &str, from: usize, to: usize) -> (r: String)
    requires
        from <= to <= s@.len(),
    ensures
        r@ == norm_token(s@, from as int, to as int),
{
    let a = scan_ws(s, from, to);
    let b = scan_ws_back(s, from, to);
    if a >= b {
        let r = String::new();
        proof {
            assert(r@ =~= norm_token(s@, from as int, to as int));
        }
        r
    } else {
        let tok = s.substring_char(a, b);
        if tok.is_ascii() {
            crate::text::ascii_upper(tok)
        } else {
            tok.to_owned()
        }
    }
}

/// Reads ticker symbols out of a ticker file's contents, one per line,
/// uppercased and in file order; a contents with no symbols is a
/// configuration error.
pub fn load_tickers(contents: &str) -> (r: Result<Vec<String>, QuoteError>)
    ensures
        match r {
            Ok(v) => v.deep_view() == spec_load_lines(contents@, 0) && v@.len() > 0,
            Err(e) => {
                &&& spec_load_lines(contents@, 0).len() == 0
                &&& e matches QuoteError::ConfigError { message, .. } && message@
                    == "ticker file contained no symbols"@
            },
        },
{
    let v = collect_lines(contents, 0);
    if v.len() == 0 {
        proof {
            assert(v.deep_view().len() == v@.len());
        }
        Err(
            QuoteError::ConfigError {
                message: "ticker file contained no symbols".to_owned(),
                location: ErrorLocation { file: "tickers.rs", line: 1, column: 1 },
            },
        )
    } else {
        proof {
            assert(v.deep_view().len() == v@.len());
        }
        Ok(v)
    }
}

/// Whether every entry is a well-formed ticker symbol (non-empty, at
/// most sixteen characters, uppercase letters and digits only).
pub fn valid_tickers(tickers: &Vec<String>) -> (r: bool)
    ensures
        r == (forall|i: int|
            0 <= i < tickers@.len() ==> wf_ticker(#[trigger] tickers.deep_view()[i])),
{
    let n = tickers.len();
    let mut i: usize = 0;
    while i < n
        invariant
            n == tickers@.len(),
            i <= n,
            forall|k: int| 0 <= k < i ==> wf_ticker(#[trigger] tickers.deep_view()[k]),
        decreases n - i,
    {
        let t = &tickers[i];
        let tlen = t.as_str().unicode_len();
        if tlen < 1 || tlen > 16 || !crate::protocol::ticker_chars_ok(t.as_str()) {
            proof {
                assert(tickers.deep_view()[i as int] == tickers@[i as int]@);
                assert(!wf_ticker(tickers.deep_view()[i as int]));
            }
            return false;
        }
        proof {
            assert(tickers.deep_view()[i as int] == tickers@[i as int]@);
        }
        i = i + 1;
    }
    true
}

/// A loaded symbol in normal form: non-blank, not beginning or ending
/// in whitespace, free of line breaks, and holding no lowercase ASCII
/// letter when it is ASCII.
pub open spec fn normalized_symbol(t: Seq<char>) -> bool {
    &&& t.len() > 0
    &&& !is_ws(t[0])
    &&& !is_ws(t[t.len() - 1])
    &&& forall|i: int| 0 <= i < t.len() ==> #[trigger] t[i] != '\n'
    &&& (is_ascii_chars(t) ==> forall|i: int|
        0 <= i < t.len() ==> !(97 <= #[trigger] t[i] as nat <= 122))
}

pub proof fn lemma_ws_run(s: Seq<char>, from: int, to: int)
    requires
        0 <= from <= to <= s.len(),
    ensures
        ws_run(s, from, to) <= to - from,
        from + ws_run(s, from, to) < to ==> !is_ws(s[from + ws_run(s, from, to)]),
    decreases to - from,
{
    if from < to && is_ws(s[from]) {
        lemma_ws_run(s, from + 1, to);
    }
}

pub proof fn lemma_ws_run_back(s: Seq<char>, from: int, to: int)
    requires
        0 <= from <= to <= s.len(),
    ensures
        ws_run_back(s, from, to) <= to - from,
        to - ws_run_back(s, from, to) > from ==> !is_ws(s[to - ws_run_back(s, from, to) - 1]),
    decreases to - from,
{
    if to > from && is_ws(s[to - 1]) {
        lemma_ws_run_back(s, from, to - 1);
    }
}

/// A non-blank normalized token is a symbol in normal form, provided
/// the line it came from held no line break.
pub proof fn lemma_norm_token_normalized(s: Seq<char>, from: int, to: int)
    requires
        0 <= from <= to <= s.len(),
        forall|j: int| from <= j < to ==> #[trigger] s[j] != '\n',
    ensures
        norm_token(s, from, to).len() == 0 || normalized_symbol(norm_token(s, from, to)),
{
    lemma_ws_run(s, from, to);
    lemma_ws_run_back(s, from, to);
    let a = from + ws_run(s, from, to);
    let b = to - ws_run_back(s, from, to);
    if a < b {
        let tok0 = s.subrange(a, b);
        assert(!is_ws(tok0[0]));
        assert(!is_ws(tok0[tok0.len() - 1]));
        assert(forall|i: int| 0 <= i < tok0.len() ==> #[trigger] tok0[i] != '\n');
        if is_ascii_chars(tok0) {
            let u = upper_chars(tok0);
            assert forall|i: int| 0 <= i < u.len() implies {
                &&& !(97 <= #[trigger] u[i] as nat <= 122)
                &&& u[i] != '\n'
                &&& (is_ws(tok0[i]) == is_ws(u[i]))
            } by {
                let c = tok0[i];
                if 97 <= c as nat <= 122 {
                    assert(u[i] == ((c as nat - 32) as u8) as char);
                    assert(65 <= (u[i] as nat) <= 90);
                    assert(u[i] != ' ' && u[i] != '\t' && u[i] != '\n' && u[i] != '\r');
                    assert(!is_ws(c)) by {
                        assert((' ' as nat) == 32 && ('\t' as nat) == 9 && ('\n' as nat) == 10
                            && ('\r' as nat) == 13);
                    }
                } else {
                    assert(u[i] == c);
                }
            }
            assert(normalized_symbol(u));
        }
    }
}

/// Every symbol a load yields is in normal form.
pub proof fn lemma_load_lines_normalized(s: Seq<char>, from: int)
    ensures
        forall|i: int|
            0 <= i < spec_load_lines(s, from).len() ==> normalized_symbol(
                #[trigger] spec_load_lines(s, from)[i],
            ),
    decreases s.len() - from,
{
    if !(from < 0 || from > s.len()) {
        let p0 = find_char(s, from, '\n');
        let p = if p0 < from {
            from
        } else {
            p0
        };
        lemma_find_char(s, from, '\n');
        lemma_norm_token_normalized(s, from, p);
        let tok = norm_token(s, from, p);
        let head: Seq<Seq<char>> = if tok.len() == 0 {
            Seq::empty()
        } else {
            seq![tok]
        };
        if !(p >= s.len() || p < from) {
            lemma_load_lines_normalized(s, p + 1);
            let rest = spec_load_lines(s, p + 1);
            assert forall|i: int|
                0 <= i < spec_load_lines(s, from).len() implies normalized_symbol(
                #[trigger] spec_load_lines(s, from)[i],
            ) by {
                if i < head.len() {
                    assert(spec_load_lines(s, from)[i] == tok);
                } else {
                    assert(spec_load_lines(s, from)[i] == rest[i - head.len()]);
                }
            }
        }
    }
}

/// Loading a contents that consists of exactly one symbol in normal
/// form yields exactly that symbol.
pub proof fn lemma_normalized_symbol_reloads(t: Seq<char>)
    requires
        normalized_symbol(t),
    ensures
        spec_load_lines(t, 0) == seq![t],
{
    lemma_find_char(t, 0, '\n');
    let p = find_char(t, 0, '\n');
    assert(p == t.len());
    assert(ws_run(t, 0, t.len() as int) == 0);
    assert(ws_run_back(t, 0, t.len() as int) == 0);
    assert(t.subrange(0, t.len() as int) =~= t);
    if is_ascii_chars(t) {
        assert(upper_chars(t) =~= t);
    }
    assert(norm_token(t, 0, t.len() as int) == t);
    assert(spec_load_lines(t, 0) =~~= seq![t]);
}

/// Ticker loading is idempotent and case-normalizing: each symbol a
/// load yields is already in normal form, so loading it again yields
/// it unchanged.
pub proof fn lemma_load_tickers_idempotent(contents: Seq<char>, i: int)
    requires
        0 <= i < spec_load_lines(contents, 0).len(),
    ensures
        spec_load_lines(spec_load_lines(contents, 0)[i], 0) == seq![
            spec_load_lines(contents, 0)[i],
        ],
{
    lemma_load_lines_normalized(contents, 0);
    lemma_normalized_symbol_reloads(spec_load_lines(contents, 0)[i]);
}

} // verus!
