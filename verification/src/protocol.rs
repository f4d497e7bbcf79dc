//! The line-oriented TCP subscription protocol: parsing and rendering
//! of the `STREAM udp://<ip>:<port> <T1>,<T2>,...` command line and of
//! the `OK` / `ERR <reason>` responses.
//!
//! Ticker tokens are trimmed of surrounding ASCII whitespace and
//! uppercased (ASCII letters only; a token with characters beyond
//! ASCII is kept as written and then rejected by the character check).

use vstd::prelude::*;
use vstd::string::StrSliceExecFns;
use vstd::string::StringExecFns;
use vstd::utf8::is_ascii_chars;

use crate::errors::{ErrorLocation, QuoteError};
use crate::net::{parse_sockaddr, spec_parse_sockaddr, SocketAddress};
use crate::quote::is_ticker_char;
use crate::text::{all_ascii, all_digits, ascii_bytes, ascii_to_string, ascii_upper, str_eq, upper_chars};
use crate::net::{hex_bytes, sockaddr_bytes};
use crate::errors::error_chars;

verus! {

/// Parsed representation of a valid STREAM command.
#[derive(Debug, Clone, PartialEq, Eq)]
pub struct StreamRequest {
    pub udp_addr: SocketAddress,
    pub tickers: Vec<String>,
}

pub open spec fn is_ws(c: char) -> bool {
    c == ' ' || c == '\t' || c == '\n' || c == '\r'
}

/// Number of whitespace characters at the front of `s[from..to]`.
pub open spec fn ws_run(s: Seq<char>, from: int, to: int) -> nat
    decreases to - from,
{
    if from < 0 || from >= to || to > s.len() || !is_ws(s[from]) {
        0
    } else {
        1 + ws_run(s, from + 1, to)
    }
}

/// Number of whitespace characters at the back of `s[from..to]`.
pub open spec fn ws_run_back(s: Seq<char>, from: int, to: int) -> nat
    decreases to - from,
{
    if to <= from || from < 0 || to > s.len() || !is_ws(s[to - 1]) {
        0
    } else {
        1 + ws_run_back(s, from, to - 1)
    }
}

/// `s` with surrounding whitespace removed.
pub open spec fn trim_chars(s: Seq<char>) -> Seq<char> {
    let a = ws_run(s, 0, s.len() as int) as int;
    let b = s.len() - ws_run_back(s, a, s.len() as int);
    s.subrange(a, b)
}

/// First position of `target` in `s` at or after `from`; the length of
/// `s` when the character does not occur.
pub open spec fn find_char(s: Seq<char>, from: int, target: char) -> int
    decreases s.len() - from,
{
    if from < 0 || from >= s.len() {
        s.len() as int
    } else if s[from] == target {
        from
    } else {
        find_char(s, from + 1, target)
    }
}

/// `lit` occurs in `s` at position `from`.
pub open spec fn has_chars_at(s: Seq<char>, from: int, lit: Seq<char>) -> bool {
    0 <= from && from + lit.len() <= s.len() && s.subrange(from, from + lit.len()) == lit
}

/// A normalized token: trimmed, and uppercased when it is ASCII.
pub open spec fn norm_token(s: Seq<char>, from: int, to: int) -> Seq<char> {
    let a = from + ws_run(s, from, to);
    let b = to - ws_run_back(s, from, to);
    if a >= b {
        Seq::empty()
    } else {
        let tok = s.subrange(a, b);
        if is_ascii_chars(tok) {
            upper_chars(tok)
        } else {
            tok
        }
    }
}

/// A valid ticker symbol after normalization: non-empty, every
/// character an uppercase letter or digit.
pub open spec fn ticker_ok(t: Seq<char>) -> bool {
    t.len() >= 1 && forall|i: int| 0 <= i < t.len() ==> is_ticker_char(#[trigger] t[i])
}

/// The normalized tickers of the comma-separated list `s[from..]`:
/// empty tokens are dropped, and the first invalid token is the error.
pub open spec fn spec_collect_tickers(s: Seq<char>, from: int) -> Result<Seq<Seq<char>>, Seq<char>>
    decreases s.len() - from, 1int,
{
    if from < 0 || from > s.len() {
        Ok(Seq::empty())
    } else {
        let p0 = find_char(s, from, ',');
        let p = if p0 < from {
            from
        } else {
            p0
        };
        spec_collect_at(s, from, p)
    }
}

/// One step of ticker collection, with the comma position `p` in hand.
pub open spec fn spec_collect_at(s: Seq<char>, from: int, p: int) -> Result<
    Seq<Seq<char>>,
    Seq<char>,
>
    recommends
        0 <= from <= p <= s.len(),
    decreases s.len() - from, 0int,
{
    let tok = norm_token(s, from, p);
    if tok.len() > 0 && !ticker_ok(tok) {
        Err(tok)
    } else {
        let head: Seq<Seq<char>> = if tok.len() == 0 {
            Seq::empty()
        } else {
            seq![tok]
        };
        if p >= s.len() || p < from {
            Ok(head)
        } else {
            match spec_collect_tickers(s, p + 1) {
                Ok(rest) => Ok(head + rest),
                Err(e) => Err(e),
            }
        }
    }
}

/// The meaning of a subscription line: the endpoint and the normalized
/// tickers, or the exact reason it is rejected.
pub open spec fn spec_parse_stream(s: Seq<char>) -> Result<
    (SocketAddress, Seq<Seq<char>>),
    Seq<char>,
> {
    let t = trim_chars(s);
    if !has_chars_at(t, 0, "STREAM "@) {
        Err("missing STREAM prefix"@)
    } else {
        let p0 = "STREAM "@.len() as int;
        let sp = find_char(t, p0, ' ');
        if sp == t.len() {
            Err("STREAM command missing ticker list"@)
        } else if !has_chars_at(t, p0, "udp://"@) {
            Err("STREAM command missing udp:// prefix"@)
        } else {
            let a0 = p0 + "udp://"@.len();
            let addr = t.subrange(a0, sp);
            let parsed: Option<SocketAddress> = if a0 <= sp && is_ascii_chars(addr) {
                spec_parse_sockaddr(ascii_bytes(addr))
            } else {
                None
            };
            match parsed {
                None => Err("invalid UDP address: "@ + t.subrange(a0, sp)),
                Some(sa) => match spec_collect_tickers(t, sp + 1) {
                    Err(tok) => Err("invalid ticker symbol: "@ + tok),
                    Ok(toks) => if toks.len() == 0 {
                        Err("ticker list cannot be empty"@)
                    } else {
                        Ok((sa, toks))
                    },
                },
            }
        }
    }
}

/// Whether the characters of `lit` occur in `s` at `from`.
pub fn str_has_at(s: &str, from: usize, lit: &str) -> (r: bool)
    requires
        from <= s@.len(),
    ensures
        r == has_chars_at(s@, from as int, lit@),
{
    let slen = s.unicode_len();
    let n = lit.unicode_len();
    if n > slen - from {
        return false;
    }
    let mut j: usize = 0;
    while j < n
        invariant
            n == lit@.len(),
            slen == s@.len(),
            from + n <= slen,
            j <= n,
            forall|k: int| 0 <= k < j ==> s@[from + k] == lit@[k],
        decreases n - j,
    {
        if s.get_char(from + j) != lit.get_char(j) {
            proof {
                assert(s@.subrange(from as int, from + n) != lit@) by {
                    assert(s@.subrange(from as int, from + n)[j as int] != lit@[j as int]);
                }
            }
            return false;
        }
        j = j + 1;
    }
    proof {
        assert(s@.subrange(from as int, from + n) =~= lit@);
    }
    true
}

/// Index of the first occurrence of `target` at or after `from`.
pub fn str_find_char(s: &str, from: usize, target: char) -> (r: usize)
    requires
        from <= s@.len(),
    ensures
        r == find_char(s@, from as int, target),
    decreases s@.len() - from,
{
    if from < s.unicode_len() {
        if s.get_char(from) == target {
            from
        } else {
            str_find_char(s, from + 1, target)
        }
    } else {
        from
    }
}

/// Index just past the whitespace run at the front of `s[from..to]`.
pub fn scan_ws(s: &str, from: usize, to: usize) -> (r: usize)
    requires
        from <= to <= s@.len(),
    ensures
        r == from + ws_run(s@, from as int, to as int),
        from <= r <= to,
    decreases to - from,
{
    if from < to {
        let c = s.get_char(from);
        if c == ' ' || c == '\t' || c == '\n' || c == '\r' {
            scan_ws(s, from + 1, to)
        } else {
            from
        }
    } else {
        from
    }
}

/// Index just before the whitespace run at the back of `s[from..to]`.
pub fn scan_ws_back(s: &str, from: usize, to: usize) -> (r: usize)
    requires
        from <= to <= s@.len(),
    ensures
        r == to - ws_run_back(s@, from as int, to as int),
        from <= r <= to,
    decreases to - from,
{
    if to > from {
        let c = s.get_char(to - 1);
        if c == ' ' || c == '\t' || c == '\n' || c == '\r' {
            scan_ws_back(s, from, to - 1)
        } else {
            to
        }
    } else {
        to
    }
}

/// Normalizes the token `s[from..to]`.
fn normalize_token(s: &str, from: usize, to: usize) -> (r: String)
    requires
        from <= to <= s@.len(),
    ensures
        r@ == norm_token(s@, from as int, to as int),
{
    let a = scan_ws(s, from, to);
    let b = scan_ws_back(s, from, to);
    if a >= b {
        let r = String::new();
        proof {
            assert(r@ =~= norm_token(s@, from as int, to as int));
        }
        r
    } else {
        let tok = s.substring_char(a, b);
        if tok.is_ascii() {
            ascii_upper(tok)
        } else {
            tok.to_owned()
        }
    }
}

/// Collects the normalized tickers of `s[from..]`, or the first
/// invalid token.
fn collect_tickers(s: &str, from: usize) -> (r: Result<Vec<String>, String>)
    requires
        from <= s@.len(),
    ensures
        match r {
            Ok(v) => spec_collect_tickers(s@, from as int) == Ok::<Seq<Seq<char>>, Seq<char>>(
                v.deep_view(),
            ),
            Err(tok) => spec_collect_tickers(s@, from as int) == Err::<Seq<Seq<char>>, Seq<char>>(
                tok@,
            ),
        },
    decreases s@.len() - from,
{
    let slen = s.unicode_len();
    let p = str_find_char(s, from, ',');
    proof {
        lemma_find_char(s@, from as int, ',');
    }
    let tok = normalize_token(s, from, p);
    let tok_len = tok.as_str().unicode_len();
    if tok_len > 0 && !ticker_chars_ok(tok.as_str()) {
        return Err(tok);
    }
    if p == slen {
        let mut v: Vec<String> = Vec::new();
        if tok_len > 0 {
            v.push(tok);
        }
        proof {
            assert(v.deep_view() =~~= spec_collect_tickers(s@, from as int)->Ok_0);
        }
        Ok(v)
    } else {
        match collect_tickers(s, p + 1) {
            Ok(mut rest) => {
                if tok_len > 0 {
                    rest.insert(0, tok);
                }
                proof {
                    assert(rest.deep_view() =~~= spec_collect_tickers(s@, from as int)->Ok_0);
                }
                Ok(rest)
            },
            Err(e) => Err(e),
        }
    }
}

pub proof fn lemma_find_char(s: Seq<char>, from: int, target: char)
    requires
        0 <= from <= s.len(),
    ensures
        from <= find_char(s, from, target) <= s.len(),
        find_char(s, from, target) < s.len() ==> s[find_char(s, from, target)] == target,
        forall|j: int| from <= j < find_char(s, from, target) ==> s[j] != target,
    decreases s.len() - from,
{
    if from < s.len() && s[from] != target {
        lemma_find_char(s, from + 1, target);
    }
}

/// Whether every character of `t` may appear in a ticker symbol.
pub fn ticker_chars_ok(t: &str) -> (r: bool)
    ensures
        r == (forall|i: int| 0 <= i < t@.len() ==> is_ticker_char(#[trigger] t@[i])),
{
    let n = t.unicode_len();
    let mut i: usize = 0;
    while i < n
        invariant
            n == t@.len(),
            i <= n,
            forall|k: int| 0 <= k < i ==> is_ticker_char(#[trigger] t@[k]),
        decreases n - i,
    {
        let x = t.get_char(i) as u32;
        if !(48 <= x && x <= 57 || 65 <= x && x <= 90) {
            return false;
        }
        i = i + 1;
    }
    true
}

/// Parse an incoming STREAM command into a `StreamRequest`: the exact
/// meaning of the line per `spec_parse_stream`, with each rejection
/// reported as `InvalidCommand` carrying the corresponding reason.
pub fn parse_stream_command(command: &str) -> (r: Result<StreamRequest, QuoteError>)
    ensures
        match r {
            Ok(req) => spec_parse_stream(command@) == Ok::<_, Seq<char>>(
                (req.udp_addr, req.tickers.deep_view()),
            ),
            Err(e) => {
                &&& spec_parse_stream(command@) is Err
                &&& e matches QuoteError::InvalidCommand { message, .. } && message@
                    == spec_parse_stream(command@)->Err_0
            },
        },
{
    let loc = ErrorLocation { file: "protocol.rs", line: 1, column: 1 };
    let n = command.unicode_len();
    let a = scan_ws(command, 0, n);
    let b = scan_ws_back(command, a, n);
    let t = command.substring_char(a, b);
    proof {
        assert(t@ == trim_chars(command@));
    }
    if !str_has_at(t, 0, "STREAM ") {
        return Err(
            QuoteError::InvalidCommand {
                message: "missing STREAM prefix".to_owned(),
                location: loc,
            },
        );
    }
    let p0 = "STREAM ".unicode_len();
    let tlen = t.unicode_len();
    let sp = str_find_char(t, p0, ' ');
    proof {
        lemma_find_char(t@, p0 as int, ' ');
    }
    if sp == tlen {
        return Err(
            QuoteError::InvalidCommand {
                message: "STREAM command missing ticker list".to_owned(),
                location: loc,
            },
        );
    }
    if !str_has_at(t, p0, "udp://") {
        return Err(
            QuoteError::InvalidCommand {
                message: "STREAM command missing udp:// prefix".to_owned(),
                location: loc,
            },
        );
    }
    let a0 = p0 + "udp://".unicode_len();
    proof {
        reveal_strlit("udp://");
        assert(sp >= a0) by {
            if sp < a0 {
                assert(t@[sp as int] == ' ');
                assert(t@.subrange(p0 as int, a0 as int) == "udp://"@);
                assert(t@[sp as int] == "udp://"@[sp - p0]);
            }
        }
    }
    let addr_str = t.substring_char(a0, sp);
    let mut parsed: Option<SocketAddress> = None;
    if addr_str.is_ascii() {
        proof {
            broadcast use vstd::utf8::is_ascii_chars_nat_bound;
        }
        let abytes = ascii_str_bytes(addr_str);
        parsed = parse_sockaddr(abytes.as_slice());
    }
    match parsed {
        None => {
            let mut message = String::new();
            message.append("invalid UDP address: ");
            message.append(addr_str);
            proof {
                assert(message@ == "invalid UDP address: "@ + t@.subrange(a0 as int, sp as int));
            }
            Err(QuoteError::InvalidCommand { message, location: loc })
        },
        Some(sa) => {
            match collect_tickers(t, sp + 1) {
                Err(tok) => {
                    let mut message = String::new();
                    message.append("invalid ticker symbol: ");
                    message.append(tok.as_str());
                    Err(QuoteError::InvalidCommand { message, location: loc })
                },
                Ok(toks) => {
                    if toks.len() == 0 {
                        Err(
                            QuoteError::InvalidCommand {
                                message: "ticker list cannot be empty".to_owned(),
                                location: loc,
                            },
                        )
                    } else {
                        Ok(StreamRequest { udp_addr: sa, tickers: toks })
                    }
                },
            }
        },
    }
}

/// The bytes of an ASCII string, as a vector.
pub fn ascii_str_bytes(s: &str) -> (r: Vec<u8>)
    requires
        all_ascii(s@),
    ensures
        r@ == ascii_bytes(s@),
{
    let mut out: Vec<u8> = Vec::new();
    crate::codec::push_ascii_str(&mut out, s);
    out
}

/// The characters of an endpoint's textual form.
pub open spec fn sockaddr_chars(a: SocketAddress) -> Seq<char> {
    sockaddr_bytes(a).map(|_i: int, b: u8| b as char)
}

/// The ticker list joined with commas.
pub open spec fn join_commas(ts: Seq<Seq<char>>) -> Seq<char>
    decreases ts.len(),
{
    if ts.len() == 0 {
        Seq::empty()
    } else if ts.len() == 1 {
        ts[0]
    } else {
        join_commas(ts.drop_last()) + ","@ + ts.last()
    }
}

/// The complete subscription line for an endpoint and a ticker list.
pub open spec fn stream_line_chars(a: SocketAddress, ts: Seq<Seq<char>>) -> Seq<char> {
    "STREAM udp://"@ + sockaddr_chars(a) + " "@ + join_commas(ts) + "
"@
}

/// Every byte of an endpoint's textual form is printable ASCII
/// (in particular neither a space nor a control character).
pub proof fn lemma_sockaddr_bytes_ascii(a: SocketAddress)
    ensures
        forall|i: int|
            0 <= i < sockaddr_bytes(a).len() ==> 32 < #[trigger] sockaddr_bytes(a)[i] < 128,
{
    match a.ip {
        crate::net::IpAddress::V4(ip) => {
            crate::text::lemma_dec_bytes_roundtrip(ip.o0 as nat);
            crate::text::lemma_dec_bytes_roundtrip(ip.o1 as nat);
            crate::text::lemma_dec_bytes_roundtrip(ip.o2 as nat);
            crate::text::lemma_dec_bytes_roundtrip(ip.o3 as nat);
            crate::text::lemma_dec_bytes_roundtrip(a.port as nat);
            assert forall|i: int|
                0 <= i < sockaddr_bytes(a).len() implies 32 < #[trigger] sockaddr_bytes(a)[i]
                < 128 by {
                assert(forall|s: Seq<u8>, j: int|
                    all_digits(s) && 0 <= j < s.len() ==> 48 <= #[trigger] s[j] <= 57);
            }
        },
        crate::net::IpAddress::V6(ip) => {
            lemma_hex_bytes_ascii(ip.s0 as nat);
            lemma_hex_bytes_ascii(ip.s1 as nat);
            lemma_hex_bytes_ascii(ip.s2 as nat);
            lemma_hex_bytes_ascii(ip.s3 as nat);
            lemma_hex_bytes_ascii(ip.s4 as nat);
            lemma_hex_bytes_ascii(ip.s5 as nat);
            lemma_hex_bytes_ascii(ip.s6 as nat);
            lemma_hex_bytes_ascii(ip.s7 as nat);
            crate::text::lemma_dec_bytes_roundtrip(a.port as nat);
            assert forall|i: int|
                0 <= i < sockaddr_bytes(a).len() implies 32 < #[trigger] sockaddr_bytes(a)[i]
                < 128 by {
                assert(forall|s: Seq<u8>, j: int|
                    all_digits(s) && 0 <= j < s.len() ==> 48 <= #[trigger] s[j] <= 57);
            }
        },
    }
}

/// Every byte of a hex rendering is an ASCII digit or a lowercase
/// letter.
pub proof fn lemma_hex_bytes_ascii(n: nat)
    ensures
        forall|i: int| 0 <= i < hex_bytes(n).len() ==> 48 <= #[trigger] hex_bytes(n)[i] <= 102,
    decreases n,
{
    if n >= 16 {
        lemma_hex_bytes_ascii(n / 16);
        assert forall|i: int|
            0 <= i < hex_bytes(n).len() implies 48 <= #[trigger] hex_bytes(n)[i] <= 102 by {
            if i == hex_bytes(n).len() - 1 {
            } else {
                assert(hex_bytes(n)[i] == hex_bytes(n / 16)[i]);
            }
        }
    }
}

/// The textual form of an endpoint as a `String`.
pub fn sockaddr_string(a: &SocketAddress) -> (r: String)
    ensures
        r@ == sockaddr_chars(*a),
{
    let mut out: Vec<u8> = Vec::new();
    crate::net::push_sockaddr(&mut out, a);
    proof {
        lemma_sockaddr_bytes_ascii(*a);
    }
    let r = ascii_to_string(out);
    proof {
        assert(r@ =~= sockaddr_chars(*a));
    }
    r
}

/// Renders the subscription line the client sends: the endpoint it
/// listens on and the tickers it wants, comma-separated.
pub fn build_stream_command(udp_addr: &SocketAddress, tickers: &Vec<String>) -> (r: String)
    ensures
        r@ == stream_line_chars(*udp_addr, tickers.deep_view()),
{
    let mut out = String::new();
    out.append("STREAM udp://");
    let addr_s = sockaddr_string(udp_addr);
    out.append(addr_s.as_str());
    out.append(" ");
    let n = tickers.len();
    let mut i: usize = 0;
    while i < n
        invariant
            n == tickers@.len(),
            i <= n,
            out@ == "STREAM udp://"@ + sockaddr_chars(*udp_addr) + " "@ + join_commas(
                tickers.deep_view().take(i as int),
            ),
        decreases n - i,
    {
        if i > 0 {
            out.append(",");
        }
        out.append(tickers[i].as_str());
        proof {
            let ts = tickers.deep_view();
            assert(ts.take(i + 1).drop_last() =~~= ts.take(i as int));
            assert(ts.take(i + 1).last() == ts[i as int]);
            assert(ts[i as int] == tickers@[i as int]@);
        }
        i = i + 1;
    }
    out.append("
");
    proof {
        assert(tickers.deep_view().take(n as int) =~~= tickers.deep_view());
    }
    out
}

/// Reads the server's one-line answer: `OK` accepts, `ERR <reason>`
/// carries the reason back, anything else is a protocol error.
pub fn interpret_response(response: &str) -> (r: Result<(), QuoteError>)
    ensures
        match r {
            Ok(_) => response@ == "OK"@,
            Err(e) => {
                &&& response@ != "OK"@
                &&& if has_chars_at(response@, 0, "ERR "@) {
                    e matches QuoteError::InvalidCommand { message, .. } && message@ == response@.skip(
                        4,
                    )
                } else {
                    e matches QuoteError::ParseError { message, .. } && message@
                        == "unexpected response from server: "@ + response@
                }
            },
        },
{
    let loc = ErrorLocation { file: "protocol.rs", line: 1, column: 1 };
    if str_eq(response, "OK") {
        return Ok(());
    }
    if str_has_at(response, 0, "ERR ") {
        let n = response.unicode_len();
        let p = "ERR ".unicode_len();
        let rest = response.substring_char(p, n);
        proof {
            assert(rest@ =~= response@.skip(4)) by {
                reveal_strlit("ERR ");
            }
        }
        return Err(QuoteError::InvalidCommand { message: rest.to_owned(), location: loc });
    }
    let mut message = String::new();
    message.append("unexpected response from server: ");
    message.append(response);
    Err(QuoteError::ParseError { message, location: loc })
}

/// Renders the server's one-line reply to a subscription attempt:
/// `OK` for an accepted request, `ERR` and the error's rendering for a
/// rejected one.
pub fn response_line(result: &Result<StreamRequest, QuoteError>) -> (r: String)
    ensures
        match result {
            Ok(_) => r@ == "OK
"@,
            Err(e) => r@ == "ERR "@ + error_chars(*e) + "
"@,
        },
{
    match result {
        Ok(_) => {
            let mut out = String::new();
            out.append("OK
");
            proof {
                assert(out@ =~= "OK
"@);
            }
            out
        },
        Err(e) => {
            let mut out = String::new();
            out.append("ERR ");
            let d = e.display_string();
            out.append(d.as_str());
            out.append("
");
            out
        },
    }
}

/// Every ticker collected from an accepted list is valid.
pub proof fn lemma_collect_tickers_valid(s: Seq<char>, from: int)
    ensures
        spec_collect_tickers(s, from) matches Ok(toks) ==> forall|i: int|
            0 <= i < toks.len() ==> ticker_ok(#[trigger] toks[i]),
    decreases s.len() - from, 1int,
{
    if !(from < 0 || from > s.len()) {
        let p0 = find_char(s, from, ',');
        let p = if p0 < from {
            from
        } else {
            p0
        };
        lemma_collect_at_valid(s, from, p);
    }
}

pub proof fn lemma_collect_at_valid(s: Seq<char>, from: int, p: int)
    ensures
        spec_collect_at(s, from, p) matches Ok(toks) ==> forall|i: int|
            0 <= i < toks.len() ==> ticker_ok(#[trigger] toks[i]),
    decreases s.len() - from, 0int,
{
    let tok = norm_token(s, from, p);
    if !(tok.len() > 0 && !ticker_ok(tok)) {
        if !(p >= s.len() || p < from) {
            lemma_collect_tickers_valid(s, p + 1);
        }
    }
}

/// Every string the grammar accepts parses to a non-empty ticker list
/// whose members are non-empty and hold only uppercase letters and
/// digits.
pub proof fn lemma_accepted_stream_tickers_valid(s: Seq<char>)
    ensures
        spec_parse_stream(s) matches Ok(parsed) ==> parsed.1.len() > 0 && forall|i: int|
            0 <= i < parsed.1.len() ==> ticker_ok(#[trigger] parsed.1[i]),
{
    let t = trim_chars(s);
    let p0 = "STREAM "@.len() as int;
    let sp = find_char(t, p0, ' ');
    lemma_collect_tickers_valid(t, sp + 1);
}

/// A position holding the target, with none before it, is what the
/// search finds.
pub proof fn lemma_find_char_exact(s: Seq<char>, from: int, k: int, target: char)
    requires
        0 <= from <= k <= s.len(),
        forall|j: int| from <= j < k ==> #[trigger] s[j] != target,
        k == s.len() || s[k] == target,
    ensures
        find_char(s, from, target) == k,
    decreases k - from,
{
    if from < k {
        lemma_find_char_exact(s, from + 1, k, target);
    }
}

/// A valid ticker slice normalizes to itself: nothing to trim,
/// nothing to uppercase.
pub proof fn lemma_norm_token_of_ticker(s: Seq<char>, from: int, to: int, tk: Seq<char>)
    requires
        0 <= from <= to <= s.len(),
        s.subrange(from, to) == tk,
        ticker_ok(tk),
    ensures
        norm_token(s, from, to) == tk,
{
    assert((' ' as nat) == 32 && ('\t' as nat) == 9 && ('\n' as nat) == 10 && ('\r' as nat)
        == 13);
    assert(forall|i: int| from <= i < to ==> #[trigger] s[i] == tk[i - from]);
    assert(forall|i: int| 0 <= i < tk.len() ==> !is_ws(#[trigger] tk[i]));
    assert(ws_run(s, from, to) == 0);
    assert(ws_run_back(s, from, to) == 0);
    assert(crate::text::all_ascii(tk));
    crate::text::lemma_all_ascii_is_ascii_chars(tk);
    assert(crate::text::upper_chars(tk) =~= tk);
}

/// Every character of a joined valid ticker list is a ticker
/// character or a comma, and the list renders non-empty, ending in a
/// ticker character.
pub proof fn lemma_join_commas_chars(ts: Seq<Seq<char>>)
    requires
        ts.len() >= 1,
        forall|k: int| 0 <= k < ts.len() ==> ticker_ok(#[trigger] ts[k]),
    ensures
        join_commas(ts).len() >= 1,
        is_ticker_char(join_commas(ts).last()),
        forall|i: int|
            0 <= i < join_commas(ts).len() ==> is_ticker_char(#[trigger] join_commas(ts)[i])
                || join_commas(ts)[i] == ',',
    decreases ts.len(),
{
    reveal_strlit(",");
    let j = join_commas(ts);
    if ts.len() == 1 {
        assert(j == ts[0]);
    } else {
        assert(forall|k: int| 0 <= k < ts.drop_last().len() ==> ticker_ok(
            #[trigger] ts.drop_last()[k]));
        lemma_join_commas_chars(ts.drop_last());
        let jd = join_commas(ts.drop_last());
        let tl = ts.last();
        assert(j == jd + ","@ + tl);
        assert forall|i: int|
            0 <= i < j.len() implies is_ticker_char(#[trigger] j[i]) || j[i] == ',' by {
            if i < jd.len() {
                assert(j[i] == jd[i]);
            } else if i == jd.len() {
                assert(j[i] == ","@[0]);
            } else {
                assert(j[i] == tl[i - jd.len() - 1]);
            }
        }
        assert(j.last() == tl.last());
    }
}

/// Collecting tickers out of a rendered list gives the list back.
#[verifier::rlimit(100)]
pub proof fn lemma_collect_of_join(s: Seq<char>, from: int, ts: Seq<Seq<char>>)
    requires
        0 <= from <= s.len(),
        ts.len() >= 1,
        forall|k: int| 0 <= k < ts.len() ==> ticker_ok(#[trigger] ts[k]),
        s.subrange(from, s.len() as int) == join_commas(ts),
    ensures
        spec_collect_tickers(s, from) == Ok::<Seq<Seq<char>>, Seq<char>>(ts),
    decreases ts.len(),
{
    reveal_strlit(",");
    let j = join_commas(ts);
    lemma_join_commas_chars(ts);
    assert(forall|i: int| from <= i < s.len() ==> #[trigger] s[i] == j[i - from]);
    if ts.len() == 1 {
        assert(j == ts[0]);
        assert(forall|i: int| from <= i < s.len() ==> #[trigger] s[i] != ',') by {
            assert(forall|i: int| 0 <= i < ts[0].len() ==> is_ticker_char(#[trigger] ts[0][i]));
            assert((',' as nat) == 44);
        }
        lemma_find_char_exact(s, from, s.len() as int, ',');
        lemma_norm_token_of_ticker(s, from, s.len() as int, ts[0]);
        assert(spec_collect_tickers(s, from) == Ok::<Seq<Seq<char>>, Seq<char>>(seq![ts[0]]));
        assert(seq![ts[0]] =~= ts);
    } else {
        let t0 = ts[0];
        let rest = ts.drop_first();
        assert(ts.drop_last().len() >= 1);
        lemma_join_first(ts);
        let l0 = t0.len() as int;
        assert(forall|i: int| from <= i < from + l0 ==> #[trigger] s[i] != ',') by {
            assert(forall|i: int| 0 <= i < t0.len() ==> is_ticker_char(#[trigger] t0[i]));
            assert((',' as nat) == 44);
        }
        assert(s[from + l0] == ',');
        lemma_find_char_exact(s, from, from + l0, ',');
        assert(s.subrange(from, from + l0) =~= t0);
        lemma_norm_token_of_ticker(s, from, from + l0, t0);
        assert(forall|k: int| 0 <= k < rest.len() ==> ticker_ok(#[trigger] rest[k]));
        assert(s.subrange(from + l0 + 1, s.len() as int) =~= join_commas(rest));
        lemma_collect_of_join(s, from + l0 + 1, rest);
        assert(spec_collect_tickers(s, from) == Ok::<Seq<Seq<char>>, Seq<char>>(
            seq![t0] + rest,
        ));
        assert(seq![t0] + rest =~= ts);
    }
}

/// A joined list of two or more tickers opens with the first ticker,
/// a comma, and the joined remainder.
pub proof fn lemma_join_first(ts: Seq<Seq<char>>)
    requires
        ts.len() >= 2,
    ensures
        join_commas(ts) == ts[0] + ","@ + join_commas(ts.drop_first()),
    decreases ts.len(),
{
    if ts.len() == 2 {
        assert(ts.drop_last() =~= seq![ts[0]]);
        assert(ts.drop_first() =~= seq![ts[1]]);
        assert(join_commas(seq![ts[0]]) == ts[0]);
        assert(join_commas(seq![ts[1]]) == ts[1]);
        assert(join_commas(ts) =~= ts[0] + ","@ + join_commas(ts.drop_first()));
    } else {
        lemma_join_first(ts.drop_last());
        assert(ts.drop_last().drop_first() =~= ts.drop_first().drop_last());
        assert(ts.drop_last()[0] == ts[0]);
        assert(ts.drop_first().last() == ts.last());
        assert(join_commas(ts) == join_commas(ts.drop_last()) + ","@ + ts.last());
        assert(join_commas(ts.drop_last()) == ts[0] + ","@ + join_commas(
            ts.drop_last().drop_first(),
        ));
        assert(join_commas(ts.drop_first()) == join_commas(ts.drop_first().drop_last()) + ","@
            + ts.drop_first().last());
        assert(join_commas(ts) =~= ts[0] + ","@ + join_commas(ts.drop_first()));
    }
}

/// A rendered subscription line means exactly what it was built from:
/// parsing the line the client sends yields back the advertised
/// endpoint and the ticker list, for any endpoint and any non-empty
/// list of valid ticker symbols.
#[verifier::rlimit(100)]
pub proof fn lemma_stream_line_roundtrip(a: SocketAddress, ts: Seq<Seq<char>>)
    requires
        ts.len() >= 1,
        forall|k: int| 0 <= k < ts.len() ==> ticker_ok(#[trigger] ts[k]),
    ensures
        spec_parse_stream(stream_line_chars(a, ts)) == Ok::<(SocketAddress, Seq<Seq<char>>), Seq<
            char,
        >>((a, ts)),
{
    reveal_strlit("STREAM udp://");
    reveal_strlit("STREAM ");
    reveal_strlit("udp://");
    reveal_strlit(" ");
    reveal_strlit("\n");
    assert((' ' as nat) == 32 && ('\t' as nat) == 9 && ('\n' as nat) == 10 && ('\r' as nat)
        == 13);
    crate::net::lemma_sockaddr_roundtrip(a);
    let line = stream_line_chars(a, ts);
    let ac = sockaddr_chars(a);
    let j = join_commas(ts);
    lemma_sockaddr_bytes_ascii(a);
    lemma_join_commas_chars(ts);
    let alen = ac.len() as int;
    let jlen = j.len() as int;
    let n = line.len() as int;
    assert(n == 13 + alen + 1 + jlen + 1);

    // surrounding whitespace: none in front, exactly the final newline
    assert(line[0] == 'S');
    assert(!is_ws('S'));
    assert(ws_run(line, 0, n) == 0);
    assert(line[n - 1] == '\n');
    assert(line[n - 2] == j.last());
    assert(!is_ws(j.last()));
    assert(ws_run_back(line, 0, n) == 1) by {
        assert(is_ws(line[n - 1]));
        assert(!is_ws(line[n - 2]));
        assert(ws_run_back(line, 0, n - 1) == 0);
    }
    let t = trim_chars(line);
    assert(t =~= line.subrange(0, n - 1));
    let tlen = t.len() as int;

    // the command prefix
    assert(t.subrange(0, 7) =~= "STREAM "@);
    assert(has_chars_at(t, 0, "STREAM "@));

    // the first space ends the address part
    let sp: int = 13 + alen;
    assert(t[sp] == ' ');
    assert(forall|i: int| 13 <= i < sp ==> #[trigger] t[i] == ac[i - 13]);
    assert(forall|i: int| 0 <= i < alen ==> (#[trigger] ac[i] as nat) != 32) by {
        assert(forall|i: int|
            0 <= i < alen ==> ac[i] == ((#[trigger] sockaddr_bytes(a)[i]) as char));
    }
    assert(forall|i: int| 7 <= i < sp ==> #[trigger] t[i] != ' ') by {
        assert(forall|i: int| 13 <= i < sp ==> (#[trigger] t[i] as nat) != 32);
        assert(forall|i: int| 13 <= i < sp ==> #[trigger] t[i] != ' ');
    }
    lemma_find_char_exact(t, 7, sp, ' ');
    assert(sp < tlen);

    // the scheme prefix and the address
    assert(t.subrange(7, 13) =~= "udp://"@);
    assert(has_chars_at(t, 7, "udp://"@));
    let addr = t.subrange(13, sp);
    assert(addr =~= ac);
    assert(crate::text::all_ascii(ac)) by {
        assert(forall|i: int|
            0 <= i < alen ==> ac[i] == ((#[trigger] sockaddr_bytes(a)[i]) as char));
    }
    crate::text::lemma_all_ascii_is_ascii_chars(ac);
    assert(ascii_bytes(ac) =~= sockaddr_bytes(a)) by {
        assert(forall|i: int|
            0 <= i < alen ==> ac[i] == ((#[trigger] sockaddr_bytes(a)[i]) as char));
    }

    // the ticker list
    assert(t.subrange(sp + 1, tlen) =~= j);
    lemma_collect_of_join(t, sp + 1, ts);
}

} // verus!
