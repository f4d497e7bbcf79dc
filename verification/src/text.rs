//! Small verified text utilities shared by the wire-format modules:
//! ASCII classification, decimal rendering and parsing over byte
//! sequences, and conversions between ASCII byte vectors and `String`.

use vstd::prelude::*;
use vstd::string::StrSliceExecFns;

verus! {

/// The bytes of an ASCII string, one byte per character.
pub open spec fn ascii_bytes(s: Seq<char>) -> Seq<u8> {
    s.map(|_i: int, c: char| (c as nat) as u8)
}

/// A character sequence is ASCII when every character fits in seven bits.
pub open spec fn all_ascii(s: Seq<char>) -> bool {
    forall|i: int| 0 <= i < s.len() ==> (#[trigger] s[i] as nat) < 128
}

pub open spec fn is_digit(b: u8) -> bool {
    48 <= b <= 57
}

pub open spec fn digit_val(b: u8) -> nat
    recommends
        is_digit(b),
{
    (b - 48) as nat
}

/// The decimal rendering of `n`, most significant digit first,
/// without leading zeros (`0` renders as the single byte `b'0'`).
pub open spec fn dec_bytes(n: nat) -> Seq<u8>
    decreases n,
{
    if n < 10 {
        seq![(n + 48) as u8]
    } else {
        dec_bytes(n / 10) + seq![(n % 10 + 48) as u8]
    }
}

/// The value of an all-digit byte sequence read in base ten.
pub open spec fn dec_val(s: Seq<u8>) -> nat
    decreases s.len(),
{
    if s.len() == 0 {
        0
    } else {
        dec_val(s.drop_last()) * 10 + digit_val(s.last())
    }
}

pub open spec fn all_digits(s: Seq<u8>) -> bool {
    forall|i: int| 0 <= i < s.len() ==> is_digit(#[trigger] s[i])
}

/// Rendering a number and reading the digits back yields the number,
/// and the rendering is a non-empty run of digits.
pub proof fn lemma_dec_bytes_roundtrip(n: nat)
    ensures
        dec_val(dec_bytes(n)) == n,
        all_digits(dec_bytes(n)),
        dec_bytes(n).len() >= 1,
    decreases n,
{
    if n < 10 {
        assert(dec_val(dec_bytes(n)) == dec_val(dec_bytes(n).drop_last()) * 10 + digit_val(
            dec_bytes(n).last(),
        ));
        assert(dec_bytes(n).drop_last() =~= Seq::<u8>::empty());
    } else {
        lemma_dec_bytes_roundtrip(n / 10);
        assert(dec_bytes(n).drop_last() =~= dec_bytes(n / 10));
        assert(forall|i: int|
            0 <= i < dec_bytes(n).len() ==> is_digit(#[trigger] dec_bytes(n)[i])) by {
            assert(forall|i: int|
                0 <= i < dec_bytes(n / 10).len() ==> is_digit(#[trigger] dec_bytes(n / 10)[i]));
            assert(dec_bytes(n).last() == (n % 10 + 48) as u8);
        }
    }
}

/// Appends the decimal rendering of `n` to `out`.
pub fn push_dec_u64(out: &mut Vec<u8>, n: u64)
    ensures
        final(out)@ == old(out)@ + dec_bytes(n as nat),
    decreases n,
{
    if n < 10 {
        out.push((n as u8) + 48);
        assert(out@ =~= old(out)@ + dec_bytes(n as nat));
    } else {
        push_dec_u64(out, n / 10);
        out.push(((n % 10) as u8) + 48);
        assert(out@ =~= old(out)@ + dec_bytes(n as nat));
    }
}

/// Exec equality of string slices, character by character.
pub fn str_eq(a: &str, b: &str) -> (r: bool)
    ensures
        r == (a@ == b@),
{
    let alen = a.unicode_len();
    let blen = b.unicode_len();
    if alen != blen {
        return false;
    }
    for i in 0..alen
        invariant
            alen == a@.len(),
            alen == b@.len(),
            forall|j: int| 0 <= j < i ==> a@[j] == b@[j],
    {
        if a.get_char(i) != b.get_char(i) {
            return false;
        }
    }
    proof {
        assert(a@ =~= b@);
    }
    true
}

pub open spec fn pow10(n: nat) -> nat
    decreases n,
{
    if n == 0 {
        1
    } else {
        10 * pow10((n - 1) as nat)
    }
}

/// An all-digit sequence of length `n` reads as a value below ten to the `n`.
pub proof fn lemma_dec_val_bound(s: Seq<u8>)
    requires
        all_digits(s),
    ensures
        dec_val(s) < pow10(s.len()),
    decreases s.len(),
{
    if s.len() > 0 {
        assert(all_digits(s.drop_last()));
        lemma_dec_val_bound(s.drop_last());
        assert(digit_val(s.last()) <= 9);
    }
}

/// Length of the run of decimal digits in `s` that starts at `from`.
pub open spec fn digit_run_len(s: Seq<u8>, from: int) -> nat
    decreases s.len() - from,
{
    if from < 0 || from >= s.len() || !is_digit(s[from]) {
        0
    } else {
        1 + digit_run_len(s, from + 1)
    }
}

pub proof fn lemma_digit_run(s: Seq<u8>, from: int)
    requires
        0 <= from <= s.len(),
    ensures
        from + digit_run_len(s, from) <= s.len(),
        all_digits(s.subrange(from, from + digit_run_len(s, from))),
        from + digit_run_len(s, from) < s.len() ==> !is_digit(s[from + digit_run_len(s, from)]),
    decreases s.len() - from,
{
    if from < s.len() && is_digit(s[from]) {
        lemma_digit_run(s, from + 1);
        let r = digit_run_len(s, from);
        let sub = s.subrange(from, from + r);
        let subn = s.subrange(from + 1, from + 1 + digit_run_len(s, from + 1));
        assert forall|i: int| 0 <= i < sub.len() implies is_digit(sub[i]) by {
            if i > 0 {
                assert(sub[i] == subn[i - 1]);
            }
        }
    }
}

/// Index just past the run of digits that starts at `from`.
pub fn scan_digits(b: &[u8], from: usize) -> (end: usize)
    requires
        from <= b@.len(),
    ensures
        end == from + digit_run_len(b@, from as int),
    decreases b@.len() - from,
{
    if from < b.len() && 48 <= b[from] && b[from] <= 57 {
        scan_digits(b, from + 1)
    } else {
        from
    }
}

/// Reads the base-ten value of `b[from..to]`, a run of at most 19 digits
/// (so the value always fits in a `u64`).
pub fn parse_dec_u64(b: &[u8], from: usize, to: usize) -> (v: u64)
    requires
        from <= to <= b@.len(),
        to - from <= 19,
        all_digits(b@.subrange(from as int, to as int)),
    ensures
        v == dec_val(b@.subrange(from as int, to as int)),
{
    proof {
        lemma_pow10_19();
    }
    let mut acc: u64 = 0;
    let mut i: usize = from;
    while i < to
        invariant
            from <= i <= to <= b@.len(),
            to - from <= 19,
            all_digits(b@.subrange(from as int, to as int)),
            acc == dec_val(b@.subrange(from as int, i as int)),
            acc < pow10((i - from) as nat),
            pow10(19) == 10_000_000_000_000_000_000,
        decreases to - i,
    {
        let d = b[i];
        proof {
            assert(b@.subrange(from as int, to as int)[i - from] == b@[i as int]);
            lemma_pow10_le((i + 1 - from) as nat, 19);
            assert(b@.subrange(from as int, i + 1).drop_last() =~= b@.subrange(
                from as int,
                i as int,
            ));
            assert(b@.subrange(from as int, i + 1).last() == b@[i as int]);
        }
        acc = acc * 10 + ((d - 48) as u64);
        i = i + 1;
    }
    acc
}

pub proof fn lemma_pow10_19()
    ensures
        pow10(19) == 10_000_000_000_000_000_000,
{
    reveal_with_fuel(pow10, 20);
}

pub proof fn lemma_pow10_le(a: nat, b: nat)
    requires
        a <= b,
    ensures
        pow10(a) <= pow10(b),
    decreases b,
{
    if a < b {
        lemma_pow10_le(a, (b - 1) as nat);
    }
}

/// The rendering of `n` has at most `k` digits when `n` is below ten
/// to the `k`.
pub proof fn lemma_dec_len(n: nat, k: nat)
    requires
        n < pow10(k),
        k >= 1,
    ensures
        dec_bytes(n).len() <= k,
    decreases k,
{
    if n < 10 {
    } else {
        assert(pow10(k) == 10 * pow10((k - 1) as nat));
        assert(n / 10 < pow10((k - 1) as nat));
        lemma_dec_len(n / 10, (k - 1) as nat);
    }
}

/// A digit run surrounded as such: `k` digits followed by a non-digit
/// (or the end) scan as exactly `k`.
pub proof fn lemma_digit_run_exact(b: Seq<u8>, from: int, k: int)
    requires
        0 <= from,
        0 <= k,
        from + k <= b.len(),
        forall|j: int| from <= j < from + k ==> is_digit(#[trigger] b[j]),
        from + k == b.len() || !is_digit(b[from + k]),
    ensures
        digit_run_len(b, from) == k,
    decreases k,
{
    if k > 0 {
        assert(is_digit(b[from]));
        lemma_digit_run_exact(b, from + 1, k - 1);
    }
}

/// ASCII uppercasing of a byte: letters `a`-`z` map to `A`-`Z`,
/// every other byte is unchanged.
pub open spec fn upper_byte(b: u8) -> u8 {
    if 97 <= b <= 122 {
        (b - 32) as u8
    } else {
        b
    }
}

/// ASCII uppercasing of a character sequence.
pub open spec fn upper_chars(s: Seq<char>) -> Seq<char> {
    s.map(
        |_i: int, c: char|
            if 97 <= c as nat <= 122 {
                ((c as nat - 32) as u8) as char
            } else {
                c
            },
    )
}

/// Uppercases an ASCII string.
pub fn ascii_upper(s: &str) -> (r: String)
    requires
        vstd::string::is_ascii(s),
    ensures
        r@ == upper_chars(s@),
        all_ascii(r@),
{
    proof {
        broadcast use vstd::utf8::is_ascii_chars_nat_bound;
    }
    let n = s.unicode_len();
    let mut out: Vec<u8> = Vec::new();
    let mut i: usize = 0;
    while i < n
        invariant
            vstd::string::is_ascii(s),
            n == s@.len(),
            i <= n,
            out@.len() == i,
            forall|j: int|
                0 <= j < i ==> out@[j] < 128 && (#[trigger] out@[j]) as char == upper_chars(s@)[j],
        decreases n - i,
    {
        let c = s.get_char(i);
        let x = c as u32;
        proof {
            assert((s@[i as int] as nat) < 128);
        }
        if 97 <= x && x <= 122 {
            out.push((x - 32) as u8);
        } else {
            out.push(x as u8);
        }
        i = i + 1;
    }
    let r = ascii_to_string(out);
    proof {
        assert(r@ =~= upper_chars(s@));
        assert forall|j: int| 0 <= j < r@.len() implies (#[trigger] r@[j] as nat) < 128 by {
            assert(r@[j] == out@[j] as char);
        }
    }
    r
}

/// Relies on `String::from_utf8`: a vector of bytes below 128 is valid
/// UTF-8 and decodes to exactly those bytes as characters.
#[verifier::external_body]
pub fn ascii_to_string(v: Vec<u8>) -> (r: String)
    requires
        forall|i: int| 0 <= i < v@.len() ==> v@[i] < 128,
    ensures
        r@.len() == v@.len(),
        forall|i: int| 0 <= i < v@.len() ==> r@[i] == (v@[i] as char),
{
    match String::from_utf8(v) {
        Ok(s) => s,
        Err(_) => String::new(),
    }
}

/// An ASCII character survives the round trip through its code byte.
pub proof fn lemma_char_code_roundtrip(c: char)
    requires
        (c as nat) < 128,
    ensures
        (((c as nat) as u8) as char) == c,
{
    let code: nat = c as nat;
    let byte: u8 = code as u8;
    let back: char = byte as char;
    assert((byte as nat) < 128);
    assert((back as nat) == c as nat);
    assert((code as char) == c);
    assert(back == c);
}

/// Mapping an ASCII character sequence to bytes and back is the identity.
pub proof fn lemma_ascii_chars_roundtrip(s: Seq<char>)
    requires
        all_ascii(s),
    ensures
        ascii_bytes(s).map(|_j: int, x: u8| x as char) == s,
{
    let round = ascii_bytes(s).map(|_j: int, x: u8| x as char);
    assert forall|i: int| 0 <= i < s.len() implies round[i] == s[i] by {
        assert((s[i] as nat) < 128);
        lemma_char_code_roundtrip(s[i]);
        assert(round[i] == ((s[i] as nat) as u8) as char);
    }
    assert(round =~= s);
}

/// A character whose code point is below 128 sits in the ASCII range
/// of the character ordering.
pub proof fn lemma_ascii_code_bound(c: char)
    requires
        (c as nat) < 128,
    ensures
        '\0' <= c <= '\u{7f}',
{
    lemma_char_code_roundtrip(c);
    let byte: u8 = (c as nat) as u8;
    assert('\0' <= (byte as char) <= '\u{7f}');
}

/// A sequence of characters with code points below 128 is ASCII.
pub proof fn lemma_all_ascii_is_ascii_chars(s: Seq<char>)
    requires
        all_ascii(s),
    ensures
        vstd::utf8::is_ascii_chars(s),
{
    assert forall|i: int| 0 <= i < s.len() implies '\0' <= #[trigger] s[i] <= '\u{7f}' by {
        assert((s[i] as nat) < 128);
        lemma_ascii_code_bound(s[i]);
    }
}

} // verus!
