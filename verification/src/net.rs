//! Socket addresses as plain values: four octets or eight 16-bit
//! segments plus a port, with a verified parser for the textual forms
//! `a.b.c.d:port` and `[groups]:port` (IPv6 groups in hex, one `::`
//! elision allowed).

use vstd::prelude::*;

use crate::text::{dec_bytes, dec_val, digit_run_len, parse_dec_u64, scan_digits};

verus! {

/// An IPv4 address: four octets in textual order.
#[derive(Debug, Clone, Copy, PartialEq, Eq, Structural)]
pub struct Ipv4Address {
    pub o0: u8,
    pub o1: u8,
    pub o2: u8,
    pub o3: u8,
}

/// An IPv6 address: eight 16-bit segments in textual order.
#[derive(Debug, Clone, Copy, PartialEq, Eq, Structural)]
pub struct Ipv6Address {
    pub s0: u16,
    pub s1: u16,
    pub s2: u16,
    pub s3: u16,
    pub s4: u16,
    pub s5: u16,
    pub s6: u16,
    pub s7: u16,
}

#[derive(Debug, Clone, Copy, PartialEq, Eq, Structural)]
pub enum IpAddress {
    V4(Ipv4Address),
    V6(Ipv6Address),
}

/// A UDP or TCP endpoint: an IP address and a port.
#[derive(Debug, Clone, Copy, PartialEq, Eq, Structural)]
pub struct SocketAddress {
    pub ip: IpAddress,
    pub port: u16,
}

impl SocketAddress {
    /// The IPv4 endpoint `o0.o1.o2.o3:port`.
    pub fn v4(o0: u8, o1: u8, o2: u8, o3: u8, port: u16) -> (r: SocketAddress)
        ensures
            r == (SocketAddress { ip: IpAddress::V4(Ipv4Address { o0, o1, o2, o3 }), port }),
    {
        SocketAddress { ip: IpAddress::V4(Ipv4Address { o0, o1, o2, o3 }), port }
    }
}

pub open spec fn is_hex_digit(b: u8) -> bool {
    48 <= b <= 57 || 97 <= b <= 102 || 65 <= b <= 70
}

pub open spec fn hex_digit_val(b: u8) -> nat
    recommends
        is_hex_digit(b),
{
    if 48 <= b <= 57 {
        (b - 48) as nat
    } else if 97 <= b <= 102 {
        (b - 87) as nat
    } else {
        (b - 55) as nat
    }
}

/// The value of an all-hex-digit byte sequence read in base sixteen.
pub open spec fn hex_val(s: Seq<u8>) -> nat
    decreases s.len(),
{
    if s.len() == 0 {
        0
    } else {
        hex_val(s.drop_last()) * 16 + hex_digit_val(s.last())
    }
}

pub open spec fn all_hex_digits(s: Seq<u8>) -> bool {
    forall|i: int| 0 <= i < s.len() ==> is_hex_digit(#[trigger] s[i])
}

/// Length of the run of hex digits in `s` that starts at `from`.
pub open spec fn hex_run_len(s: Seq<u8>, from: int) -> nat
    decreases s.len() - from,
{
    if from < 0 || from >= s.len() || !is_hex_digit(s[from]) {
        0
    } else {
        1 + hex_run_len(s, from + 1)
    }
}

pub proof fn lemma_hex_run(s: Seq<u8>, from: int)
    requires
        0 <= from <= s.len(),
    ensures
        from + hex_run_len(s, from) <= s.len(),
        all_hex_digits(s.subrange(from, from + hex_run_len(s, from))),
        from + hex_run_len(s, from) < s.len() ==> !is_hex_digit(s[from + hex_run_len(s, from)]),
    decreases s.len() - from,
{
    if from < s.len() && is_hex_digit(s[from]) {
        lemma_hex_run(s, from + 1);
        let r = hex_run_len(s, from) as int;
        let sub = s.subrange(from, from + r);
        let subn = s.subrange(from + 1, from + 1 + hex_run_len(s, from + 1));
        assert forall|i: int| 0 <= i < sub.len() implies is_hex_digit(sub[i]) by {
            if i > 0 {
                assert(sub[i] == subn[i - 1]);
            }
        }
    }
}

/// Index just past the run of hex digits that starts at `from`.
pub fn scan_hex(b: &[u8], from: usize) -> (end: usize)
    requires
        from <= b@.len(),
    ensures
        end == from + hex_run_len(b@, from as int),
    decreases b@.len() - from,
{
    if from < b.len() && (48 <= b[from] && b[from] <= 57 || 97 <= b[from] && b[from] <= 102 || 65
        <= b[from] && b[from] <= 70) {
        scan_hex(b, from + 1)
    } else {
        from
    }
}

/// Reads the base-sixteen value of `b[from..to]`, a run of at most four
/// hex digits (so the value always fits in a `u16`).
pub fn parse_hex_u16(b: &[u8], from: usize, to: usize) -> (v: u16)
    requires
        from <= to <= b@.len(),
        to - from <= 4,
        all_hex_digits(b@.subrange(from as int, to as int)),
    ensures
        v == hex_val(b@.subrange(from as int, to as int)),
{
    proof {
        lemma_hex_val_bound(b@.subrange(from as int, to as int));
    }
    let mut acc: u16 = 0;
    let mut i: usize = from;
    while i < to
        invariant
            from <= i <= to <= b@.len(),
            to - from <= 4,
            all_hex_digits(b@.subrange(from as int, to as int)),
            acc == hex_val(b@.subrange(from as int, i as int)),
            acc < 0x10000,
            hex_val(b@.subrange(from as int, i as int)) < pow16((i - from) as nat),
        decreases to - i,
    {
        let d = b[i];
        proof {
            assert(b@.subrange(from as int, to as int)[i - from] == b@[i as int]);
        }
        let dv: u16 = if 48 <= d && d <= 57 {
            (d - 48) as u16
        } else if 97 <= d && d <= 102 {
            (d - 87) as u16
        } else {
            (d - 55) as u16
        };
        proof {
            assert(b@.subrange(from as int, to as int)[i - from] == b@[i as int]);
            assert(b@.subrange(from as int, i + 1).drop_last() =~= b@.subrange(
                from as int,
                i as int,
            ));
            assert(b@.subrange(from as int, i + 1).last() == b@[i as int]);
            lemma_pow16_le((i + 1 - from) as nat, 4);
            reveal_with_fuel(pow16, 5);
        }
        acc = acc * 16 + dv;
        i = i + 1;
    }
    acc
}

pub open spec fn pow16(n: nat) -> nat
    decreases n,
{
    if n == 0 {
        1
    } else {
        16 * pow16((n - 1) as nat)
    }
}

pub proof fn lemma_pow16_le(a: nat, b: nat)
    requires
        a <= b,
    ensures
        pow16(a) <= pow16(b),
    decreases b,
{
    if a < b {
        lemma_pow16_le(a, (b - 1) as nat);
    }
}

/// An all-hex-digit sequence of length `n` reads as a value below
/// sixteen to the `n`.
pub proof fn lemma_hex_val_bound(s: Seq<u8>)
    requires
        all_hex_digits(s),
    ensures
        hex_val(s) < pow16(s.len()),
    decreases s.len(),
{
    if s.len() > 0 {
        assert(all_hex_digits(s.drop_last()));
        lemma_hex_val_bound(s.drop_last());
        assert(hex_digit_val(s.last()) <= 15);
    }
}

/// First position of `target` in `s` at or after `from`; the length of
/// `s` when the byte does not occur.
pub open spec fn find_byte(s: Seq<u8>, from: int, target: u8) -> int
    decreases s.len() - from,
{
    if from < 0 || from >= s.len() {
        s.len() as int
    } else if s[from] == target {
        from
    } else {
        find_byte(s, from + 1, target)
    }
}

pub proof fn lemma_find_byte(s: Seq<u8>, from: int, target: u8)
    requires
        0 <= from <= s.len(),
    ensures
        from <= find_byte(s, from, target) <= s.len(),
        find_byte(s, from, target) < s.len() ==> s[find_byte(s, from, target)] == target,
        forall|j: int| from <= j < find_byte(s, from, target) ==> s[j] != target,
    decreases s.len() - from,
{
    if from < s.len() && s[from] != target {
        lemma_find_byte(s, from + 1, target);
    }
}

/// Index of the first occurrence of `target` at or after `from`.
pub fn scan_find_byte(b: &[u8], from: usize, target: u8) -> (r: usize)
    requires
        from <= b@.len(),
    ensures
        r == find_byte(b@, from as int, target),
    decreases b@.len() - from,
{
    if from < b.len() {
        if b[from] == target {
            from
        } else {
            scan_find_byte(b, from + 1, target)
        }
    } else {
        from
    }
}

/// Groups of an IPv6 address read from `s[from..to]`: runs of one to
/// four hex digits separated by single colons.
pub open spec fn spec_parse_groups(s: Seq<u8>, from: int, to: int) -> Option<Seq<u16>>
    decreases to - from,
{
    if from < 0 || from >= to || to > s.len() {
        None
    } else {
        let g = hex_run_len(s, from) as int;
        let v = hex_val(s.subrange(from, from + g));
        if g < 1 || g > 4 || from + g > to {
            None
        } else if from + g == to {
            Some(seq![v as u16])
        } else if s[from + g] == 58 {
            match spec_parse_groups(s, from + g + 1, to) {
                Some(rest) => Some(seq![v as u16] + rest),
                None => None,
            }
        } else {
            None
        }
    }
}

/// First position in `[from, to - 1)` where two colons stand together;
/// `to` when there is none.
pub open spec fn find_double_colon(s: Seq<u8>, from: int, to: int) -> int
    decreases to - from,
{
    if from < 0 || from + 1 >= to || to > s.len() {
        to
    } else if s[from] == 58 && s[from + 1] == 58 {
        from
    } else {
        find_double_colon(s, from + 1, to)
    }
}

pub open spec fn seq_zeros(n: nat) -> Seq<u16> {
    Seq::new(n, |_i: int| 0u16)
}

/// Eight groups as an address value.
pub open spec fn groups_to_v6(gs: Seq<u16>) -> Ipv6Address
    recommends
        gs.len() == 8,
{
    Ipv6Address {
        s0: gs[0],
        s1: gs[1],
        s2: gs[2],
        s3: gs[3],
        s4: gs[4],
        s5: gs[5],
        s6: gs[6],
        s7: gs[7],
    }
}

/// The IPv6 address written in `s[from..to]`: eight groups, or fewer
/// with one `::` standing for the missing zero groups.
pub open spec fn spec_parse_v6(s: Seq<u8>, from: int, to: int) -> Option<Ipv6Address> {
    let dp = find_double_colon(s, from, to);
    if dp == to {
        match spec_parse_groups(s, from, to) {
            Some(gs) => if gs.len() == 8 {
                Some(groups_to_v6(gs))
            } else {
                None
            },
            None => None,
        }
    } else {
        let lgs = if dp == from {
            Some(Seq::<u16>::empty())
        } else {
            spec_parse_groups(s, from, dp)
        };
        let rgs = if dp + 2 == to {
            Some(Seq::<u16>::empty())
        } else {
            spec_parse_groups(s, dp + 2, to)
        };
        match lgs {
            Some(l) => match rgs {
                Some(r) => if l.len() + r.len() <= 7 {
                    Some(groups_to_v6(l + seq_zeros((8 - l.len() - r.len()) as nat) + r))
                } else {
                    None
                },
                None => None,
            },
            None => None,
        }
    }
}

/// The port written at the tail `s[from..]`: one to five digits
/// reaching the end, value at most 65535.
pub open spec fn spec_parse_port(s: Seq<u8>, from: int) -> Option<u16> {
    let run = digit_run_len(s, from) as int;
    let v = dec_val(s.subrange(from, from + run));
    if 0 <= from && 1 <= run <= 5 && from + run == s.len() && v <= 65535 {
        Some(v as u16)
    } else {
        None
    }
}

/// The IPv4 address written in `s[from..to]`: four runs of one to
/// three digits separated by dots, each at most 255.
pub open spec fn spec_parse_ipv4(s: Seq<u8>, from: int, to: int) -> Option<Ipv4Address> {
    if from < 0 || to > s.len() {
        None
    } else {
        let r0 = digit_run_len(s, from) as int;
        let d0 = dec_val(s.subrange(from, from + r0));
        let p1 = from + r0 + 1;
        let r1 = digit_run_len(s, p1) as int;
        let d1 = dec_val(s.subrange(p1, p1 + r1));
        let p2 = p1 + r1 + 1;
        let r2 = digit_run_len(s, p2) as int;
        let d2 = dec_val(s.subrange(p2, p2 + r2));
        let p3 = p2 + r2 + 1;
        let r3 = digit_run_len(s, p3) as int;
        let d3 = dec_val(s.subrange(p3, p3 + r3));
        if {
            &&& 1 <= r0 <= 3 && d0 <= 255
            &&& from + r0 < to && s[from + r0] == 46
            &&& 1 <= r1 <= 3 && d1 <= 255
            &&& p1 + r1 < to && s[p1 + r1] == 46
            &&& 1 <= r2 <= 3 && d2 <= 255
            &&& p2 + r2 < to && s[p2 + r2] == 46
            &&& 1 <= r3 <= 3 && d3 <= 255
            &&& p3 + r3 == to
        } {
            Some(Ipv4Address { o0: d0 as u8, o1: d1 as u8, o2: d2 as u8, o3: d3 as u8 })
        } else {
            None
        }
    }
}

/// The socket address written in `s`: a bracketed IPv6 address or a
/// bare IPv4 address, a colon, and a port.
pub open spec fn spec_parse_sockaddr(s: Seq<u8>) -> Option<SocketAddress> {
    if s.len() > 0 && s[0] == 91 {
        let rb = find_byte(s, 1, 93);
        if rb >= s.len() {
            None
        } else {
            match spec_parse_v6(s, 1, rb) {
                Some(ip) => if rb + 1 < s.len() && s[rb + 1] == 58 {
                    match spec_parse_port(s, rb + 2) {
                        Some(p) => Some(SocketAddress { ip: IpAddress::V6(ip), port: p }),
                        None => None,
                    }
                } else {
                    None
                },
                None => None,
            }
        }
    } else {
        let colon = find_byte(s, 0, 58);
        if colon >= s.len() {
            None
        } else {
            match spec_parse_ipv4(s, 0, colon) {
                Some(ip) => match spec_parse_port(s, colon + 1) {
                    Some(p) => Some(SocketAddress { ip: IpAddress::V4(ip), port: p }),
                    None => None,
                },
                None => None,
            }
        }
    }
}

pub proof fn lemma_find_double_colon(s: Seq<u8>, from: int, to: int)
    requires
        0 <= from <= to <= s.len(),
    ensures
        from <= find_double_colon(s, from, to) <= to,
        find_double_colon(s, from, to) < to ==> find_double_colon(s, from, to) + 1 < to && s[
            find_double_colon(s, from, to)
        ] == 58 && s[find_double_colon(s, from, to) + 1] == 58,
    decreases to - from,
{
    if from + 1 < to && !(s[from] == 58 && s[from + 1] == 58) {
        lemma_find_double_colon(s, from + 1, to);
    }
}

/// Index of the first `::` in `b[from..to]`, or `to`.
pub fn scan_double_colon(b: &[u8], from: usize, to: usize) -> (r: usize)
    requires
        from <= to <= b@.len(),
    ensures
        r == find_double_colon(b@, from as int, to as int),
    decreases to - from,
{
    if to - from < 2 {
        to
    } else if b[from] == 58 && b[from + 1] == 58 {
        from
    } else {
        scan_double_colon(b, from + 1, to)
    }
}

/// Reads IPv6 groups from `b[from..to]`.
pub fn parse_groups(b: &[u8], from: usize, to: usize) -> (r: Option<Vec<u16>>)
    requires
        from <= to <= b@.len(),
    ensures
        match r {
            Some(v) => spec_parse_groups(b@, from as int, to as int) == Some(v@),
            None => spec_parse_groups(b@, from as int, to as int) is None,
        },
    decreases to - from,
{
    if from >= to {
        return None;
    }
    let g_end = scan_hex(b, from);
    proof {
        lemma_hex_run(b@, from as int);
    }
    let g = g_end - from;
    if g < 1 || g > 4 || g_end > to {
        return None;
    }
    let val = parse_hex_u16(b, from, g_end);
    if g_end == to {
        let mut v: Vec<u16> = Vec::new();
        v.push(val);
        proof {
            assert(v@ =~= seq![val]);
        }
        return Some(v);
    }
    if b[g_end] == 58 {
        match parse_groups(b, g_end + 1, to) {
            Some(mut rest) => {
                let ghost rest0 = rest@;
                rest.insert(0, val);
                proof {
                    assert(rest@ =~= seq![val] + rest0);
                }
                Some(rest)
            },
            None => None,
        }
    } else {
        None
    }
}

/// Reads a bracketless IPv6 address from `b[from..to]`.
pub fn parse_v6(b: &[u8], from: usize, to: usize) -> (r: Option<Ipv6Address>)
    requires
        from <= to <= b@.len(),
    ensures
        r == spec_parse_v6(b@, from as int, to as int),
{
    let dp = scan_double_colon(b, from, to);
    if dp == to {
        match parse_groups(b, from, to) {
            Some(gs) => {
                if gs.len() == 8 {
                    Some(
                        Ipv6Address {
                            s0: gs[0],
                            s1: gs[1],
                            s2: gs[2],
                            s3: gs[3],
                            s4: gs[4],
                            s5: gs[5],
                            s6: gs[6],
                            s7: gs[7],
                        },
                    )
                } else {
                    None
                }
            },
            None => None,
        }
    } else {
        proof {
            lemma_find_double_colon(b@, from as int, to as int);
        }
        let lgs: Option<Vec<u16>> = if dp == from {
            Some(Vec::new())
        } else {
            parse_groups(b, from, dp)
        };
        let rgs: Option<Vec<u16>> = if dp + 2 == to {
            Some(Vec::new())
        } else {
            parse_groups(b, dp + 2, to)
        };
        match (lgs, rgs) {
            (Some(l), Some(r)) => {
                if l.len() <= 7 && r.len() <= 7 - l.len() {
                    let mut gs: Vec<u16> = Vec::new();
                    let mut i: usize = 0;
                    while i < l.len()
                        invariant
                            i <= l@.len(),
                            gs@ =~= l@.take(i as int),
                        decreases l@.len() - i,
                    {
                        gs.push(l[i]);
                        proof {
                            assert(gs@ =~= l@.take(i + 1));
                        }
                        i = i + 1;
                    }
                    let zeros: usize = 8 - l.len() - r.len();
                    let mut z: usize = 0;
                    while z < zeros
                        invariant
                            z <= zeros,
                            zeros == 8 - l@.len() - r@.len(),
                            gs@ =~= l@ + seq_zeros(z as nat),
                        decreases zeros - z,
                    {
                        gs.push(0);
                        proof {
                            assert(gs@ =~= l@ + seq_zeros((z + 1) as nat));
                        }
                        z = z + 1;
                    }
                    let mut j: usize = 0;
                    while j < r.len()
                        invariant
                            j <= r@.len(),
                            zeros == 8 - l@.len() - r@.len(),
                            gs@ =~= l@ + seq_zeros(zeros as nat) + r@.take(j as int),
                        decreases r@.len() - j,
                    {
                        gs.push(r[j]);
                        proof {
                            assert(gs@ =~= l@ + seq_zeros(zeros as nat) + r@.take(j + 1));
                        }
                        j = j + 1;
                    }
                    proof {
                        assert(gs@ =~= l@ + seq_zeros(zeros as nat) + r@);
                        assert(gs@.len() == 8);
                    }
                    Some(
                        Ipv6Address {
                            s0: gs[0],
                            s1: gs[1],
                            s2: gs[2],
                            s3: gs[3],
                            s4: gs[4],
                            s5: gs[5],
                            s6: gs[6],
                            s7: gs[7],
                        },
                    )
                } else {
                    None
                }
            },
            _ => None,
        }
    }
}

/// Reads an IPv4 address from `b[from..to]`.
pub fn parse_ipv4(b: &[u8], from: usize, to: usize) -> (r: Option<Ipv4Address>)
    requires
        from <= to <= b@.len(),
    ensures
        r == spec_parse_ipv4(b@, from as int, to as int),
{
    let r0end = scan_digits(b, from);
    proof {
        crate::text::lemma_digit_run(b@, from as int);
    }
    let r0 = r0end - from;
    if r0 < 1 || r0 > 3 {
        return None;
    }
    let d0 = parse_dec_u64(b, from, r0end);
    if d0 > 255 || !(r0end < to && b[r0end] == 46) {
        return None;
    }
    let p1 = r0end + 1;
    let r1end = scan_digits(b, p1);
    proof {
        crate::text::lemma_digit_run(b@, p1 as int);
    }
    let r1 = r1end - p1;
    if r1 < 1 || r1 > 3 {
        return None;
    }
    let d1 = parse_dec_u64(b, p1, r1end);
    if d1 > 255 || !(r1end < to && b[r1end] == 46) {
        return None;
    }
    let p2 = r1end + 1;
    let r2end = scan_digits(b, p2);
    proof {
        crate::text::lemma_digit_run(b@, p2 as int);
    }
    let r2 = r2end - p2;
    if r2 < 1 || r2 > 3 {
        return None;
    }
    let d2 = parse_dec_u64(b, p2, r2end);
    if d2 > 255 || !(r2end < to && b[r2end] == 46) {
        return None;
    }
    let p3 = r2end + 1;
    let r3end = scan_digits(b, p3);
    proof {
        crate::text::lemma_digit_run(b@, p3 as int);
    }
    let r3 = r3end - p3;
    if r3 < 1 || r3 > 3 {
        return None;
    }
    let d3 = parse_dec_u64(b, p3, r3end);
    if d3 > 255 || r3end != to {
        return None;
    }
    Some(Ipv4Address { o0: d0 as u8, o1: d1 as u8, o2: d2 as u8, o3: d3 as u8 })
}

/// Reads the port at the tail of `b`.
pub fn parse_port(b: &[u8], from: usize) -> (r: Option<u16>)
    requires
        from <= b@.len(),
    ensures
        r == spec_parse_port(b@, from as int),
{
    let rend = scan_digits(b, from);
    proof {
        crate::text::lemma_digit_run(b@, from as int);
    }
    let run = rend - from;
    if run < 1 || run > 5 {
        return None;
    }
    let v = parse_dec_u64(b, from, rend);
    if rend != b.len() || v > 65535 {
        return None;
    }
    Some(v as u16)
}

/// Reads a socket address: `a.b.c.d:port`, or `[v6]:port`.
pub fn parse_sockaddr(b: &[u8]) -> (r: Option<SocketAddress>)
    ensures
        r == spec_parse_sockaddr(b@),
{
    if b.len() > 0 && b[0] == 91 {
        let rb = scan_find_byte(b, 1, 93);
        proof {
            lemma_find_byte(b@, 1, 93);
        }
        if rb >= b.len() {
            return None;
        }
        match parse_v6(b, 1, rb) {
            Some(ip) => {
                if rb + 1 < b.len() && b[rb + 1] == 58 {
                    match parse_port(b, rb + 2) {
                        Some(p) => Some(SocketAddress { ip: IpAddress::V6(ip), port: p }),
                        None => None,
                    }
                } else {
                    None
                }
            },
            None => None,
        }
    } else {
        if b.len() == 0 {
            proof {
                assert(find_byte(b@, 0, 58) == 0);
            }
            return None;
        }
        let colon = scan_find_byte(b, 0, 58);
        proof {
            lemma_find_byte(b@, 0, 58);
        }
        if colon >= b.len() {
            return None;
        }
        match parse_ipv4(b, 0, colon) {
            Some(ip) => match parse_port(b, colon + 1) {
                Some(p) => Some(SocketAddress { ip: IpAddress::V4(ip), port: p }),
                None => None,
            },
            None => None,
        }
    }
}

pub open spec fn hex_digit_byte(d: nat) -> u8 {
    if d < 10 {
        (d + 48) as u8
    } else {
        (d + 87) as u8
    }
}

/// Lowercase hex rendering of `n` without leading zeros.
pub open spec fn hex_bytes(n: nat) -> Seq<u8>
    decreases n,
{
    if n < 16 {
        seq![hex_digit_byte(n)]
    } else {
        hex_bytes(n / 16) + seq![hex_digit_byte(n % 16)]
    }
}

/// Appends the hex rendering of `v`.
pub fn push_hex_u16(out: &mut Vec<u8>, v: u16)
    ensures
        final(out)@ == old(out)@ + hex_bytes(v as nat),
    decreases v,
{
    if v < 16 {
        if v < 10 {
            out.push((v as u8) + 48);
        } else {
            out.push((v as u8) + 87);
        }
        proof {
            assert(out@ =~= old(out)@ + hex_bytes(v as nat));
        }
    } else {
        push_hex_u16(out, v / 16);
        let d = (v % 16) as u8;
        if d < 10 {
            out.push(d + 48);
        } else {
            out.push(d + 87);
        }
        proof {
            assert(out@ =~= old(out)@ + hex_bytes(v as nat));
        }
    }
}

/// The textual form of an endpoint: dotted decimal for IPv4, the full
/// eight bracketed hex groups for IPv6, then a colon and the port.
pub open spec fn sockaddr_bytes(a: SocketAddress) -> Seq<u8> {
    match a.ip {
        IpAddress::V4(ip) => dec_bytes(ip.o0 as nat) + seq![46u8] + dec_bytes(ip.o1 as nat)
            + seq![46u8] + dec_bytes(ip.o2 as nat) + seq![46u8] + dec_bytes(ip.o3 as nat)
            + seq![58u8] + dec_bytes(a.port as nat),
        IpAddress::V6(ip) => seq![91u8] + hex_bytes(ip.s0 as nat) + seq![58u8] + hex_bytes(
            ip.s1 as nat,
        ) + seq![58u8] + hex_bytes(ip.s2 as nat) + seq![58u8] + hex_bytes(ip.s3 as nat)
            + seq![58u8] + hex_bytes(ip.s4 as nat) + seq![58u8] + hex_bytes(ip.s5 as nat)
            + seq![58u8] + hex_bytes(ip.s6 as nat) + seq![58u8] + hex_bytes(ip.s7 as nat)
            + seq![93u8, 58u8] + dec_bytes(a.port as nat),
    }
}

/// Appends the textual form of an endpoint.
#[verifier::rlimit(60)]
pub fn push_sockaddr(out: &mut Vec<u8>, a: &SocketAddress)
    ensures
        final(out)@ == old(out)@ + sockaddr_bytes(*a),
{
    match &a.ip {
        IpAddress::V4(ip) => {
            crate::text::push_dec_u64(out, ip.o0 as u64);
            out.push(46);
            crate::text::push_dec_u64(out, ip.o1 as u64);
            out.push(46);
            crate::text::push_dec_u64(out, ip.o2 as u64);
            out.push(46);
            crate::text::push_dec_u64(out, ip.o3 as u64);
            out.push(58);
            crate::text::push_dec_u64(out, a.port as u64);
            proof {
                assert(out@ =~= old(out)@ + sockaddr_bytes(*a));
            }
        },
        IpAddress::V6(ip) => {
            out.push(91);
            push_hex_u16(out, ip.s0);
            out.push(58);
            push_hex_u16(out, ip.s1);
            out.push(58);
            push_hex_u16(out, ip.s2);
            out.push(58);
            push_hex_u16(out, ip.s3);
            out.push(58);
            push_hex_u16(out, ip.s4);
            out.push(58);
            push_hex_u16(out, ip.s5);
            out.push(58);
            push_hex_u16(out, ip.s6);
            out.push(58);
            push_hex_u16(out, ip.s7);
            out.push(93);
            out.push(58);
            crate::text::push_dec_u64(out, a.port as u64);
            proof {
                assert(out@ =~= old(out)@ + sockaddr_bytes(*a));
            }
        },
    }
}

/// A position holding the target, with none before it, is what the
/// search finds.
pub proof fn lemma_find_byte_exact(s: Seq<u8>, from: int, k: int, target: u8)
    requires
        0 <= from <= k <= s.len(),
        forall|j: int| from <= j < k ==> #[trigger] s[j] != target,
        k == s.len() || s[k] == target,
    ensures
        find_byte(s, from, target) == k,
    decreases k - from,
{
    if from < k {
        lemma_find_byte_exact(s, from + 1, k, target);
    }
}

/// Rendering an IPv4 endpoint and parsing the text back yields the
/// endpoint.
#[verifier::rlimit(100)]
pub proof fn lemma_sockaddr_v4_roundtrip(a: SocketAddress)
    requires
        a.ip is V4,
    ensures
        spec_parse_sockaddr(sockaddr_bytes(a)) == Some(a),
{
    reveal_with_fuel(crate::text::pow10, 6);
    let ip = a.ip->V4_0;
    let b = sockaddr_bytes(a);
    let d0 = dec_bytes(ip.o0 as nat);
    let d1 = dec_bytes(ip.o1 as nat);
    let d2 = dec_bytes(ip.o2 as nat);
    let d3 = dec_bytes(ip.o3 as nat);
    let dp = dec_bytes(a.port as nat);
    crate::text::lemma_dec_bytes_roundtrip(ip.o0 as nat);
    crate::text::lemma_dec_bytes_roundtrip(ip.o1 as nat);
    crate::text::lemma_dec_bytes_roundtrip(ip.o2 as nat);
    crate::text::lemma_dec_bytes_roundtrip(ip.o3 as nat);
    crate::text::lemma_dec_bytes_roundtrip(a.port as nat);
    crate::text::lemma_dec_len(ip.o0 as nat, 3);
    crate::text::lemma_dec_len(ip.o1 as nat, 3);
    crate::text::lemma_dec_len(ip.o2 as nat, 3);
    crate::text::lemma_dec_len(ip.o3 as nat, 3);
    crate::text::lemma_dec_len(a.port as nat, 5);
    let r0 = d0.len() as int;
    let p1 = r0 + 1;
    let r1 = d1.len() as int;
    let p2 = p1 + r1 + 1;
    let r2 = d2.len() as int;
    let p3 = p2 + r2 + 1;
    let r3 = d3.len() as int;
    let colon = p3 + r3;
    let p0 = colon + 1;
    assert(b.len() == p0 + dp.len());
    assert(b[0] != 91);
    assert(b[colon] == 58);
    assert(forall|j: int| 0 <= j < colon ==> #[trigger] b[j] != 58) by {
        assert(forall|j: int| 0 <= j < r0 ==> b[j] == d0[j]);
        assert(forall|j: int| p1 <= j < p1 + r1 ==> b[j] == d1[j - p1]);
        assert(forall|j: int| p2 <= j < p2 + r2 ==> b[j] == d2[j - p2]);
        assert(forall|j: int| p3 <= j < p3 + r3 ==> b[j] == d3[j - p3]);
        assert(b[r0] == 46 && b[p1 + r1] == 46 && b[p2 + r2] == 46);
    }
    lemma_find_byte_exact(b, 0, colon, 58);

    assert(b.subrange(0, r0) =~= d0);
    crate::text::lemma_digit_run_exact(b, 0, r0);
    assert(b.subrange(p1, p1 + r1) =~= d1);
    crate::text::lemma_digit_run_exact(b, p1, r1);
    assert(b.subrange(p2, p2 + r2) =~= d2);
    crate::text::lemma_digit_run_exact(b, p2, r2);
    assert(b.subrange(p3, p3 + r3) =~= d3);
    crate::text::lemma_digit_run_exact(b, p3, r3);
    assert(spec_parse_ipv4(b, 0, colon) == Some(ip));

    assert(b.subrange(p0, p0 + dp.len()) =~= dp);
    crate::text::lemma_digit_run_exact(b, p0, dp.len() as int);
    assert(spec_parse_port(b, p0) == Some(a.port));
    assert(spec_parse_sockaddr(b) == Some(SocketAddress { ip: IpAddress::V4(ip), port: a.port }));
    assert(SocketAddress { ip: IpAddress::V4(ip), port: a.port } == a);
}

/// Rendering a number in hex and reading the digits back yields the
/// number; the rendering is a non-empty run of hex digits.
pub proof fn lemma_hex_bytes_roundtrip(n: nat)
    ensures
        hex_val(hex_bytes(n)) == n,
        all_hex_digits(hex_bytes(n)),
        hex_bytes(n).len() >= 1,
    decreases n,
{
    if n < 16 {
        assert(hex_val(hex_bytes(n)) == hex_val(hex_bytes(n).drop_last()) * 16 + hex_digit_val(
            hex_bytes(n).last(),
        ));
        assert(hex_bytes(n).drop_last() =~= Seq::<u8>::empty());
        assert(hex_digit_val(hex_digit_byte(n)) == n);
    } else {
        lemma_hex_bytes_roundtrip(n / 16);
        assert(hex_bytes(n).drop_last() =~= hex_bytes(n / 16));
        assert(hex_digit_val(hex_digit_byte(n % 16)) == n % 16);
        assert(forall|i: int|
            0 <= i < hex_bytes(n).len() ==> is_hex_digit(#[trigger] hex_bytes(n)[i])) by {
            assert(forall|i: int|
                0 <= i < hex_bytes(n / 16).len() ==> is_hex_digit(#[trigger] hex_bytes(n / 16)[i]));
            assert(hex_bytes(n).last() == hex_digit_byte(n % 16));
        }
    }
}

/// The hex rendering of `n` has at most `k` digits when `n` is below
/// sixteen to the `k`.
pub proof fn lemma_hex_len(n: nat, k: nat)
    requires
        n < pow16(k),
        k >= 1,
    ensures
        hex_bytes(n).len() <= k,
    decreases k,
{
    if n < 16 {
    } else {
        assert(pow16(k) == 16 * pow16((k - 1) as nat));
        assert(n / 16 < pow16((k - 1) as nat));
        lemma_hex_len(n / 16, (k - 1) as nat);
    }
}

/// A hex run surrounded as such: `k` hex digits followed by a byte
/// that is no hex digit (or the end) scan as exactly `k`.
pub proof fn lemma_hex_run_exact(s: Seq<u8>, from: int, k: int)
    requires
        0 <= from,
        0 <= k,
        from + k <= s.len(),
        forall|j: int| from <= j < from + k ==> is_hex_digit(#[trigger] s[j]),
        from + k == s.len() || !is_hex_digit(s[from + k]),
    ensures
        hex_run_len(s, from) == k,
    decreases k,
{
    if k > 0 {
        assert(is_hex_digit(s[from]));
        lemma_hex_run_exact(s, from + 1, k - 1);
    }
}

/// With no two colons adjacent in `[from, to)`, the double-colon
/// search comes up empty.
pub proof fn lemma_find_double_colon_exact(s: Seq<u8>, from: int, to: int)
    requires
        0 <= from <= to <= s.len(),
        forall|i: int| from <= i < to - 1 ==> !(#[trigger] s[i] == 58 && s[i + 1] == 58),
    ensures
        find_double_colon(s, from, to) == to,
    decreases to - from,
{
    if from + 1 < to {
        lemma_find_double_colon_exact(s, from + 1, to);
    }
}

/// A rendered group, a colon, and a parsed remainder parse as the
/// group followed by the remainder.
pub proof fn lemma_groups_cons(s: Seq<u8>, from: int, to: int, g: u16, rest: Seq<u16>)
    requires
        0 <= from,
        from + hex_bytes(g as nat).len() < to <= s.len(),
        s.subrange(from, from + hex_bytes(g as nat).len() as int) == hex_bytes(g as nat),
        s[from + hex_bytes(g as nat).len() as int] == 58,
        spec_parse_groups(s, from + hex_bytes(g as nat).len() + 1, to) == Some(rest),
    ensures
        spec_parse_groups(s, from, to) == Some(seq![g] + rest),
{
    reveal_with_fuel(pow16, 5);
    lemma_hex_bytes_roundtrip(g as nat);
    lemma_hex_len(g as nat, 4);
    let hb = hex_bytes(g as nat);
    let l = hb.len() as int;
    assert(forall|j: int| from <= j < from + l ==> is_hex_digit(#[trigger] s[j])) by {
        assert(forall|j: int| from <= j < from + l ==> s[j] == hb[j - from]);
    }
    assert(!is_hex_digit(58));
    lemma_hex_run_exact(s, from, l);
    assert(hex_val(s.subrange(from, from + l)) == g as nat);
}

/// A rendered group closing the range parses as the one-group list,
/// provided the byte after the range (if any) is no hex digit.
pub proof fn lemma_groups_last(s: Seq<u8>, from: int, to: int, g: u16)
    requires
        0 <= from,
        from + hex_bytes(g as nat).len() == to,
        to <= s.len(),
        s.subrange(from, to) == hex_bytes(g as nat),
        to == s.len() || !is_hex_digit(s[to]),
    ensures
        spec_parse_groups(s, from, to) == Some(seq![g]),
{
    reveal_with_fuel(pow16, 5);
    lemma_hex_bytes_roundtrip(g as nat);
    lemma_hex_len(g as nat, 4);
    let hb = hex_bytes(g as nat);
    let l = hb.len() as int;
    assert(forall|j: int| from <= j < from + l ==> is_hex_digit(#[trigger] s[j])) by {
        assert(forall|j: int| from <= j < from + l ==> s[j] == hb[j - from]);
    }
    lemma_hex_run_exact(s, from, l);
    assert(hex_val(s.subrange(from, to)) == g as nat);
}

/// Rendering an IPv6 endpoint (full eight-group form) and parsing the
/// text back yields the endpoint.
#[verifier::rlimit(100)]
pub proof fn lemma_sockaddr_v6_roundtrip(a: SocketAddress)
    requires
        a.ip is V6,
    ensures
        spec_parse_sockaddr(sockaddr_bytes(a)) == Some(a),
{
    reveal_with_fuel(crate::text::pow10, 6);
    let ip = a.ip->V6_0;
    let b = sockaddr_bytes(a);
    let h0 = hex_bytes(ip.s0 as nat);
    let h1 = hex_bytes(ip.s1 as nat);
    let h2 = hex_bytes(ip.s2 as nat);
    let h3 = hex_bytes(ip.s3 as nat);
    let h4 = hex_bytes(ip.s4 as nat);
    let h5 = hex_bytes(ip.s5 as nat);
    let h6 = hex_bytes(ip.s6 as nat);
    let h7 = hex_bytes(ip.s7 as nat);
    let dp = dec_bytes(a.port as nat);
    lemma_hex_bytes_roundtrip(ip.s0 as nat);
    lemma_hex_bytes_roundtrip(ip.s1 as nat);
    lemma_hex_bytes_roundtrip(ip.s2 as nat);
    lemma_hex_bytes_roundtrip(ip.s3 as nat);
    lemma_hex_bytes_roundtrip(ip.s4 as nat);
    lemma_hex_bytes_roundtrip(ip.s5 as nat);
    lemma_hex_bytes_roundtrip(ip.s6 as nat);
    lemma_hex_bytes_roundtrip(ip.s7 as nat);
    crate::text::lemma_dec_bytes_roundtrip(a.port as nat);
    crate::text::lemma_dec_len(a.port as nat, 5);
    crate::protocol::lemma_hex_bytes_ascii(ip.s0 as nat);
    crate::protocol::lemma_hex_bytes_ascii(ip.s1 as nat);
    crate::protocol::lemma_hex_bytes_ascii(ip.s2 as nat);
    crate::protocol::lemma_hex_bytes_ascii(ip.s3 as nat);
    crate::protocol::lemma_hex_bytes_ascii(ip.s4 as nat);
    crate::protocol::lemma_hex_bytes_ascii(ip.s5 as nat);
    crate::protocol::lemma_hex_bytes_ascii(ip.s6 as nat);
    crate::protocol::lemma_hex_bytes_ascii(ip.s7 as nat);
    let o0 = 1int;
    let c0 = o0 + h0.len();
    let o1 = c0 + 1;
    let c1 = o1 + h1.len();
    let o2 = c1 + 1;
    let c2 = o2 + h2.len();
    let o3 = c2 + 1;
    let c3 = o3 + h3.len();
    let o4 = c3 + 1;
    let c4 = o4 + h4.len();
    let o5 = c4 + 1;
    let c5 = o5 + h5.len();
    let o6 = c5 + 1;
    let c6 = o6 + h6.len();
    let o7 = c6 + 1;
    let rb = o7 + h7.len() as int;
    let p0 = rb + 2;
    assert(b.len() == p0 + dp.len());

    assert(forall|j: int| o0 <= j < c0 ==> b[j] == h0[j - o0]);
    assert(forall|j: int| o1 <= j < c1 ==> b[j] == h1[j - o1]);
    assert(forall|j: int| o2 <= j < c2 ==> b[j] == h2[j - o2]);
    assert(forall|j: int| o3 <= j < c3 ==> b[j] == h3[j - o3]);
    assert(forall|j: int| o4 <= j < c4 ==> b[j] == h4[j - o4]);
    assert(forall|j: int| o5 <= j < c5 ==> b[j] == h5[j - o5]);
    assert(forall|j: int| o6 <= j < c6 ==> b[j] == h6[j - o6]);
    assert(forall|j: int| o7 <= j < rb ==> b[j] == h7[j - o7]);
    assert(b[0] == 91 && b[c0] == 58 && b[c1] == 58 && b[c2] == 58 && b[c3] == 58 && b[c4] == 58
        && b[c5] == 58 && b[c6] == 58 && b[rb] == 93 && b[rb + 1] == 58);
    assert(forall|j: int| p0 <= j < b.len() ==> b[j] == dp[j - p0]);

    // hex digits are never a colon, a bracket, or a space
    assert(forall|k: int| 0 <= k < h0.len() ==> is_hex_digit(#[trigger] h0[k]) && h0[k] != 58
        && h0[k] != 93);
    assert(forall|k: int| 0 <= k < h1.len() ==> is_hex_digit(#[trigger] h1[k]) && h1[k] != 58
        && h1[k] != 93);
    assert(forall|k: int| 0 <= k < h2.len() ==> is_hex_digit(#[trigger] h2[k]) && h2[k] != 58
        && h2[k] != 93);
    assert(forall|k: int| 0 <= k < h3.len() ==> is_hex_digit(#[trigger] h3[k]) && h3[k] != 58
        && h3[k] != 93);
    assert(forall|k: int| 0 <= k < h4.len() ==> is_hex_digit(#[trigger] h4[k]) && h4[k] != 58
        && h4[k] != 93);
    assert(forall|k: int| 0 <= k < h5.len() ==> is_hex_digit(#[trigger] h5[k]) && h5[k] != 58
        && h5[k] != 93);
    assert(forall|k: int| 0 <= k < h6.len() ==> is_hex_digit(#[trigger] h6[k]) && h6[k] != 58
        && h6[k] != 93);
    assert(forall|k: int| 0 <= k < h7.len() ==> is_hex_digit(#[trigger] h7[k]) && h7[k] != 58
        && h7[k] != 93);

    // the closing bracket is the first in the buffer
    assert(forall|j: int| 1 <= j < rb ==> #[trigger] b[j] != 93);
    lemma_find_byte_exact(b, 1, rb, 93);

    // no two adjacent colons anywhere between the brackets
    assert forall|i: int| 1 <= i < rb - 1 implies !(#[trigger] b[i] == 58 && b[i + 1] == 58) by {
        if b[i] == 58 {
            assert(i == c0 || i == c1 || i == c2 || i == c3 || i == c4 || i == c5 || i == c6);
        }
    }
    lemma_find_double_colon_exact(b, 1, rb);

    // the eight groups parse back, last first
    assert(b.subrange(o7, rb) =~= h7);
    lemma_groups_last(b, o7, rb, ip.s7);
    assert(b.subrange(o6, c6) =~= h6);
    lemma_groups_cons(b, o6, rb, ip.s6, seq![ip.s7]);
    assert(b.subrange(o5, c5) =~= h5);
    lemma_groups_cons(b, o5, rb, ip.s5, seq![ip.s6] + seq![ip.s7]);
    assert(b.subrange(o4, c4) =~= h4);
    lemma_groups_cons(b, o4, rb, ip.s4, seq![ip.s5] + (seq![ip.s6] + seq![ip.s7]));
    assert(b.subrange(o3, c3) =~= h3);
    lemma_groups_cons(
        b,
        o3,
        rb,
        ip.s3,
        seq![ip.s4] + (seq![ip.s5] + (seq![ip.s6] + seq![ip.s7])),
    );
    assert(b.subrange(o2, c2) =~= h2);
    lemma_groups_cons(
        b,
        o2,
        rb,
        ip.s2,
        seq![ip.s3] + (seq![ip.s4] + (seq![ip.s5] + (seq![ip.s6] + seq![ip.s7]))),
    );
    assert(b.subrange(o1, c1) =~= h1);
    lemma_groups_cons(
        b,
        o1,
        rb,
        ip.s1,
        seq![ip.s2] + (seq![ip.s3] + (seq![ip.s4] + (seq![ip.s5] + (seq![ip.s6] + seq![ip.s7])))),
    );
    assert(b.subrange(o0, c0) =~= h0);
    lemma_groups_cons(
        b,
        o0,
        rb,
        ip.s0,
        seq![ip.s1] + (seq![ip.s2] + (seq![ip.s3] + (seq![ip.s4] + (seq![ip.s5] + (seq![ip.s6]
            + seq![ip.s7]))))),
    );
    let gs = seq![ip.s0] + (seq![ip.s1] + (seq![ip.s2] + (seq![ip.s3] + (seq![ip.s4] + (seq![
        ip.s5,
    ] + (seq![ip.s6] + seq![ip.s7]))))));
    assert(gs.len() == 8);
    assert(spec_parse_groups(b, 1, rb) == Some(gs));
    assert(groups_to_v6(gs) == ip);
    assert(spec_parse_v6(b, 1, rb) == Some(ip));

    // the port
    assert(b.subrange(p0, p0 + dp.len()) =~= dp);
    crate::text::lemma_digit_run_exact(b, p0, dp.len() as int);
    assert(spec_parse_port(b, p0) == Some(a.port));
    assert(spec_parse_sockaddr(b) == Some(SocketAddress { ip: IpAddress::V6(ip), port: a.port }));
    assert(SocketAddress { ip: IpAddress::V6(ip), port: a.port } == a);
}

/// Rendering any endpoint and parsing the text back yields the
/// endpoint.
pub proof fn lemma_sockaddr_roundtrip(a: SocketAddress)
    ensures
        spec_parse_sockaddr(sockaddr_bytes(a)) == Some(a),
{
    match a.ip {
        IpAddress::V4(_) => lemma_sockaddr_v4_roundtrip(a),
        IpAddress::V6(_) => lemma_sockaddr_v6_roundtrip(a),
    }
}

} // verus!
