//! IPv4 literal parsing.
//!
//! The strict parser recognises the RFC 3986 dotted-quad form: four
//! decimal octets of one to three digits each, value at most 255, with no
//! leading zeros, optionally followed by one trailing dot. It is the form
//! used for URI hosts and for the embedded IPv4 tail of an IPv6 literal.
//!
//! The legacy parser additionally accepts hexadecimal (`0x`) and octal
//! (leading `0`) sections and the historical one- to four-part forms,
//! where a short form's last section spreads over the remaining trailing
//! bytes. It is a separately named, opt-in operation and is never used by
//! URI host resolution.

use vstd::prelude::*;

use crate::parse::ParseError;
use crate::parse::byte_at;
use crate::parse::dec_digits_end;
use crate::parse::dec_run_u32;
use crate::parse::dec_run_val;
use crate::parse::has_byte;
use crate::parse::hex_digits_end;
use crate::parse::hex_run_u32;
use crate::parse::hex_run_val;
use crate::parse::oct_digits_end;
use crate::parse::oct_run_u32;
use crate::parse::oct_run_val;
use crate::parse::scan_digits;
use crate::parse::scan_hex_digits;
use crate::parse::scan_oct_digits;

verus! {

broadcast use vstd::slice::group_slice_axioms;

/// A parsed IPv4 address: four ordered bytes.
#[derive(Clone, Copy, PartialEq, Eq, Structural, Debug)]
pub struct Ipv4Address {
    pub a: u8,
    pub b: u8,
    pub c: u8,
    pub d: u8,
}

impl Ipv4Address {
    pub fn new(a: u8, b: u8, c: u8, d: u8) -> (r: Ipv4Address)
        ensures
            r == (Ipv4Address { a, b, c, d }),
    {
        Ipv4Address { a, b, c, d }
    }
}

/// A strict decimal octet at position `i`: one to three digits, no
/// leading zero, value at most 255. Yields the end position and value.
pub open spec fn dec_octet_at(s: Seq<u8>, i: int) -> Option<(int, u8)>
    recommends
        0 <= i <= s.len(),
{
    let e = dec_digits_end(s, i);
    if e - i < 1 || e - i > 3 {
        None
    } else if s[i] == 0x30 && e - i != 1 {
        None
    } else if dec_run_val(s, i, e) > 255 {
        None
    } else {
        Some((e, dec_run_val(s, i, e) as u8))
    }
}

/// A strict IPv4 literal at position `i`: four dot-separated decimal
/// octets, optionally followed by one trailing dot, which is consumed.
pub open spec fn ipv4_at(s: Seq<u8>, i: int) -> Option<(int, Ipv4Address)>
    recommends
        0 <= i <= s.len(),
{
    match dec_octet_at(s, i) {
        None => None,
        Some((p1, a)) => if !byte_at(s, p1, 0x2E) {
            None
        } else {
            match dec_octet_at(s, p1 + 1) {
                None => None,
                Some((p2, b)) => if !byte_at(s, p2, 0x2E) {
                    None
                } else {
                    match dec_octet_at(s, p2 + 1) {
                        None => None,
                        Some((p3, c)) => if !byte_at(s, p3, 0x2E) {
                            None
                        } else {
                            match dec_octet_at(s, p3 + 1) {
                                None => None,
                                Some((p4, d)) => {
                                    let end = if byte_at(s, p4, 0x2E) {
                                        p4 + 1
                                    } else {
                                        p4
                                    };
                                    Some((end, Ipv4Address { a, b, c, d }))
                                },
                            }
                        },
                    }
                },
            }
        },
    }
}

/// Parse a strict decimal octet starting at `pos`.
pub fn parse_dec_octet(s: &[u8], pos: usize) -> (r: Option<(usize, u8)>)
    requires
        pos <= s@.len(),
    ensures
        match r {
            Some(rv) => dec_octet_at(s@, pos as int) == Some((rv.0 as int, rv.1)) && pos <= rv.0
                <= s@.len(),
            None => dec_octet_at(s@, pos as int) is None,
        },
{
    let e = scan_digits(s, pos);
    if e - pos < 1 || e - pos > 3 {
        return None;
    }
    if *vstd::slice::slice_index_get(s, pos) == 0x30 && e - pos != 1 {
        return None;
    }
    match dec_run_u32(s, pos, e) {
        None => None,
        Some(v) => if v > 255 {
            None
        } else {
            Some((e, v as u8))
        },
    }
}

/// Parse a strict IPv4 literal starting at `pos`.
pub fn parse_ipv4_at(s: &[u8], pos: usize) -> (r: Option<(usize, Ipv4Address)>)
    requires
        pos <= s@.len(),
    ensures
        match r {
            Some(rv) => ipv4_at(s@, pos as int) == Some((rv.0 as int, rv.1)) && pos <= rv.0
                <= s@.len(),
            None => ipv4_at(s@, pos as int) is None,
        },
{
    let (p1, a) = match parse_dec_octet(s, pos) {
        None => {
            return None;
        },
        Some(x) => x,
    };
    if !has_byte(s, p1, 0x2E) {
        return None;
    }
    let (p2, b) = match parse_dec_octet(s, p1 + 1) {
        None => {
            return None;
        },
        Some(x) => x,
    };
    if !has_byte(s, p2, 0x2E) {
        return None;
    }
    let (p3, c) = match parse_dec_octet(s, p2 + 1) {
        None => {
            return None;
        },
        Some(x) => x,
    };
    if !has_byte(s, p3, 0x2E) {
        return None;
    }
    let (p4, d) = match parse_dec_octet(s, p3 + 1) {
        None => {
            return None;
        },
        Some(x) => x,
    };
    let end = if has_byte(s, p4, 0x2E) {
        p4 + 1
    } else {
        p4
    };
    Some((end, Ipv4Address { a, b, c, d }))
}

/// Parse a strict IPv4 literal from the start of `input`, returning the
/// unconsumed remainder together with the address. Fails with a grammar
/// error exactly when the input does not begin with a strict dotted quad.
pub fn parse_ipv4<'a>(input: &'a [u8]) -> (r: Result<(&'a [u8], Ipv4Address), ParseError>)
    ensures
        match r {
            Ok(rv) => ipv4_at(input@, 0) matches Some((e, addr)) && addr == rv.1 && rv.0@
                == input@.subrange(e, input@.len() as int),
            Err(pe) => ipv4_at(input@, 0) is None && pe == ParseError::Grammar,
        },
{
    match parse_ipv4_at(input, 0) {
        None => Err(ParseError::Grammar),
        Some((end, addr)) => Ok((vstd::slice::slice_subrange(input, end, input.len()), addr)),
    }
}

/// A legacy numeric section without its range bound applied: ordered
/// choice of hexadecimal (`0x` or `0X` prefix, possibly empty digit run),
/// octal (leading `0`, possibly empty run), and decimal (at least one
/// digit). A branch whose value exceeds `u32::MAX` fails over to the next.
pub open spec fn legacy_number_at(s: Seq<u8>, i: int) -> Option<(int, u32)>
    recommends
        0 <= i <= s.len(),
{
    if i + 1 < s.len() && s[i] == 0x30 && (s[i + 1] == 0x78 || s[i + 1] == 0x58)
        && hex_run_val(s, i + 2, hex_digits_end(s, i + 2)) <= u32::MAX {
        Some((hex_digits_end(s, i + 2), hex_run_val(s, i + 2, hex_digits_end(s, i + 2)) as u32))
    } else if byte_at(s, i, 0x30) && oct_run_val(s, i + 1, oct_digits_end(s, i + 1)) <= u32::MAX {
        Some((oct_digits_end(s, i + 1), oct_run_val(s, i + 1, oct_digits_end(s, i + 1)) as u32))
    } else {
        let e = dec_digits_end(s, i);
        if e == i || dec_run_val(s, i, e) > u32::MAX {
            None
        } else {
            Some((e, dec_run_val(s, i, e) as u32))
        }
    }
}

/// A legacy numeric section at position `i`, failing when its value
/// exceeds `max`.
pub open spec fn legacy_section_at(s: Seq<u8>, i: int, max: u32) -> Option<(int, u32)>
    recommends
        0 <= i <= s.len(),
{
    match legacy_number_at(s, i) {
        None => None,
        Some((e, v)) => if v > max {
            None
        } else {
            Some((e, v))
        },
    }
}

/// Parse a legacy numeric section starting at `pos`.
pub fn parse_legacy_section(s: &[u8], pos: usize, max: u32) -> (r: Option<(usize, u32)>)
    requires
        pos <= s@.len(),
    ensures
        match r {
            Some(rv) => legacy_section_at(s@, pos as int, max) == Some((rv.0 as int, rv.1)) && pos
                <= rv.0 <= s@.len(),
            None => legacy_section_at(s@, pos as int, max) is None,
        },
{
    let number: Option<(usize, u32)> = if pos < s.len() && pos + 1 < s.len()
        && *vstd::slice::slice_index_get(
        s,
        pos,
    ) == 0x30 && (*vstd::slice::slice_index_get(s, pos + 1) == 0x78 || *vstd::slice::slice_index_get(
        s,
        pos + 1,
    ) == 0x58) && {
        let he = scan_hex_digits(s, pos + 2);
        hex_run_u32(s, pos + 2, he).is_some()
    } {
        let he = scan_hex_digits(s, pos + 2);
        match hex_run_u32(s, pos + 2, he) {
            Some(v) => Some((he, v)),
            None => None,
        }
    } else if pos < s.len() && *vstd::slice::slice_index_get(s, pos) == 0x30 && {
        let oe = scan_oct_digits(s, pos + 1);
        oct_run_u32(s, pos + 1, oe).is_some()
    } {
        let oe = scan_oct_digits(s, pos + 1);
        match oct_run_u32(s, pos + 1, oe) {
            Some(v) => Some((oe, v)),
            None => None,
        }
    } else {
        let de = scan_digits(s, pos);
        if de == pos {
            None
        } else {
            match dec_run_u32(s, pos, de) {
                Some(v) => Some((de, v)),
                None => None,
            }
        }
    };
    match number {
        None => None,
        Some((e, v)) => if v > max {
            None
        } else {
            Some((e, v))
        },
    }
}

/// One optional dot at position `i`: the end position after consuming it
/// if present.
pub open spec fn opt_dot_at(s: Seq<u8>, i: int) -> int {
    if byte_at(s, i, 0x2E) {
        i + 1
    } else {
        i
    }
}

fn skip_opt_dot(s: &[u8], pos: usize) -> (r: usize)
    requires
        pos <= s@.len(),
    ensures
        r == opt_dot_at(s@, pos as int),
        pos <= r <= s@.len(),
{
    if has_byte(s, pos, 0x2E) {
        pos + 1
    } else {
        pos
    }
}

/// The legacy four-part form: `a.b.c.d` with each section at most 255.
pub open spec fn legacy_four_at(s: Seq<u8>, i: int) -> Option<(int, Ipv4Address)>
    recommends
        0 <= i <= s.len(),
{
    match legacy_section_at(s, i, 0xFF) {
        None => None,
        Some((p1, a)) => if !byte_at(s, p1, 0x2E) {
            None
        } else {
            match legacy_section_at(s, p1 + 1, 0xFF) {
                None => None,
                Some((p2, b)) => if !byte_at(s, p2, 0x2E) {
                    None
                } else {
                    match legacy_section_at(s, p2 + 1, 0xFF) {
                        None => None,
                        Some((p3, c)) => if !byte_at(s, p3, 0x2E) {
                            None
                        } else {
                            match legacy_section_at(s, p3 + 1, 0xFF) {
                                None => None,
                                Some((p4, d)) => Some(
                                    (
                                        opt_dot_at(s, p4),
                                        Ipv4Address {
                                            a: a as u8,
                                            b: b as u8,
                                            c: c as u8,
                                            d: d as u8,
                                        },
                                    ),
                                ),
                            }
                        },
                    }
                },
            }
        },
    }
}

/// The legacy three-part form: `a.b.cd` where the last section spreads
/// over the two trailing bytes.
pub open spec fn legacy_three_at(s: Seq<u8>, i: int) -> Option<(int, Ipv4Address)>
    recommends
        0 <= i <= s.len(),
{
    match legacy_section_at(s, i, 0xFF) {
        None => None,
        Some((p1, a)) => if !byte_at(s, p1, 0x2E) {
            None
        } else {
            match legacy_section_at(s, p1 + 1, 0xFF) {
                None => None,
                Some((p2, b)) => if !byte_at(s, p2, 0x2E) {
                    None
                } else {
                    match legacy_section_at(s, p2 + 1, 0xFFFF) {
                        None => None,
                        Some((p3, cd)) => Some(
                            (
                                opt_dot_at(s, p3),
                                Ipv4Address {
                                    a: a as u8,
                                    b: b as u8,
                                    c: (cd / 256) as u8,
                                    d: (cd % 256) as u8,
                                },
                            ),
                        ),
                    }
                },
            }
        },
    }
}

/// The legacy two-part form: `a.bcd` where the last section spreads over
/// the three trailing bytes.
pub open spec fn legacy_two_at(s: Seq<u8>, i: int) -> Option<(int, Ipv4Address)>
    recommends
        0 <= i <= s.len(),
{
    match legacy_section_at(s, i, 0xFF) {
        None => None,
        Some((p1, a)) => if !byte_at(s, p1, 0x2E) {
            None
        } else {
            match legacy_section_at(s, p1 + 1, 0x00FF_FFFF) {
                None => None,
                Some((p2, bcd)) => Some(
                    (
                        opt_dot_at(s, p2),
                        Ipv4Address {
                            a: a as u8,
                            b: (bcd / 0x10000) as u8,
                            c: ((bcd / 256) % 256) as u8,
                            d: (bcd % 256) as u8,
                        },
                    ),
                ),
            }
        },
    }
}

/// The legacy one-part form: a single 32-bit value spread over all four
/// bytes, most significant first.
pub open spec fn legacy_one_at(s: Seq<u8>, i: int) -> Option<(int, Ipv4Address)>
    recommends
        0 <= i <= s.len(),
{
    match legacy_section_at(s, i, 0xFFFF_FFFF) {
        None => None,
        Some((p1, v)) => Some(
            (
                opt_dot_at(s, p1),
                Ipv4Address {
                    a: (v / 0x0100_0000) as u8,
                    b: ((v / 0x10000) % 256) as u8,
                    c: ((v / 256) % 256) as u8,
                    d: (v % 256) as u8,
                },
            ),
        ),
    }
}

/// The legacy IPv4 parse: ordered choice of the four-, three-, two-, and
/// one-part forms.
pub open spec fn legacy_ipv4_at(s: Seq<u8>, i: int) -> Option<(int, Ipv4Address)>
    recommends
        0 <= i <= s.len(),
{
    if legacy_four_at(s, i) is Some {
        legacy_four_at(s, i)
    } else if legacy_three_at(s, i) is Some {
        legacy_three_at(s, i)
    } else if legacy_two_at(s, i) is Some {
        legacy_two_at(s, i)
    } else {
        legacy_one_at(s, i)
    }
}

fn parse_legacy_four(s: &[u8], pos: usize) -> (r: Option<(usize, Ipv4Address)>)
    requires
        pos <= s@.len(),
    ensures
        match r {
            Some(rv) => legacy_four_at(s@, pos as int) == Some((rv.0 as int, rv.1)) && pos <= rv.0
                <= s@.len(),
            None => legacy_four_at(s@, pos as int) is None,
        },
{
    let (p1, a) = match parse_legacy_section(s, pos, 0xFF) {
        None => {
            return None;
        },
        Some(x) => x,
    };
    if !has_byte(s, p1, 0x2E) {
        return None;
    }
    let (p2, b) = match parse_legacy_section(s, p1 + 1, 0xFF) {
        None => {
            return None;
        },
        Some(x) => x,
    };
    if !has_byte(s, p2, 0x2E) {
        return None;
    }
    let (p3, c) = match parse_legacy_section(s, p2 + 1, 0xFF) {
        None => {
            return None;
        },
        Some(x) => x,
    };
    if !has_byte(s, p3, 0x2E) {
        return None;
    }
    let (p4, d) = match parse_legacy_section(s, p3 + 1, 0xFF) {
        None => {
            return None;
        },
        Some(x) => x,
    };
    let end = skip_opt_dot(s, p4);
    Some((end, Ipv4Address { a: a as u8, b: b as u8, c: c as u8, d: d as u8 }))
}

fn parse_legacy_three(s: &[u8], pos: usize) -> (r: Option<(usize, Ipv4Address)>)
    requires
        pos <= s@.len(),
    ensures
        match r {
            Some(rv) => legacy_three_at(s@, pos as int) == Some((rv.0 as int, rv.1)) && pos <= rv.0
                <= s@.len(),
            None => legacy_three_at(s@, pos as int) is None,
        },
{
    let (p1, a) = match parse_legacy_section(s, pos, 0xFF) {
        None => {
            return None;
        },
        Some(x) => x,
    };
    if !has_byte(s, p1, 0x2E) {
        return None;
    }
    let (p2, b) = match parse_legacy_section(s, p1 + 1, 0xFF) {
        None => {
            return None;
        },
        Some(x) => x,
    };
    if !has_byte(s, p2, 0x2E) {
        return None;
    }
    let (p3, cd) = match parse_legacy_section(s, p2 + 1, 0xFFFF) {
        None => {
            return None;
        },
        Some(x) => x,
    };
    let end = skip_opt_dot(s, p3);
    Some((end, Ipv4Address { a: a as u8, b: b as u8, c: (cd / 256) as u8, d: (cd % 256) as u8 }))
}

fn parse_legacy_two(s: &[u8], pos: usize) -> (r: Option<(usize, Ipv4Address)>)
    requires
        pos <= s@.len(),
    ensures
        match r {
            Some(rv) => legacy_two_at(s@, pos as int) == Some((rv.0 as int, rv.1)) && pos <= rv.0
                <= s@.len(),
            None => legacy_two_at(s@, pos as int) is None,
        },
{
    let (p1, a) = match parse_legacy_section(s, pos, 0xFF) {
        None => {
            return None;
        },
        Some(x) => x,
    };
    if !has_byte(s, p1, 0x2E) {
        return None;
    }
    let (p2, bcd) = match parse_legacy_section(s, p1 + 1, 0x00FF_FFFF) {
        None => {
            return None;
        },
        Some(x) => x,
    };
    let end = skip_opt_dot(s, p2);
    Some(
        (
            end,
            Ipv4Address {
                a: a as u8,
                b: (bcd / 0x10000) as u8,
                c: ((bcd / 256) % 256) as u8,
                d: (bcd % 256) as u8,
            },
        ),
    )
}

fn parse_legacy_one(s: &[u8], pos: usize) -> (r: Option<(usize, Ipv4Address)>)
    requires
        pos <= s@.len(),
    ensures
        match r {
            Some(rv) => legacy_one_at(s@, pos as int) == Some((rv.0 as int, rv.1)) && pos <= rv.0
                <= s@.len(),
            None => legacy_one_at(s@, pos as int) is None,
        },
{
    let (p1, v) = match parse_legacy_section(s, pos, 0xFFFF_FFFF) {
        None => {
            return None;
        },
        Some(x) => x,
    };
    let end = skip_opt_dot(s, p1);
    Some(
        (
            end,
            Ipv4Address {
                a: (v / 0x0100_0000) as u8,
                b: ((v / 0x10000) % 256) as u8,
                c: ((v / 256) % 256) as u8,
                d: (v % 256) as u8,
            },
        ),
    )
}

/// Parse a legacy IPv4 literal from the start of `input`, returning the
/// unconsumed remainder together with the address. This is the historical
/// lenient form; URI host parsing does not use it.
pub fn parse_ipv4_legacy<'a>(input: &'a [u8]) -> (r: Result<(&'a [u8], Ipv4Address), ParseError>)
    ensures
        match r {
            Ok(rv) => legacy_ipv4_at(input@, 0) matches Some((e, addr)) && addr == rv.1 && rv.0@
                == input@.subrange(e, input@.len() as int),
            Err(pe) => legacy_ipv4_at(input@, 0) is None && pe == ParseError::Grammar,
        },
{
    let parsed: Option<(usize, Ipv4Address)> = match parse_legacy_four(input, 0) {
        Some(x) => Some(x),
        None => match parse_legacy_three(input, 0) {
            Some(x) => Some(x),
            None => match parse_legacy_two(input, 0) {
                Some(x) => Some(x),
                None => parse_legacy_one(input, 0),
            },
        },
    };
    match parsed {
        None => Err(ParseError::Grammar),
        Some((end, addr)) => Ok((vstd::slice::slice_subrange(input, end, input.len()), addr)),
    }
}

/// Equal digit windows have equal decimal values.
proof fn lemma_dec_run_val_window(s: Seq<u8>, sp: int, t: Seq<u8>, tp: int, n: int)
    requires
        0 <= n,
        0 <= sp && sp + n <= s.len(),
        0 <= tp && tp + n <= t.len(),
        t.subrange(tp, tp + n) == s.subrange(sp, sp + n),
    ensures
        dec_run_val(t, tp, tp + n) == dec_run_val(s, sp, sp + n),
    decreases n,
{
    if n > 0 {
        assert(t.subrange(tp, tp + (n - 1)) =~= s.subrange(sp, sp + (n - 1))) by {
            assert forall|k: int| 0 <= k < n - 1 implies #[trigger] t.subrange(
                tp,
                tp + (n - 1),
            )[k] == s.subrange(sp, sp + (n - 1))[k] by {
                assert(t.subrange(tp, tp + n)[k] == s.subrange(sp, sp + n)[k]);
            }
        }
        lemma_dec_run_val_window(s, sp, t, tp, n - 1);
        assert(t[tp + n - 1] == t.subrange(tp, tp + n)[n - 1]);
        assert(s[sp + n - 1] == s.subrange(sp, sp + n)[n - 1]);
    }
}

/// A recognised octet is recognised at any position where the same bytes
/// stand and no digit follows them.
proof fn lemma_dec_octet_window(s: Seq<u8>, sp: int, t: Seq<u8>, tp: int, oe: int, b: u8)
    requires
        0 <= sp <= oe <= s.len(),
        dec_octet_at(s, sp) == Some((oe, b)),
        0 <= tp && tp + (oe - sp) <= t.len(),
        t.subrange(tp, tp + (oe - sp)) == s.subrange(sp, oe),
        tp + (oe - sp) < t.len() ==> !crate::parse::spec_is_digit(t[tp + (oe - sp)]),
    ensures
        dec_octet_at(t, tp) == Some((tp + (oe - sp), b)),
{
    let dp = |x: u8| crate::parse::spec_is_digit(x);
    crate::parse::lemma_scan_end(s, sp, dp);
    let te = tp + (oe - sp);
    assert forall|k: int| tp <= k < te implies dp(t[k]) by {
        assert(t[k] == t.subrange(tp, te)[k - tp]);
        assert(s[sp + (k - tp)] == s.subrange(sp, oe)[k - tp]);
        assert(dp(s[sp + (k - tp)]));
    }
    crate::parse::lemma_scan_end_unique(t, tp, dp, te);
    lemma_dec_run_val_window(s, sp, t, tp, oe - sp);
    assert(oe - sp >= 1);
    assert(t[tp] == t.subrange(tp, te)[0]);
    assert(s[sp] == s.subrange(sp, oe)[0]);
}

/// Every byte that a recognised IPv4 literal consumed is a digit or a
/// dot, and the consumed span either ends with a dot or is followed by
/// neither a digit nor a dot.
pub proof fn lemma_ipv4_span(s: Seq<u8>, i: int, e: int, v: Ipv4Address)
    requires
        0 <= i <= s.len(),
        ipv4_at(s, i) == Some((e, v)),
    ensures
        i < e <= s.len(),
        forall|k: int|
            i <= k < e ==> crate::parse::spec_is_digit(#[trigger] s[k]) || s[k] == 0x2E,
        s[e - 1] != 0x2E && e < s.len() ==> !crate::parse::spec_is_digit(s[e]) && s[e] != 0x2E,
{
    let dp = |x: u8| crate::parse::spec_is_digit(x);
    let (p1, _a) = dec_octet_at(s, i)->Some_0;
    let (p2, _b) = dec_octet_at(s, p1 + 1)->Some_0;
    let (p3, _c) = dec_octet_at(s, p2 + 1)->Some_0;
    let (p4, _d) = dec_octet_at(s, p3 + 1)->Some_0;
    crate::parse::lemma_scan_end(s, i, dp);
    crate::parse::lemma_scan_end(s, p1 + 1, dp);
    crate::parse::lemma_scan_end(s, p2 + 1, dp);
    crate::parse::lemma_scan_end(s, p3 + 1, dp);
    assert(s[p1] == 0x2E && s[p2] == 0x2E && s[p3] == 0x2E);
    if byte_at(s, p4, 0x2E) {
        assert(e == p4 + 1 && s[p4] == 0x2E);
    } else {
        assert(e == p4);
    }
}

/// A recognised IPv4 literal is recognised wherever the same bytes stand,
/// as long as no digit or dot directly follows the new occurrence.
pub proof fn lemma_ipv4_at_window(s: Seq<u8>, sp: int, t: Seq<u8>, tp: int, se: int, v: Ipv4Address)
    requires
        0 <= sp <= se <= s.len(),
        ipv4_at(s, sp) == Some((se, v)),
        0 <= tp && tp + (se - sp) <= t.len(),
        t.subrange(tp, tp + (se - sp)) == s.subrange(sp, se),
        s[se - 1] != 0x2E && tp + (se - sp) < t.len() ==> !crate::parse::spec_is_digit(
            t[tp + (se - sp)],
        ) && t[tp + (se - sp)] != 0x2E,
    ensures
        ipv4_at(t, tp) == Some((tp + (se - sp), v)),
{
    let off = tp - sp;
    let w = se - sp;
    lemma_ipv4_span(s, sp, se, v);
    assert forall|k: int| sp <= k < se implies t[k + off] == s[k] by {
        assert(t.subrange(tp, tp + w)[k - sp] == s.subrange(sp, se)[k - sp]);
    }
    let (p1, a) = dec_octet_at(s, sp)->Some_0;
    let (p2, b) = dec_octet_at(s, p1 + 1)->Some_0;
    let (p3, c) = dec_octet_at(s, p2 + 1)->Some_0;
    let (p4, d) = dec_octet_at(s, p3 + 1)->Some_0;
    assert(t.subrange(tp, p1 + off) =~= s.subrange(sp, p1));
    lemma_dec_octet_window(s, sp, t, tp, p1, a);
    assert(byte_at(t, p1 + off, 0x2E));
    assert(t.subrange(p1 + 1 + off, p2 + off) =~= s.subrange(p1 + 1, p2));
    lemma_dec_octet_window(s, p1 + 1, t, p1 + 1 + off, p2, b);
    assert(byte_at(t, p2 + off, 0x2E));
    assert(t.subrange(p2 + 1 + off, p3 + off) =~= s.subrange(p2 + 1, p3));
    lemma_dec_octet_window(s, p2 + 1, t, p2 + 1 + off, p3, c);
    assert(byte_at(t, p3 + off, 0x2E));
    assert(t.subrange(p3 + 1 + off, p4 + off) =~= s.subrange(p3 + 1, p4));
    if byte_at(s, p4, 0x2E) {
        assert(se == p4 + 1);
        assert(t[p4 + off] == s[p4]);
        lemma_dec_octet_window(s, p3 + 1, t, p3 + 1 + off, p4, d);
        assert(byte_at(t, p4 + off, 0x2E));
    } else {
        assert(se == p4);
        crate::parse::lemma_scan_end(s, p3 + 1, |x: u8| crate::parse::spec_is_digit(x));
        assert(crate::parse::spec_is_digit(s[se - 1]));
        assert(s[se - 1] != 0x2E);
        lemma_dec_octet_window(s, p3 + 1, t, p3 + 1 + off, p4, d);
        assert(!byte_at(t, p4 + off, 0x2E));
    }
}

/// Where an IPv4 literal is not recognised, it is not recognised at any
/// other position holding the same bytes, when at both positions the
/// window's end is followed by neither a digit nor a dot.
pub proof fn lemma_ipv4_at_none_window(s: Seq<u8>, sp: int, t: Seq<u8>, tp: int, w: int)
    requires
        0 <= w,
        0 <= sp && sp + w <= s.len(),
        0 <= tp && tp + w <= t.len(),
        t.subrange(tp, tp + w) == s.subrange(sp, sp + w),
        ipv4_at(s, sp) is None,
        sp + w < s.len() ==> !crate::parse::spec_is_digit(s[sp + w]) && s[sp + w] != 0x2E,
        tp + w < t.len() ==> !crate::parse::spec_is_digit(t[tp + w]) && t[tp + w] != 0x2E,
    ensures
        ipv4_at(t, tp) is None,
{
    if ipv4_at(t, tp) is Some {
        let (te, v) = ipv4_at(t, tp)->Some_0;
        lemma_ipv4_span(t, tp, te, v);
        assert(te <= tp + w) by {
            if te > tp + w {
                assert(crate::parse::spec_is_digit(t[tp + w]) || t[tp + w] == 0x2E);
            }
        }
        assert(s.subrange(sp, sp + (te - tp)) =~= t.subrange(tp, te)) by {
            assert forall|k: int| 0 <= k < te - tp implies s.subrange(sp, sp + (te - tp))[k]
                == t.subrange(tp, te)[k] by {
                assert(s.subrange(sp, sp + w)[k] == t.subrange(tp, tp + w)[k]);
            }
        }
        let ce = sp + (te - tp);
        if t[te - 1] != 0x2E && ce < s.len() {
            if te - tp < w {
                assert(te < tp + w <= t.len());
                assert(0 <= te - tp < w);
                assert(s.subrange(sp, sp + w)[te - tp] == s[ce]);
                assert(t.subrange(tp, tp + w)[te - tp] == t[te]);
                assert(s[ce] == t[te]);
                assert(!crate::parse::spec_is_digit(t[te]) && t[te] != 0x2E);
            } else {
                assert(ce == sp + w);
            }
        }
        lemma_ipv4_at_window(t, tp, s, sp, te, v);
        assert(false);
    }
}

/// No IPv4 literal starts at a position whose byte is not a digit.
pub proof fn lemma_ipv4_none_at_nondigit(t: Seq<u8>, i: int)
    requires
        0 <= i <= t.len(),
        i < t.len() ==> !crate::parse::spec_is_digit(t[i]),
    ensures
        ipv4_at(t, i) is None,
{
    let dp = |x: u8| crate::parse::spec_is_digit(x);
    crate::parse::lemma_scan_end_unique(t, i, dp, i);
}

} // verus!
