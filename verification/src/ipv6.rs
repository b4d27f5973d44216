//! IPv6 literal parsing.
//!
//! Recognises the nine ABNF alternatives of the RFC 3986 `IPv6address`
//! production, tried in order: the full eight-group form, then each
//! placement of the `::` compression, with an `ls32` tail that is either
//! two 16-bit groups or an embedded strict IPv4 literal. Groups omitted
//! by the compression default to zero.

use vstd::prelude::*;

use crate::ipv4::ipv4_at;
use crate::ipv4::parse_ipv4_at;
use crate::parse::ParseError;
use crate::parse::byte_at;
use crate::parse::has_byte;
use crate::parse::hex_digits_end;
use crate::parse::hex_run_u32;
use crate::parse::hex_run_val;
use crate::parse::scan_hex_digits;

verus! {

broadcast use vstd::slice::group_slice_axioms;

/// A parsed IPv6 address: eight ordered 16-bit groups.
#[derive(Clone, Copy, PartialEq, Eq, Structural, Debug)]
pub struct Ipv6Address {
    pub g0: u16,
    pub g1: u16,
    pub g2: u16,
    pub g3: u16,
    pub g4: u16,
    pub g5: u16,
    pub g6: u16,
    pub g7: u16,
}

impl Ipv6Address {
    pub fn new(g0: u16, g1: u16, g2: u16, g3: u16, g4: u16, g5: u16, g6: u16, g7: u16) -> (r:
        Ipv6Address)
        ensures
            r == (Ipv6Address { g0, g1, g2, g3, g4, g5, g6, g7 }),
    {
        Ipv6Address { g0, g1, g2, g3, g4, g5, g6, g7 }
    }
}

/// An `h16` at position `i`: one to four hexadecimal digits, consumed
/// maximally up to four.
pub open spec fn h16_at(s: Seq<u8>, i: int) -> Option<(int, u16)>
    recommends
        0 <= i <= s.len(),
{
    let e0 = hex_digits_end(s, i);
    let e = if e0 > i + 4 {
        i + 4
    } else {
        e0
    };
    if e == i {
        None
    } else {
        Some((e, hex_run_val(s, i, e) as u16))
    }
}

/// Two colons at position `i`.
pub open spec fn dcolon_at(s: Seq<u8>, i: int) -> bool {
    byte_at(s, i, 0x3A) && byte_at(s, i + 1, 0x3A)
}

/// An `h16` followed by a single colon.
pub open spec fn h16_colon_at(s: Seq<u8>, i: int) -> Option<(int, u16)>
    recommends
        0 <= i <= s.len(),
{
    match h16_at(s, i) {
        None => None,
        Some((e, v)) => if byte_at(s, e, 0x3A) {
            Some((e + 1, v))
        } else {
            None
        },
    }
}

/// An `ls32` at position `i`: two colon-separated `h16` groups, or an
/// embedded strict IPv4 literal contributing the low 32 bits.
pub open spec fn ls32_at(s: Seq<u8>, i: int) -> Option<(int, (u16, u16))>
    recommends
        0 <= i <= s.len(),
{
    let double = match h16_at(s, i) {
        None => None,
        Some((e1, v1)) => if byte_at(s, e1, 0x3A) {
            match h16_at(s, e1 + 1) {
                None => None,
                Some((e2, v2)) => Some((e2, (v1, v2))),
            }
        } else {
            None
        },
    };
    if double is Some {
        double
    } else {
        match ipv4_at(s, i) {
            None => None,
            Some((e, q)) => Some((e, ((q.a * 256 + q.b) as u16, (q.c * 256 + q.d) as u16))),
        }
    }
}

/// Leading groups before a `::` compression: up to `n` `h16` groups
/// separated by single colons, stopping before a `::`. Never fails; an
/// empty prefix yields no groups.
pub open spec fn stuff_at(s: Seq<u8>, i: int, n: nat) -> (int, Seq<u16>)
    decreases n,
    when 0 <= i <= s.len()
{
    if n == 0 || dcolon_at(s, i) {
        (i, Seq::empty())
    } else {
        match h16_at(s, i) {
            None => (i, Seq::empty()),
            Some((e, v)) => if dcolon_at(s, e) {
                (e, seq![v])
            } else if byte_at(s, e, 0x3A) {
                let (p, rest) = stuff_at(s, e + 1, (n - 1) as nat);
                (p, seq![v] + rest)
            } else {
                let (p, rest) = stuff_at(s, e, (n - 1) as nat);
                (p, seq![v] + rest)
            },
        }
    }
}

/// Group `k` of a leading-group list, defaulting to zero when absent.
pub open spec fn padded(g: Seq<u16>, k: int) -> u16 {
    if 0 <= k < g.len() {
        g[k]
    } else {
        0
    }
}

/// `6( h16 ":" ) ls32`
pub open spec fn ipv6_alt1_at(s: Seq<u8>, i: int) -> Option<(int, Ipv6Address)>
    recommends
        0 <= i <= s.len(),
{
    match h16_colon_at(s, i) {
        None => None,
        Some((p1, a)) => match h16_colon_at(s, p1) {
            None => None,
            Some((p2, b)) => match h16_colon_at(s, p2) {
                None => None,
                Some((p3, c)) => match h16_colon_at(s, p3) {
                    None => None,
                    Some((p4, d)) => match h16_colon_at(s, p4) {
                        None => None,
                        Some((p5, e)) => match h16_colon_at(s, p5) {
                            None => None,
                            Some((p6, f)) => match ls32_at(s, p6) {
                                None => None,
                                Some((p7, (g, h))) => Some(
                                    (
                                        p7,
                                        Ipv6Address {
                                            g0: a,
                                            g1: b,
                                            g2: c,
                                            g3: d,
                                            g4: e,
                                            g5: f,
                                            g6: g,
                                            g7: h,
                                        },
                                    ),
                                ),
                            },
                        },
                    },
                },
            },
        },
    }
}

/// `"::" 5( h16 ":" ) ls32`
pub open spec fn ipv6_alt2_at(s: Seq<u8>, i: int) -> Option<(int, Ipv6Address)>
    recommends
        0 <= i <= s.len(),
{
    if !dcolon_at(s, i) {
        None
    } else {
        match h16_colon_at(s, i + 2) {
            None => None,
            Some((p1, b)) => match h16_colon_at(s, p1) {
                None => None,
                Some((p2, c)) => match h16_colon_at(s, p2) {
                    None => None,
                    Some((p3, d)) => match h16_colon_at(s, p3) {
                        None => None,
                        Some((p4, e)) => match h16_colon_at(s, p4) {
                            None => None,
                            Some((p5, f)) => match ls32_at(s, p5) {
                                None => None,
                                Some((p6, (g, h))) => Some(
                                    (
                                        p6,
                                        Ipv6Address {
                                            g0: 0,
                                            g1: b,
                                            g2: c,
                                            g3: d,
                                            g4: e,
                                            g5: f,
                                            g6: g,
                                            g7: h,
                                        },
                                    ),
                                ),
                            },
                        },
                    },
                },
            },
        }
    }
}

/// `[ h16 ] "::" 4( h16 ":" ) ls32`
pub open spec fn ipv6_alt3_at(s: Seq<u8>, i: int) -> Option<(int, Ipv6Address)>
    recommends
        0 <= i <= s.len(),
{
    let (q, a) = match h16_at(s, i) {
        None => (i, 0u16),
        Some((e, v)) => (e, v),
    };
    if !dcolon_at(s, q) {
        None
    } else {
        match h16_colon_at(s, q + 2) {
            None => None,
            Some((p1, c)) => match h16_colon_at(s, p1) {
                None => None,
                Some((p2, d)) => match h16_colon_at(s, p2) {
                    None => None,
                    Some((p3, e)) => match h16_colon_at(s, p3) {
                        None => None,
                        Some((p4, f)) => match ls32_at(s, p4) {
                            None => None,
                            Some((p5, (g, h))) => Some(
                                (
                                    p5,
                                    Ipv6Address {
                                        g0: a,
                                        g1: 0,
                                        g2: c,
                                        g3: d,
                                        g4: e,
                                        g5: f,
                                        g6: g,
                                        g7: h,
                                    },
                                ),
                            ),
                        },
                    },
                },
            },
        }
    }
}

/// `[ *1( h16 ":" ) h16 ] "::" 3( h16 ":" ) ls32`
pub open spec fn ipv6_alt4_at(s: Seq<u8>, i: int) -> Option<(int, Ipv6Address)>
    recommends
        0 <= i <= s.len(),
{
    let (q, lead) = stuff_at(s, i, 2);
    if !dcolon_at(s, q) {
        None
    } else {
        match h16_colon_at(s, q + 2) {
            None => None,
            Some((p1, d)) => match h16_colon_at(s, p1) {
                None => None,
                Some((p2, e)) => match h16_colon_at(s, p2) {
                    None => None,
                    Some((p3, f)) => match ls32_at(s, p3) {
                        None => None,
                        Some((p4, (g, h))) => Some(
                            (
                                p4,
                                Ipv6Address {
                                    g0: padded(lead, 0),
                                    g1: padded(lead, 1),
                                    g2: 0,
                                    g3: d,
                                    g4: e,
                                    g5: f,
                                    g6: g,
                                    g7: h,
                                },
                            ),
                        ),
                    },
                },
            },
        }
    }
}

/// `[ *2( h16 ":" ) h16 ] "::" 2( h16 ":" ) ls32`
pub open spec fn ipv6_alt5_at(s: Seq<u8>, i: int) -> Option<(int, Ipv6Address)>
    recommends
        0 <= i <= s.len(),
{
    let (q, lead) = stuff_at(s, i, 3);
    if !dcolon_at(s, q) {
        None
    } else {
        match h16_colon_at(s, q + 2) {
            None => None,
            Some((p1, e)) => match h16_colon_at(s, p1) {
                None => None,
                Some((p2, f)) => match ls32_at(s, p2) {
                    None => None,
                    Some((p3, (g, h))) => Some(
                        (
                            p3,
                            Ipv6Address {
                                g0: padded(lead, 0),
                                g1: padded(lead, 1),
                                g2: padded(lead, 2),
                                g3: 0,
                                g4: e,
                                g5: f,
                                g6: g,
                                g7: h,
                            },
                        ),
                    ),
                },
            },
        }
    }
}

/// `[ *3( h16 ":" ) h16 ] "::" h16 ":" ls32`
pub open spec fn ipv6_alt6_at(s: Seq<u8>, i: int) -> Option<(int, Ipv6Address)>
    recommends
        0 <= i <= s.len(),
{
    let (q, lead) = stuff_at(s, i, 4);
    if !dcolon_at(s, q) {
        None
    } else {
        match h16_colon_at(s, q + 2) {
            None => None,
            Some((p1, f)) => match ls32_at(s, p1) {
                None => None,
                Some((p2, (g, h))) => Some(
                    (
                        p2,
                        Ipv6Address {
                            g0: padded(lead, 0),
                            g1: padded(lead, 1),
                            g2: padded(lead, 2),
                            g3: padded(lead, 3),
                            g4: 0,
                            g5: f,
                            g6: g,
                            g7: h,
                        },
                    ),
                ),
            },
        }
    }
}

/// `[ *4( h16 ":" ) h16 ] "::" ls32`
pub open spec fn ipv6_alt7_at(s: Seq<u8>, i: int) -> Option<(int, Ipv6Address)>
    recommends
        0 <= i <= s.len(),
{
    let (q, lead) = stuff_at(s, i, 5);
    if !dcolon_at(s, q) {
        None
    } else {
        match ls32_at(s, q + 2) {
            None => None,
            Some((p1, (g, h))) => Some(
                (
                    p1,
                    Ipv6Address {
                        g0: padded(lead, 0),
                        g1: padded(lead, 1),
                        g2: padded(lead, 2),
                        g3: padded(lead, 3),
                        g4: padded(lead, 4),
                        g5: 0,
                        g6: g,
                        g7: h,
                    },
                ),
            ),
        }
    }
}

/// `[ *5( h16 ":" ) h16 ] "::" h16`
pub open spec fn ipv6_alt8_at(s: Seq<u8>, i: int) -> Option<(int, Ipv6Address)>
    recommends
        0 <= i <= s.len(),
{
    let (q, lead) = stuff_at(s, i, 6);
    if !dcolon_at(s, q) {
        None
    } else {
        match h16_at(s, q + 2) {
            None => None,
            Some((p1, h)) => Some(
                (
                    p1,
                    Ipv6Address {
                        g0: padded(lead, 0),
                        g1: padded(lead, 1),
                        g2: padded(lead, 2),
                        g3: padded(lead, 3),
                        g4: padded(lead, 4),
                        g5: padded(lead, 5),
                        g6: 0,
                        g7: h,
                    },
                ),
            ),
        }
    }
}

/// `[ *6( h16 ":" ) h16 ] "::"`
pub open spec fn ipv6_alt9_at(s: Seq<u8>, i: int) -> Option<(int, Ipv6Address)>
    recommends
        0 <= i <= s.len(),
{
    let (q, lead) = stuff_at(s, i, 7);
    if !dcolon_at(s, q) {
        None
    } else {
        Some(
            (
                q + 2,
                Ipv6Address {
                    g0: padded(lead, 0),
                    g1: padded(lead, 1),
                    g2: padded(lead, 2),
                    g3: padded(lead, 3),
                    g4: padded(lead, 4),
                    g5: padded(lead, 5),
                    g6: padded(lead, 6),
                    g7: 0,
                },
            ),
        )
    }
}

/// An IPv6 literal at position `i`: the nine alternatives, tried in
/// order, committing to the first that matches.
pub open spec fn ipv6_at(s: Seq<u8>, i: int) -> Option<(int, Ipv6Address)>
    recommends
        0 <= i <= s.len(),
{
    if ipv6_alt1_at(s, i) is Some {
        ipv6_alt1_at(s, i)
    } else if ipv6_alt2_at(s, i) is Some {
        ipv6_alt2_at(s, i)
    } else if ipv6_alt3_at(s, i) is Some {
        ipv6_alt3_at(s, i)
    } else if ipv6_alt4_at(s, i) is Some {
        ipv6_alt4_at(s, i)
    } else if ipv6_alt5_at(s, i) is Some {
        ipv6_alt5_at(s, i)
    } else if ipv6_alt6_at(s, i) is Some {
        ipv6_alt6_at(s, i)
    } else if ipv6_alt7_at(s, i) is Some {
        ipv6_alt7_at(s, i)
    } else if ipv6_alt8_at(s, i) is Some {
        ipv6_alt8_at(s, i)
    } else {
        ipv6_alt9_at(s, i)
    }
}

/// Parse an `h16` starting at `pos`.
pub fn parse_h16(s: &[u8], pos: usize) -> (r: Option<(usize, u16)>)
    requires
        pos <= s@.len(),
    ensures
        match r {
            Some(rv) => h16_at(s@, pos as int) == Some((rv.0 as int, rv.1)) && pos < rv.0
                <= s@.len(),
            None => h16_at(s@, pos as int) is None,
        },
{
    let e0 = scan_hex_digits(s, pos);
    let e = if e0 > pos && e0 - pos > 4 {
        pos + 4
    } else {
        e0
    };
    if e == pos {
        return None;
    }
    match hex_run_u32(s, pos, e) {
        None => {
            proof {
                crate::parse::lemma_hex_run_val_mono(s@, pos as int, e as int, e as int);
                assert(hex_run_val(s@, pos as int, e as int) <= u32::MAX) by {
                    lemma_h16_fits(s@, pos as int, e as int);
                };
            }
            // A run of at most four hex digits always fits; this branch
            // cannot be reached.
            None
        },
        Some(v) => {
            proof {
                lemma_h16_fits(s@, pos as int, e as int);
            }
            Some((e, v as u16))
        },
    }
}

/// Four hexadecimal digits encode a value below 2^16.
proof fn lemma_h16_fits(s: Seq<u8>, i: int, e: int)
    requires
        0 <= i <= e <= s.len(),
        e - i <= 4,
        forall|k: int| i <= k < e ==> crate::parse::spec_is_hex_digit(#[trigger] s[k]),
    ensures
        0 <= hex_run_val(s, i, e) < 0x10000,
    decreases e - i,
{
    if e > i {
        let n = (e - i) as nat;
        lemma_h16_fits_bound(s, i, e, n);
        reveal_with_fuel(vstd::arithmetic::power::pow, 5);
        assert(vstd::arithmetic::power::pow(16, n) <= 65536);
    }
}

/// A run of `n` hexadecimal digits encodes a value below 16^n.
proof fn lemma_h16_fits_bound(s: Seq<u8>, i: int, e: int, n: nat)
    requires
        0 <= i <= e <= s.len(),
        e - i == n,
        n <= 4,
        forall|k: int| i <= k < e ==> crate::parse::spec_is_hex_digit(#[trigger] s[k]),
    ensures
        0 <= hex_run_val(s, i, e) && hex_run_val(s, i, e) < vstd::arithmetic::power::pow(16, n),
    decreases n,
{
    reveal(vstd::arithmetic::power::pow);
    vstd::arithmetic::power::lemma_pow_positive(16, n);
    if n == 0 {
    } else {
        lemma_h16_fits_bound(s, i, e - 1, (n - 1) as nat);
        let prev = hex_run_val(s, i, e - 1);
        let bound = vstd::arithmetic::power::pow(16, (n - 1) as nat);
        assert(vstd::arithmetic::power::pow(16, n) == 16 * bound);
        assert(prev * 16 + 15 < 16 * bound) by (nonlinear_arith)
            requires
                0 <= prev,
                prev < bound,
        ;
        assert(crate::parse::spec_hex_digit_val(s[e - 1]) <= 15);
    }
}

/// Whether two colons stand at `pos`.
pub fn is_dcolon(s: &[u8], pos: usize) -> (r: bool)
    requires
        pos <= s@.len(),
    ensures
        r == dcolon_at(s@, pos as int),
        s@.len() <= usize::MAX,
{
    if has_byte(s, pos, 0x3A) {
        has_byte(s, pos + 1, 0x3A)
    } else {
        false
    }
}

/// Parse an `h16` followed by a single colon.
pub fn parse_h16_colon(s: &[u8], pos: usize) -> (r: Option<(usize, u16)>)
    requires
        pos <= s@.len(),
    ensures
        match r {
            Some(rv) => h16_colon_at(s@, pos as int) == Some((rv.0 as int, rv.1)) && pos < rv.0
                <= s@.len(),
            None => h16_colon_at(s@, pos as int) is None,
        },
{
    match parse_h16(s, pos) {
        None => None,
        Some((e, v)) => if has_byte(s, e, 0x3A) {
            Some((e + 1, v))
        } else {
            None
        },
    }
}

/// Parse an `ls32` starting at `pos`.
pub fn parse_ls32(s: &[u8], pos: usize) -> (r: Option<(usize, (u16, u16))>)
    requires
        pos <= s@.len(),
    ensures
        match r {
            Some(rv) => ls32_at(s@, pos as int) == Some((rv.0 as int, rv.1)) && pos <= rv.0
                <= s@.len(),
            None => ls32_at(s@, pos as int) is None,
        },
{
    let double: Option<(usize, (u16, u16))> = match parse_h16(s, pos) {
        None => None,
        Some((e1, v1)) => if has_byte(s, e1, 0x3A) {
            match parse_h16(s, e1 + 1) {
                None => None,
                Some((e2, v2)) => Some((e2, (v1, v2))),
            }
        } else {
            None
        },
    };
    match double {
        Some(x) => Some(x),
        None => match parse_ipv4_at(s, pos) {
            None => None,
            Some((e, q)) => Some(
                (e, ((q.a as u16) * 256 + (q.b as u16), (q.c as u16) * 256 + (q.d as u16))),
            ),
        },
    }
}

/// Group `k` of a parsed leading-group list, defaulting to zero.
pub fn padded_get(v: &Vec<u16>, k: usize) -> (r: u16)
    ensures
        r == padded(v@, k as int),
{
    if k < v.len() {
        v[k]
    } else {
        0
    }
}

/// Parse up to `n` leading `h16` groups separated by single colons,
/// stopping before a `::`.
pub fn parse_stuff(s: &[u8], pos: usize, n: usize) -> (r: (usize, Vec<u16>))
    requires
        pos <= s@.len(),
    ensures
        ({
            let (e, g) = stuff_at(s@, pos as int, n as nat);
            r.0 == e && r.1@ == g && pos <= r.0 <= s@.len()
        }),
    decreases n,
{
    if n == 0 || is_dcolon(s, pos) {
        return (pos, Vec::new());
    }
    match parse_h16(s, pos) {
        None => (pos, Vec::new()),
        Some((e, v)) => {
            if is_dcolon(s, e) {
                let mut out: Vec<u16> = Vec::new();
                out.push(v);
                proof {
                    assert(out@ =~= seq![v]);
                }
                (e, out)
            } else {
                let next = if has_byte(s, e, 0x3A) {
                    e + 1
                } else {
                    e
                };
                let (p, rest) = parse_stuff(s, next, n - 1);
                let mut out: Vec<u16> = Vec::new();
                out.push(v);
                let mut i: usize = 0;
                while i < rest.len()
                    invariant
                        0 <= i <= rest@.len(),
                        out@ == seq![v] + rest@.subrange(0, i as int),
                    decreases rest@.len() - i,
                {
                    out.push(rest[i]);
                    i = i + 1;
                    proof {
                        assert(out@ =~= seq![v] + rest@.subrange(0, i as int));
                    }
                }
                proof {
                    assert(rest@.subrange(0, rest@.len() as int) =~= rest@);
                }
                (p, out)
            }
        },
    }
}

/// Parse the full eight-group form.
fn parse_ipv6_1(s: &[u8], pos: usize) -> (r: Option<(usize, Ipv6Address)>)
    requires
        pos <= s@.len(),
    ensures
        match r {
            Some(rv) => ipv6_alt1_at(s@, pos as int) == Some((rv.0 as int, rv.1)) && pos <= rv.0
                <= s@.len(),
            None => ipv6_alt1_at(s@, pos as int) is None,
        },
{
    let (p1, a) = match parse_h16_colon(s, pos) {
        None => {
            return None;
        },
        Some(x) => x,
    };
    let (p2, b) = match parse_h16_colon(s, p1) {
        None => {
            return None;
        },
        Some(x) => x,
    };
    let (p3, c) = match parse_h16_colon(s, p2) {
        None => {
            return None;
        },
        Some(x) => x,
    };
    let (p4, d) = match parse_h16_colon(s, p3) {
        None => {
            return None;
        },
        Some(x) => x,
    };
    let (p5, e) = match parse_h16_colon(s, p4) {
        None => {
            return None;
        },
        Some(x) => x,
    };
    let (p6, f) = match parse_h16_colon(s, p5) {
        None => {
            return None;
        },
        Some(x) => x,
    };
    let (p7, (g, h)) = match parse_ls32(s, p6) {
        None => {
            return None;
        },
        Some(x) => x,
    };
    Some((p7, Ipv6Address { g0: a, g1: b, g2: c, g3: d, g4: e, g5: f, g6: g, g7: h }))
}

/// Parse the `::`-prefixed six-group form.
fn parse_ipv6_2(s: &[u8], pos: usize) -> (r: Option<(usize, Ipv6Address)>)
    requires
        pos <= s@.len(),
    ensures
        match r {
            Some(rv) => ipv6_alt2_at(s@, pos as int) == Some((rv.0 as int, rv.1)) && pos <= rv.0
                <= s@.len(),
            None => ipv6_alt2_at(s@, pos as int) is None,
        },
{
    if !is_dcolon(s, pos) {
        return None;
    }
    let (p1, b) = match parse_h16_colon(s, pos + 2) {
        None => {
            return None;
        },
        Some(x) => x,
    };
    let (p2, c) = match parse_h16_colon(s, p1) {
        None => {
            return None;
        },
        Some(x) => x,
    };
    let (p3, d) = match parse_h16_colon(s, p2) {
        None => {
            return None;
        },
        Some(x) => x,
    };
    let (p4, e) = match parse_h16_colon(s, p3) {
        None => {
            return None;
        },
        Some(x) => x,
    };
    let (p5, f) = match parse_h16_colon(s, p4) {
        None => {
            return None;
        },
        Some(x) => x,
    };
    let (p6, (g, h)) = match parse_ls32(s, p5) {
        None => {
            return None;
        },
        Some(x) => x,
    };
    Some((p6, Ipv6Address { g0: 0, g1: b, g2: c, g3: d, g4: e, g5: f, g6: g, g7: h }))
}

/// Parse the form with an optional single group before the `::`.
fn parse_ipv6_3(s: &[u8], pos: usize) -> (r: Option<(usize, Ipv6Address)>)
    requires
        pos <= s@.len(),
    ensures
        match r {
            Some(rv) => ipv6_alt3_at(s@, pos as int) == Some((rv.0 as int, rv.1)) && pos <= rv.0
                <= s@.len(),
            None => ipv6_alt3_at(s@, pos as int) is None,
        },
{
    let (q, a) = match parse_h16(s, pos) {
        None => (pos, 0u16),
        Some(x) => x,
    };
    if !is_dcolon(s, q) {
        return None;
    }
    let (p1, c) = match parse_h16_colon(s, q + 2) {
        None => {
            return None;
        },
        Some(x) => x,
    };
    let (p2, d) = match parse_h16_colon(s, p1) {
        None => {
            return None;
        },
        Some(x) => x,
    };
    let (p3, e) = match parse_h16_colon(s, p2) {
        None => {
            return None;
        },
        Some(x) => x,
    };
    let (p4, f) = match parse_h16_colon(s, p3) {
        None => {
            return None;
        },
        Some(x) => x,
    };
    let (p5, (g, h)) = match parse_ls32(s, p4) {
        None => {
            return None;
        },
        Some(x) => x,
    };
    Some((p5, Ipv6Address { g0: a, g1: 0, g2: c, g3: d, g4: e, g5: f, g6: g, g7: h }))
}

/// Parse the form with up to two leading groups before the `::`.
fn parse_ipv6_4(s: &[u8], pos: usize) -> (r: Option<(usize, Ipv6Address)>)
    requires
        pos <= s@.len(),
    ensures
        match r {
            Some(rv) => ipv6_alt4_at(s@, pos as int) == Some((rv.0 as int, rv.1)) && pos <= rv.0
                <= s@.len(),
            None => ipv6_alt4_at(s@, pos as int) is None,
        },
{
    let (q, lead) = parse_stuff(s, pos, 2);
    if !is_dcolon(s, q) {
        return None;
    }
    let (p1, d) = match parse_h16_colon(s, q + 2) {
        None => {
            return None;
        },
        Some(x) => x,
    };
    let (p2, e) = match parse_h16_colon(s, p1) {
        None => {
            return None;
        },
        Some(x) => x,
    };
    let (p3, f) = match parse_h16_colon(s, p2) {
        None => {
            return None;
        },
        Some(x) => x,
    };
    let (p4, (g, h)) = match parse_ls32(s, p3) {
        None => {
            return None;
        },
        Some(x) => x,
    };
    Some(
        (
            p4,
            Ipv6Address {
                g0: padded_get(&lead, 0),
                g1: padded_get(&lead, 1),
                g2: 0,
                g3: d,
                g4: e,
                g5: f,
                g6: g,
                g7: h,
            },
        ),
    )
}

/// Parse the form with up to three leading groups before the `::`.
fn parse_ipv6_5(s: &[u8], pos: usize) -> (r: Option<(usize, Ipv6Address)>)
    requires
        pos <= s@.len(),
    ensures
        match r {
            Some(rv) => ipv6_alt5_at(s@, pos as int) == Some((rv.0 as int, rv.1)) && pos <= rv.0
                <= s@.len(),
            None => ipv6_alt5_at(s@, pos as int) is None,
        },
{
    let (q, lead) = parse_stuff(s, pos, 3);
    if !is_dcolon(s, q) {
        return None;
    }
    let (p1, e) = match parse_h16_colon(s, q + 2) {
        None => {
            return None;
        },
        Some(x) => x,
    };
    let (p2, f) = match parse_h16_colon(s, p1) {
        None => {
            return None;
        },
        Some(x) => x,
    };
    let (p3, (g, h)) = match parse_ls32(s, p2) {
        None => {
            return None;
        },
        Some(x) => x,
    };
    Some(
        (
            p3,
            Ipv6Address {
                g0: padded_get(&lead, 0),
                g1: padded_get(&lead, 1),
                g2: padded_get(&lead, 2),
                g3: 0,
                g4: e,
                g5: f,
                g6: g,
                g7: h,
            },
        ),
    )
}

/// Parse the form with up to four leading groups before the `::`.
fn parse_ipv6_6(s: &[u8], pos: usize) -> (r: Option<(usize, Ipv6Address)>)
    requires
        pos <= s@.len(),
    ensures
        match r {
            Some(rv) => ipv6_alt6_at(s@, pos as int) == Some((rv.0 as int, rv.1)) && pos <= rv.0
                <= s@.len(),
            None => ipv6_alt6_at(s@, pos as int) is None,
        },
{
    let (q, lead) = parse_stuff(s, pos, 4);
    if !is_dcolon(s, q) {
        return None;
    }
    let (p1, f) = match parse_h16_colon(s, q + 2) {
        None => {
            return None;
        },
        Some(x) => x,
    };
    let (p2, (g, h)) = match parse_ls32(s, p1) {
        None => {
            return None;
        },
        Some(x) => x,
    };
    Some(
        (
            p2,
            Ipv6Address {
                g0: padded_get(&lead, 0),
                g1: padded_get(&lead, 1),
                g2: padded_get(&lead, 2),
                g3: padded_get(&lead, 3),
                g4: 0,
                g5: f,
                g6: g,
                g7: h,
            },
        ),
    )
}

/// Parse the form with up to five leading groups before the `::`.
fn parse_ipv6_7(s: &[u8], pos: usize) -> (r: Option<(usize, Ipv6Address)>)
    requires
        pos <= s@.len(),
    ensures
        match r {
            Some(rv) => ipv6_alt7_at(s@, pos as int) == Some((rv.0 as int, rv.1)) && pos <= rv.0
                <= s@.len(),
            None => ipv6_alt7_at(s@, pos as int) is None,
        },
{
    let (q, lead) = parse_stuff(s, pos, 5);
    if !is_dcolon(s, q) {
        return None;
    }
    let (p1, (g, h)) = match parse_ls32(s, q + 2) {
        None => {
            return None;
        },
        Some(x) => x,
    };
    Some(
        (
            p1,
            Ipv6Address {
                g0: padded_get(&lead, 0),
                g1: padded_get(&lead, 1),
                g2: padded_get(&lead, 2),
                g3: padded_get(&lead, 3),
                g4: padded_get(&lead, 4),
                g5: 0,
                g6: g,
                g7: h,
            },
        ),
    )
}

/// Parse the form with up to six leading groups before the `::`.
fn parse_ipv6_8(s: &[u8], pos: usize) -> (r: Option<(usize, Ipv6Address)>)
    requires
        pos <= s@.len(),
    ensures
        match r {
            Some(rv) => ipv6_alt8_at(s@, pos as int) == Some((rv.0 as int, rv.1)) && pos <= rv.0
                <= s@.len(),
            None => ipv6_alt8_at(s@, pos as int) is None,
        },
{
    let (q, lead) = parse_stuff(s, pos, 6);
    if !is_dcolon(s, q) {
        return None;
    }
    let (p1, h) = match parse_h16(s, q + 2) {
        None => {
            return None;
        },
        Some(x) => x,
    };
    Some(
        (
            p1,
            Ipv6Address {
                g0: padded_get(&lead, 0),
                g1: padded_get(&lead, 1),
                g2: padded_get(&lead, 2),
                g3: padded_get(&lead, 3),
                g4: padded_get(&lead, 4),
                g5: padded_get(&lead, 5),
                g6: 0,
                g7: h,
            },
        ),
    )
}

/// Parse the form with up to seven leading groups before the `::`.
fn parse_ipv6_9(s: &[u8], pos: usize) -> (r: Option<(usize, Ipv6Address)>)
    requires
        pos <= s@.len(),
    ensures
        match r {
            Some(rv) => ipv6_alt9_at(s@, pos as int) == Some((rv.0 as int, rv.1)) && pos <= rv.0
                <= s@.len(),
            None => ipv6_alt9_at(s@, pos as int) is None,
        },
{
    let (q, lead) = parse_stuff(s, pos, 7);
    if !is_dcolon(s, q) {
        return None;
    }
    Some(
        (
            q + 2,
            Ipv6Address {
                g0: padded_get(&lead, 0),
                g1: padded_get(&lead, 1),
                g2: padded_get(&lead, 2),
                g3: padded_get(&lead, 3),
                g4: padded_get(&lead, 4),
                g5: padded_get(&lead, 5),
                g6: padded_get(&lead, 6),
                g7: 0,
            },
        ),
    )
}

/// Parse an IPv6 literal starting at `pos`: the nine alternatives in
/// order.
pub fn parse_ipv6_at(s: &[u8], pos: usize) -> (r: Option<(usize, Ipv6Address)>)
    requires
        pos <= s@.len(),
    ensures
        match r {
            Some(rv) => ipv6_at(s@, pos as int) == Some((rv.0 as int, rv.1)) && pos <= rv.0
                <= s@.len(),
            None => ipv6_at(s@, pos as int) is None,
        },
{
    if let Some(x) = parse_ipv6_1(s, pos) {
        return Some(x);
    }
    if let Some(x) = parse_ipv6_2(s, pos) {
        return Some(x);
    }
    if let Some(x) = parse_ipv6_3(s, pos) {
        return Some(x);
    }
    if let Some(x) = parse_ipv6_4(s, pos) {
        return Some(x);
    }
    if let Some(x) = parse_ipv6_5(s, pos) {
        return Some(x);
    }
    if let Some(x) = parse_ipv6_6(s, pos) {
        return Some(x);
    }
    if let Some(x) = parse_ipv6_7(s, pos) {
        return Some(x);
    }
    if let Some(x) = parse_ipv6_8(s, pos) {
        return Some(x);
    }
    parse_ipv6_9(s, pos)
}

/// Parse an IPv6 literal from the start of `input`, returning the
/// unconsumed remainder together with the address. Fails with a grammar
/// error exactly when no alternative of the `IPv6address` production
/// matches a prefix of the input.
pub fn parse_ipv6<'a>(input: &'a [u8]) -> (r: Result<(&'a [u8], Ipv6Address), ParseError>)
    ensures
        match r {
            Ok(rv) => ipv6_at(input@, 0) matches Some((e, addr)) && addr == rv.1 && rv.0@
                == input@.subrange(e, input@.len() as int),
            Err(pe) => ipv6_at(input@, 0) is None && pe == ParseError::Grammar,
        },
{
    match parse_ipv6_at(input, 0) {
        None => Err(ParseError::Grammar),
        Some((end, addr)) => Ok((vstd::slice::slice_subrange(input, end, input.len()), addr)),
    }
}

proof fn lemma_h16_at_bounds(s: Seq<u8>, i: int)
    requires
        0 <= i <= s.len(),
    ensures
        h16_at(s, i) matches Some((e, _)) ==> i < e <= s.len(),
{
    crate::parse::lemma_scan_end(s, i, |b: u8| crate::parse::spec_is_hex_digit(b));
}

proof fn lemma_h16_colon_at_bounds(s: Seq<u8>, i: int)
    requires
        0 <= i <= s.len(),
    ensures
        h16_colon_at(s, i) matches Some((e, _)) ==> i < e <= s.len(),
{
    lemma_h16_at_bounds(s, i);
}

proof fn lemma_ls32_at_bounds(s: Seq<u8>, i: int)
    requires
        0 <= i <= s.len(),
    ensures
        ls32_at(s, i) matches Some((e, _)) ==> i < e <= s.len(),
{
    lemma_h16_at_bounds(s, i);
    match h16_at(s, i) {
        None => {},
        Some((e1, _)) => {
            if byte_at(s, e1, 0x3A) {
                lemma_h16_at_bounds(s, e1 + 1);
            }
        },
    }
    if ls32_at(s, i) is Some && ipv4_at(s, i) is Some {
        let (e4, q) = ipv4_at(s, i)->Some_0;
        crate::ipv4::lemma_ipv4_span(s, i, e4, q);
    }
}

proof fn lemma_stuff_at_bounds(s: Seq<u8>, i: int, n: nat)
    requires
        0 <= i <= s.len(),
    ensures
        i <= stuff_at(s, i, n).0 <= s.len(),
    decreases n,
{
    if n != 0 && !dcolon_at(s, i) {
        lemma_h16_at_bounds(s, i);
        match h16_at(s, i) {
            None => {},
            Some((e, _)) => {
                if dcolon_at(s, e) {
                } else if byte_at(s, e, 0x3A) {
                    lemma_stuff_at_bounds(s, e + 1, (n - 1) as nat);
                } else {
                    lemma_stuff_at_bounds(s, e, (n - 1) as nat);
                }
            },
        }
    }
}

/// A recognised IPv6 literal consumes at least one byte and stays within
/// the text.
pub proof fn lemma_ipv6_at_bounds(s: Seq<u8>, i: int)
    requires
        0 <= i <= s.len(),
    ensures
        ipv6_at(s, i) matches Some((e, _)) ==> i < e <= s.len(),
{
    lemma_alt1_bounds(s, i);
    lemma_alt2_bounds(s, i);
    lemma_alt3_bounds(s, i);
    lemma_tail_bounds(s, i, 2);
    lemma_tail_bounds(s, i, 3);
    lemma_tail_bounds(s, i, 4);
    lemma_tail_bounds(s, i, 5);
    lemma_tail_bounds(s, i, 6);
    lemma_tail_bounds(s, i, 7);
}

proof fn lemma_alt1_bounds(s: Seq<u8>, i: int)
    requires
        0 <= i <= s.len(),
    ensures
        ipv6_alt1_at(s, i) matches Some((e, _)) ==> i < e <= s.len(),
{
    lemma_h16_colon_at_bounds(s, i);
    if let Some((x1, _)) = h16_colon_at(s, i) {
        lemma_h16_colon_at_bounds(s, x1);
        if let Some((x2, _)) = h16_colon_at(s, x1) {
            lemma_h16_colon_at_bounds(s, x2);
            if let Some((x3, _)) = h16_colon_at(s, x2) {
                lemma_h16_colon_at_bounds(s, x3);
                if let Some((x4, _)) = h16_colon_at(s, x3) {
                    lemma_h16_colon_at_bounds(s, x4);
                    if let Some((x5, _)) = h16_colon_at(s, x4) {
                        lemma_h16_colon_at_bounds(s, x5);
                        if let Some((x6, _)) = h16_colon_at(s, x5) {
                            lemma_ls32_at_bounds(s, x6);
                        }
                    }
                }
            }
        }
    }
}

proof fn lemma_rest_after_dcolon_bounds(s: Seq<u8>, q: int)
    requires
        0 <= q,
        dcolon_at(s, q),
    ensures
        q + 2 <= s.len(),
        h16_colon_at(s, q + 2) matches Some((e, _)) ==> q + 2 < e <= s.len(),
        ls32_at(s, q + 2) matches Some((e, _)) ==> q + 2 < e <= s.len(),
        h16_at(s, q + 2) matches Some((e, _)) ==> q + 2 < e <= s.len(),
        (h16_colon_at(s, q + 2) matches Some((e1, _)) ==> {
            &&& (h16_colon_at(s, e1) matches Some((e2, _)) ==> {
                &&& (h16_colon_at(s, e2) matches Some((e3, _)) ==> {
                    &&& (h16_colon_at(s, e3) matches Some((e4, _)) ==> {
                        &&& (h16_colon_at(s, e4) matches Some((e5, _)) ==> (ls32_at(
                            s,
                            e5,
                        ) matches Some((e6, _)) ==> e5 < e6 <= s.len()))
                        &&& (ls32_at(s, e4) matches Some((e5, _)) ==> e4 < e5 <= s.len())
                        &&& e3 < e4 <= s.len()
                    })
                    &&& (ls32_at(s, e3) matches Some((e4, _)) ==> e3 < e4 <= s.len())
                    &&& e2 < e3 <= s.len()
                })
                &&& (ls32_at(s, e2) matches Some((e3, _)) ==> e2 < e3 <= s.len())
                &&& e1 < e2 <= s.len()
            })
            &&& (ls32_at(s, e1) matches Some((e2, _)) ==> e1 < e2 <= s.len())
        }),
{
    lemma_h16_colon_at_bounds(s, q + 2);
    lemma_ls32_at_bounds(s, q + 2);
    lemma_h16_at_bounds(s, q + 2);
    if let Some((e1, _)) = h16_colon_at(s, q + 2) {
        lemma_h16_colon_at_bounds(s, e1);
        lemma_ls32_at_bounds(s, e1);
        if let Some((e2, _)) = h16_colon_at(s, e1) {
            lemma_h16_colon_at_bounds(s, e2);
            lemma_ls32_at_bounds(s, e2);
            if let Some((e3, _)) = h16_colon_at(s, e2) {
                lemma_h16_colon_at_bounds(s, e3);
                lemma_ls32_at_bounds(s, e3);
                if let Some((e4, _)) = h16_colon_at(s, e3) {
                    lemma_h16_colon_at_bounds(s, e4);
                    lemma_ls32_at_bounds(s, e4);
                    if let Some((e5, _)) = h16_colon_at(s, e4) {
                        lemma_ls32_at_bounds(s, e5);
                    }
                }
            }
        }
    }
}

proof fn lemma_alt2_bounds(s: Seq<u8>, i: int)
    requires
        0 <= i <= s.len(),
    ensures
        ipv6_alt2_at(s, i) matches Some((e, _)) ==> i < e <= s.len(),
{
    if dcolon_at(s, i) {
        lemma_rest_after_dcolon_bounds(s, i);
    }
}

proof fn lemma_alt3_bounds(s: Seq<u8>, i: int)
    requires
        0 <= i <= s.len(),
    ensures
        ipv6_alt3_at(s, i) matches Some((e, _)) ==> i < e <= s.len(),
{
    lemma_h16_at_bounds(s, i);
    let q = match h16_at(s, i) {
        None => i,
        Some((e, _)) => e,
    };
    if dcolon_at(s, q) {
        lemma_rest_after_dcolon_bounds(s, q);
    }
}

/// Bounds for the alternatives that read leading groups before the `::`.
proof fn lemma_tail_bounds(s: Seq<u8>, i: int, n: nat)
    requires
        0 <= i <= s.len(),
    ensures
        i <= stuff_at(s, i, n).0 <= s.len(),
        dcolon_at(s, stuff_at(s, i, n).0) ==> stuff_at(s, i, n).0 + 2 <= s.len(),
        n == 2 ==> (ipv6_alt4_at(s, i) matches Some((e, _)) ==> i < e <= s.len()),
        n == 3 ==> (ipv6_alt5_at(s, i) matches Some((e, _)) ==> i < e <= s.len()),
        n == 4 ==> (ipv6_alt6_at(s, i) matches Some((e, _)) ==> i < e <= s.len()),
        n == 5 ==> (ipv6_alt7_at(s, i) matches Some((e, _)) ==> i < e <= s.len()),
        n == 6 ==> (ipv6_alt8_at(s, i) matches Some((e, _)) ==> i < e <= s.len()),
        n == 7 ==> (ipv6_alt9_at(s, i) matches Some((e, _)) ==> i < e <= s.len()),
{
    lemma_stuff_at_bounds(s, i, n);
    let q = stuff_at(s, i, n).0;
    if dcolon_at(s, q) {
        lemma_rest_after_dcolon_bounds(s, q);
    }
}

/// `t` repeats `w` bytes of `s`, and both occurrences are followed by
/// the same stopper byte: one that is not a hexadecimal digit, not a
/// colon, and not a dot, so that no piece of the IPv6 grammar can take
/// it.
pub open spec fn ipv6_stopper_window(s: Seq<u8>, sp: int, t: Seq<u8>, tp: int, w: int) -> bool {
    &&& 0 <= w
    &&& 0 <= sp && sp + w < s.len()
    &&& 0 <= tp && tp + w < t.len()
    &&& (forall|j: int| 0 <= j < w ==> #[trigger] t[tp + j] == s[sp + j])
    &&& t[tp + w] == s[sp + w]
    &&& !crate::parse::spec_is_hex_digit(s[sp + w])
    &&& s[sp + w] != 0x3A
    &&& s[sp + w] != 0x2E
}

proof fn lemma_window_byte(s: Seq<u8>, sp: int, t: Seq<u8>, tp: int, w: int, r: int)
    requires
        ipv6_stopper_window(s, sp, t, tp, w),
        0 <= r <= w,
    ensures
        t[tp + r] == s[sp + r],
{
}

proof fn lemma_byte_at_window(s: Seq<u8>, sp: int, t: Seq<u8>, tp: int, w: int, r: int, b: u8)
    requires
        ipv6_stopper_window(s, sp, t, tp, w),
        0 <= r <= w,
    ensures
        byte_at(t, tp + r, b) == byte_at(s, sp + r, b),
{
    lemma_window_byte(s, sp, t, tp, w, r);
}

proof fn lemma_hex_run_val_window(s: Seq<u8>, a: int, t: Seq<u8>, b: int, n: int)
    requires
        0 <= n,
        0 <= a && a + n <= s.len(),
        0 <= b && b + n <= t.len(),
        forall|j: int| 0 <= j < n ==> #[trigger] t[b + j] == s[a + j],
    ensures
        hex_run_val(t, b, b + n) == hex_run_val(s, a, a + n),
    decreases n,
{
    if n > 0 {
        lemma_hex_run_val_window(s, a, t, b, n - 1);
        assert(t[b + (n - 1)] == s[a + (n - 1)]);
    }
}

proof fn lemma_h16_window(s: Seq<u8>, sp: int, t: Seq<u8>, tp: int, w: int, r: int)
    requires
        ipv6_stopper_window(s, sp, t, tp, w),
        0 <= r <= w,
    ensures
        match h16_at(s, sp + r) {
            None => h16_at(t, tp + r) is None,
            Some((e, v)) => r < e - sp <= w && h16_at(t, tp + r) == Some((tp + (e - sp), v)),
        },
{
    let hp = |x: u8| crate::parse::spec_is_hex_digit(x);
    crate::parse::lemma_scan_end(s, sp + r, hp);
    let es = hex_digits_end(s, sp + r);
    assert(es <= sp + w) by {
        if es > sp + w {
            assert(hp(s[sp + w]));
        }
    }
    assert forall|k: int| tp + r <= k < tp + (es - sp) implies hp(t[k]) by {
        lemma_window_byte(s, sp, t, tp, w, k - tp);
        assert(hp(s[sp + (k - tp)]));
    }
    assert(tp + (es - sp) < t.len() ==> !hp(t[tp + (es - sp)])) by {
        lemma_window_byte(s, sp, t, tp, w, es - sp);
    }
    crate::parse::lemma_scan_end_unique(t, tp + r, hp, tp + (es - sp));
    let e_s: int = if es > sp + r + 4 {
        sp + r + 4
    } else {
        es
    };
    if e_s > sp + r {
        let n = e_s - (sp + r);
        assert forall|j: int| 0 <= j < n implies #[trigger] t[tp + r + j] == s[sp + r + j] by {
            lemma_window_byte(s, sp, t, tp, w, r + j);
        }
        lemma_hex_run_val_window(s, sp + r, t, tp + r, n);
    }
}

proof fn lemma_dcolon_window(s: Seq<u8>, sp: int, t: Seq<u8>, tp: int, w: int, r: int)
    requires
        ipv6_stopper_window(s, sp, t, tp, w),
        0 <= r <= w,
    ensures
        dcolon_at(t, tp + r) == dcolon_at(s, sp + r),
{
    lemma_window_byte(s, sp, t, tp, w, r);
    if s[sp + r] == 0x3A {
        assert(r < w);
        lemma_window_byte(s, sp, t, tp, w, r + 1);
    }
}

proof fn lemma_h16_colon_window(s: Seq<u8>, sp: int, t: Seq<u8>, tp: int, w: int, r: int)
    requires
        ipv6_stopper_window(s, sp, t, tp, w),
        0 <= r <= w,
    ensures
        match h16_colon_at(s, sp + r) {
            None => h16_colon_at(t, tp + r) is None,
            Some((e, v)) => r < e - sp <= w && h16_colon_at(t, tp + r) == Some(
                (tp + (e - sp), v),
            ),
        },
{
    lemma_h16_window(s, sp, t, tp, w, r);
    match h16_at(s, sp + r) {
        None => {},
        Some((e1, _v)) => {
            lemma_byte_at_window(s, sp, t, tp, w, e1 - sp, 0x3A);
            if byte_at(s, e1, 0x3A) {
                assert(e1 - sp < w);
            }
        },
    }
}

proof fn lemma_ls32_window(s: Seq<u8>, sp: int, t: Seq<u8>, tp: int, w: int, r: int)
    requires
        ipv6_stopper_window(s, sp, t, tp, w),
        0 <= r <= w,
    ensures
        match ls32_at(s, sp + r) {
            None => ls32_at(t, tp + r) is None,
            Some((e, v)) => r < e - sp <= w && ls32_at(t, tp + r) == Some((tp + (e - sp), v)),
        },
{
    lemma_h16_window(s, sp, t, tp, w, r);
    match h16_at(s, sp + r) {
        None => {},
        Some((e1, _v1)) => {
            lemma_byte_at_window(s, sp, t, tp, w, e1 - sp, 0x3A);
            if byte_at(s, e1, 0x3A) {
                assert(e1 - sp < w);
                lemma_h16_window(s, sp, t, tp, w, e1 + 1 - sp);
            }
        },
    }
    if ipv4_at(s, sp + r) is Some {
        let (e4, q) = ipv4_at(s, sp + r)->Some_0;
        crate::ipv4::lemma_ipv4_span(s, sp + r, e4, q);
        assert(e4 <= sp + w) by {
            if e4 > sp + w {
                assert(crate::parse::spec_is_digit(s[sp + w]) || s[sp + w] == 0x2E);
            }
        }
        assert(t.subrange(tp + r, tp + (e4 - sp)) =~= s.subrange(sp + r, e4)) by {
            assert forall|j: int| 0 <= j < e4 - sp - r implies #[trigger] t.subrange(
                tp + r,
                tp + (e4 - sp),
            )[j] == s.subrange(sp + r, e4)[j] by {
                lemma_window_byte(s, sp, t, tp, w, r + j);
            }
        }
        assert(s[e4 - 1] != 0x2E && tp + (e4 - sp) < t.len()
            ==> !crate::parse::spec_is_digit(t[tp + (e4 - sp)]) && t[tp + (e4 - sp)] != 0x2E) by {
            lemma_window_byte(s, sp, t, tp, w, e4 - sp);
        }
        crate::ipv4::lemma_ipv4_at_window(s, sp + r, t, tp + r, e4, q);
    } else {
        assert(t.subrange(tp + r, tp + w) =~= s.subrange(sp + r, sp + w)) by {
            assert forall|j: int| 0 <= j < w - r implies #[trigger] t.subrange(tp + r, tp + w)[j]
                == s.subrange(sp + r, sp + w)[j] by {
                lemma_window_byte(s, sp, t, tp, w, r + j);
            }
        }
        crate::ipv4::lemma_ipv4_at_none_window(s, sp + r, t, tp + r, w - r);
    }
}

proof fn lemma_stuff_window(s: Seq<u8>, sp: int, t: Seq<u8>, tp: int, w: int, r: int, n: nat)
    requires
        ipv6_stopper_window(s, sp, t, tp, w),
        0 <= r <= w,
    ensures
        ({
            let (ps, gs) = stuff_at(s, sp + r, n);
            &&& r <= ps - sp <= w
            &&& stuff_at(t, tp + r, n) == (tp + (ps - sp), gs)
        }),
    decreases n,
{
    lemma_dcolon_window(s, sp, t, tp, w, r);
    if n == 0 || dcolon_at(s, sp + r) {
    } else {
        lemma_h16_window(s, sp, t, tp, w, r);
        match h16_at(s, sp + r) {
            None => {},
            Some((e, _v)) => {
                lemma_dcolon_window(s, sp, t, tp, w, e - sp);
                if dcolon_at(s, e) {
                } else {
                    lemma_byte_at_window(s, sp, t, tp, w, e - sp, 0x3A);
                    if byte_at(s, e, 0x3A) {
                        assert(e - sp < w);
                        lemma_stuff_window(s, sp, t, tp, w, e + 1 - sp, (n - 1) as nat);
                    } else {
                        lemma_stuff_window(s, sp, t, tp, w, e - sp, (n - 1) as nat);
                    }
                }
            },
        }
    }
}

#[verifier::rlimit(100)]
proof fn lemma_alt1_window(s: Seq<u8>, sp: int, t: Seq<u8>, tp: int, w: int)
    requires
        ipv6_stopper_window(s, sp, t, tp, w),
    ensures
        match ipv6_alt1_at(s, sp) {
            None => ipv6_alt1_at(t, tp) is None,
            Some((e, v)) => ipv6_alt1_at(t, tp) == Some((tp + (e - sp), v)),
        },
{
    lemma_h16_colon_window(s, sp, t, tp, w, 0);
    if let Some((x1, _)) = h16_colon_at(s, sp) {
        lemma_h16_colon_window(s, sp, t, tp, w, x1 - sp);
        if let Some((x2, _)) = h16_colon_at(s, x1) {
            lemma_h16_colon_window(s, sp, t, tp, w, x2 - sp);
            if let Some((x3, _)) = h16_colon_at(s, x2) {
                lemma_h16_colon_window(s, sp, t, tp, w, x3 - sp);
                if let Some((x4, _)) = h16_colon_at(s, x3) {
                    lemma_h16_colon_window(s, sp, t, tp, w, x4 - sp);
                    if let Some((x5, _)) = h16_colon_at(s, x4) {
                        lemma_h16_colon_window(s, sp, t, tp, w, x5 - sp);
                        if let Some((x6, _)) = h16_colon_at(s, x5) {
                            lemma_ls32_window(s, sp, t, tp, w, x6 - sp);
                        }
                    }
                }
            }
        }
    }
}

#[verifier::rlimit(100)]
proof fn lemma_alt2_window(s: Seq<u8>, sp: int, t: Seq<u8>, tp: int, w: int)
    requires
        ipv6_stopper_window(s, sp, t, tp, w),
    ensures
        match ipv6_alt2_at(s, sp) {
            None => ipv6_alt2_at(t, tp) is None,
            Some((e, v)) => ipv6_alt2_at(t, tp) == Some((tp + (e - sp), v)),
        },
{
    lemma_dcolon_window(s, sp, t, tp, w, 0);
    if dcolon_at(s, sp) {
        assert(1 < w);
        lemma_h16_colon_window(s, sp, t, tp, w, 2);
        if let Some((y1, _)) = h16_colon_at(s, sp + 2) {
            lemma_h16_colon_window(s, sp, t, tp, w, y1 - sp);
            if let Some((y2, _)) = h16_colon_at(s, y1) {
                lemma_h16_colon_window(s, sp, t, tp, w, y2 - sp);
                if let Some((y3, _)) = h16_colon_at(s, y2) {
                    lemma_h16_colon_window(s, sp, t, tp, w, y3 - sp);
                    if let Some((y4, _)) = h16_colon_at(s, y3) {
                        lemma_h16_colon_window(s, sp, t, tp, w, y4 - sp);
                        if let Some((y5, _)) = h16_colon_at(s, y4) {
                            lemma_ls32_window(s, sp, t, tp, w, y5 - sp);
                        }
                    }
                }
            }
        }
    }
}

#[verifier::rlimit(100)]
proof fn lemma_alt3_window(s: Seq<u8>, sp: int, t: Seq<u8>, tp: int, w: int)
    requires
        ipv6_stopper_window(s, sp, t, tp, w),
    ensures
        match ipv6_alt3_at(s, sp) {
            None => ipv6_alt3_at(t, tp) is None,
            Some((e, v)) => ipv6_alt3_at(t, tp) == Some((tp + (e - sp), v)),
        },
{
    lemma_h16_window(s, sp, t, tp, w, 0);
    let q = match h16_at(s, sp) {
        None => sp,
        Some((e, _)) => e,
    };
    lemma_dcolon_window(s, sp, t, tp, w, q - sp);
    if dcolon_at(s, q) {
        assert(q - sp + 1 < w);
        lemma_h16_colon_window(s, sp, t, tp, w, q - sp + 2);
        if let Some((z1, _)) = h16_colon_at(s, q + 2) {
            lemma_h16_colon_window(s, sp, t, tp, w, z1 - sp);
            if let Some((z2, _)) = h16_colon_at(s, z1) {
                lemma_h16_colon_window(s, sp, t, tp, w, z2 - sp);
                if let Some((z3, _)) = h16_colon_at(s, z2) {
                    lemma_h16_colon_window(s, sp, t, tp, w, z3 - sp);
                    if let Some((z4, _)) = h16_colon_at(s, z3) {
                        lemma_ls32_window(s, sp, t, tp, w, z4 - sp);
                    }
                }
            }
        }
    }
}

#[verifier::rlimit(100)]
proof fn lemma_alt4_window(s: Seq<u8>, sp: int, t: Seq<u8>, tp: int, w: int)
    requires
        ipv6_stopper_window(s, sp, t, tp, w),
    ensures
        match ipv6_alt4_at(s, sp) {
            None => ipv6_alt4_at(t, tp) is None,
            Some((e, v)) => ipv6_alt4_at(t, tp) == Some((tp + (e - sp), v)),
        },
{
    lemma_stuff_window(s, sp, t, tp, w, 0, 2);
    let q = stuff_at(s, sp, 2).0;
    lemma_dcolon_window(s, sp, t, tp, w, q - sp);
    if dcolon_at(s, q) {
        assert(q - sp + 1 < w);
        lemma_h16_colon_window(s, sp, t, tp, w, q - sp + 2);
        if let Some((z1, _)) = h16_colon_at(s, q + 2) {
            lemma_h16_colon_window(s, sp, t, tp, w, z1 - sp);
            if let Some((z2, _)) = h16_colon_at(s, z1) {
                lemma_h16_colon_window(s, sp, t, tp, w, z2 - sp);
                if let Some((z3, _)) = h16_colon_at(s, z2) {
                    lemma_ls32_window(s, sp, t, tp, w, z3 - sp);
                }
            }
        }
    }
}

#[verifier::rlimit(100)]
proof fn lemma_alt5_window(s: Seq<u8>, sp: int, t: Seq<u8>, tp: int, w: int)
    requires
        ipv6_stopper_window(s, sp, t, tp, w),
    ensures
        match ipv6_alt5_at(s, sp) {
            None => ipv6_alt5_at(t, tp) is None,
            Some((e, v)) => ipv6_alt5_at(t, tp) == Some((tp + (e - sp), v)),
        },
{
    lemma_stuff_window(s, sp, t, tp, w, 0, 3);
    let q = stuff_at(s, sp, 3).0;
    lemma_dcolon_window(s, sp, t, tp, w, q - sp);
    if dcolon_at(s, q) {
        assert(q - sp + 1 < w);
        lemma_h16_colon_window(s, sp, t, tp, w, q - sp + 2);
        if let Some((z1, _)) = h16_colon_at(s, q + 2) {
            lemma_h16_colon_window(s, sp, t, tp, w, z1 - sp);
            if let Some((z2, _)) = h16_colon_at(s, z1) {
                lemma_ls32_window(s, sp, t, tp, w, z2 - sp);
            }
        }
    }
}

#[verifier::rlimit(100)]
proof fn lemma_alt6_window(s: Seq<u8>, sp: int, t: Seq<u8>, tp: int, w: int)
    requires
        ipv6_stopper_window(s, sp, t, tp, w),
    ensures
        match ipv6_alt6_at(s, sp) {
            None => ipv6_alt6_at(t, tp) is None,
            Some((e, v)) => ipv6_alt6_at(t, tp) == Some((tp + (e - sp), v)),
        },
{
    lemma_stuff_window(s, sp, t, tp, w, 0, 4);
    let q = stuff_at(s, sp, 4).0;
    lemma_dcolon_window(s, sp, t, tp, w, q - sp);
    if dcolon_at(s, q) {
        assert(q - sp + 1 < w);
        lemma_h16_colon_window(s, sp, t, tp, w, q - sp + 2);
        if let Some((z1, _)) = h16_colon_at(s, q + 2) {
            lemma_ls32_window(s, sp, t, tp, w, z1 - sp);
        }
    }
}

#[verifier::rlimit(100)]
proof fn lemma_alt7_window(s: Seq<u8>, sp: int, t: Seq<u8>, tp: int, w: int)
    requires
        ipv6_stopper_window(s, sp, t, tp, w),
    ensures
        match ipv6_alt7_at(s, sp) {
            None => ipv6_alt7_at(t, tp) is None,
            Some((e, v)) => ipv6_alt7_at(t, tp) == Some((tp + (e - sp), v)),
        },
{
    lemma_stuff_window(s, sp, t, tp, w, 0, 5);
    let q = stuff_at(s, sp, 5).0;
    lemma_dcolon_window(s, sp, t, tp, w, q - sp);
    if dcolon_at(s, q) {
        assert(q - sp + 1 < w);
        lemma_ls32_window(s, sp, t, tp, w, q - sp + 2);
    }
}

#[verifier::rlimit(100)]
proof fn lemma_alt8_window(s: Seq<u8>, sp: int, t: Seq<u8>, tp: int, w: int)
    requires
        ipv6_stopper_window(s, sp, t, tp, w),
    ensures
        match ipv6_alt8_at(s, sp) {
            None => ipv6_alt8_at(t, tp) is None,
            Some((e, v)) => ipv6_alt8_at(t, tp) == Some((tp + (e - sp), v)),
        },
{
    lemma_stuff_window(s, sp, t, tp, w, 0, 6);
    let q = stuff_at(s, sp, 6).0;
    lemma_dcolon_window(s, sp, t, tp, w, q - sp);
    if dcolon_at(s, q) {
        assert(q - sp + 1 < w);
        lemma_h16_window(s, sp, t, tp, w, q - sp + 2);
    }
}

#[verifier::rlimit(100)]
proof fn lemma_alt9_window(s: Seq<u8>, sp: int, t: Seq<u8>, tp: int, w: int)
    requires
        ipv6_stopper_window(s, sp, t, tp, w),
    ensures
        match ipv6_alt9_at(s, sp) {
            None => ipv6_alt9_at(t, tp) is None,
            Some((e, v)) => ipv6_alt9_at(t, tp) == Some((tp + (e - sp), v)),
        },
{
    lemma_stuff_window(s, sp, t, tp, w, 0, 7);
    let q = stuff_at(s, sp, 7).0;
    lemma_dcolon_window(s, sp, t, tp, w, q - sp);
}

/// A recognised IPv6 literal is recognised wherever the same bytes
/// stand, as long as the same stopper byte follows both occurrences; an
/// unrecognised one stays unrecognised.
pub proof fn lemma_ipv6_at_window(s: Seq<u8>, sp: int, t: Seq<u8>, tp: int, w: int)
    requires
        ipv6_stopper_window(s, sp, t, tp, w),
    ensures
        match ipv6_at(s, sp) {
            None => ipv6_at(t, tp) is None,
            Some((e, v)) => ipv6_at(t, tp) == Some((tp + (e - sp), v)),
        },
{
    lemma_alt1_window(s, sp, t, tp, w);
    lemma_alt2_window(s, sp, t, tp, w);
    lemma_alt3_window(s, sp, t, tp, w);
    lemma_alt4_window(s, sp, t, tp, w);
    lemma_alt5_window(s, sp, t, tp, w);
    lemma_alt6_window(s, sp, t, tp, w);
    lemma_alt7_window(s, sp, t, tp, w);
    lemma_alt8_window(s, sp, t, tp, w);
    lemma_alt9_window(s, sp, t, tp, w);
}

} // verus!

