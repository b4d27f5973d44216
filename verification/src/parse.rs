//! Shared parsing infrastructure: the error taxonomy, byte-class
//! predicates, prefix scanning, and digit-run valuation.
//!
//! Every parser in this crate consumes a prefix of an immutable byte
//! sequence, starting at an explicit position, and either returns the
//! position after the consumed prefix together with a result, or fails
//! without consuming anything.

use vstd::prelude::*;

verus! {

/// Why a parse failed.
#[derive(Clone, Copy, PartialEq, Eq, Structural, Debug)]
pub enum ParseError {
    /// The expected grammar production was not found.
    Grammar,
    /// A required byte range was not valid UTF-8.
    Utf8,
    /// Numeric text was out of range for its target type.
    IntegerConversion,
}

pub open spec fn spec_is_digit(b: u8) -> bool {
    0x30 <= b && b <= 0x39
}

pub open spec fn spec_is_hex_digit(b: u8) -> bool {
    spec_is_digit(b) || (0x41 <= b && b <= 0x46) || (0x61 <= b && b <= 0x66)
}

pub open spec fn spec_is_oct_digit(b: u8) -> bool {
    0x30 <= b && b <= 0x37
}

pub open spec fn spec_is_alpha(b: u8) -> bool {
    (0x41 <= b && b <= 0x5A) || (0x61 <= b && b <= 0x7A)
}

pub open spec fn spec_is_alphanumeric(b: u8) -> bool {
    spec_is_digit(b) || (0x41 <= b && b <= 0x5A) || (0x61 <= b && b <= 0x7A)
}

pub fn is_digit(b: u8) -> (r: bool)
    ensures
        r == spec_is_digit(b),
{
    0x30 <= b && b <= 0x39
}

pub fn is_hex_digit(b: u8) -> (r: bool)
    ensures
        r == spec_is_hex_digit(b),
{
    is_digit(b) || (0x41 <= b && b <= 0x46) || (0x61 <= b && b <= 0x66)
}

pub fn is_oct_digit(b: u8) -> (r: bool)
    ensures
        r == spec_is_oct_digit(b),
{
    0x30 <= b && b <= 0x37
}

pub fn is_alpha(b: u8) -> (r: bool)
    ensures
        r == spec_is_alpha(b),
{
    (0x41 <= b && b <= 0x5A) || (0x61 <= b && b <= 0x7A)
}

pub fn is_alphanumeric(b: u8) -> (r: bool)
    ensures
        r == spec_is_alphanumeric(b),
{
    is_digit(b) || (0x41 <= b && b <= 0x5A) || (0x61 <= b && b <= 0x7A)
}

/// The first position at or after `i` whose byte does not satisfy `p`, or
/// the end of the sequence.
pub open spec fn scan_end(s: Seq<u8>, i: int, p: spec_fn(u8) -> bool) -> int
    decreases s.len() - i,
    when 0 <= i <= s.len()
{
    if i >= s.len() {
        i
    } else if p(s[i]) {
        scan_end(s, i + 1, p)
    } else {
        i
    }
}

/// The characteristic properties of `scan_end`: it points at the first
/// byte that fails `p`, and everything before it satisfies `p`.
pub proof fn lemma_scan_end(s: Seq<u8>, i: int, p: spec_fn(u8) -> bool)
    requires
        0 <= i <= s.len(),
    ensures
        i <= scan_end(s, i, p) <= s.len(),
        forall|k: int| i <= k < scan_end(s, i, p) ==> p(s[k]),
        scan_end(s, i, p) < s.len() ==> !p(s[scan_end(s, i, p)]),
    decreases s.len() - i,
{
    if i < s.len() && p(s[i]) {
        lemma_scan_end(s, i + 1, p);
    }
}

/// A position with the characteristic properties is `scan_end`.
pub proof fn lemma_scan_end_unique(s: Seq<u8>, i: int, p: spec_fn(u8) -> bool, j: int)
    requires
        0 <= i <= j <= s.len(),
        forall|k: int| i <= k < j ==> p(s[k]),
        j < s.len() ==> !p(s[j]),
    ensures
        scan_end(s, i, p) == j,
    decreases s.len() - i,
{
    if i < s.len() && p(s[i]) {
        lemma_scan_end_unique(s, i + 1, p, j);
    }
}

/// Where the run of decimal digits starting at `i` ends.
pub open spec fn dec_digits_end(s: Seq<u8>, i: int) -> int {
    scan_end(s, i, |b: u8| spec_is_digit(b))
}

/// Where the run of hexadecimal digits starting at `i` ends.
pub open spec fn hex_digits_end(s: Seq<u8>, i: int) -> int {
    scan_end(s, i, |b: u8| spec_is_hex_digit(b))
}

/// Where the run of octal digits starting at `i` ends.
pub open spec fn oct_digits_end(s: Seq<u8>, i: int) -> int {
    scan_end(s, i, |b: u8| spec_is_oct_digit(b))
}

pub open spec fn spec_hex_digit_val(b: u8) -> int {
    if 0x30 <= b && b <= 0x39 {
        b - 0x30
    } else if 0x41 <= b && b <= 0x46 {
        b - 0x41 + 10
    } else {
        b - 0x61 + 10
    }
}

/// The decimal value of the digit run `s[i..e)`.
pub open spec fn dec_run_val(s: Seq<u8>, i: int, e: int) -> int
    decreases e - i,
    when i <= e
{
    if e <= i {
        0
    } else {
        dec_run_val(s, i, e - 1) * 10 + (s[e - 1] - 0x30)
    }
}

/// The hexadecimal value of the digit run `s[i..e)`.
pub open spec fn hex_run_val(s: Seq<u8>, i: int, e: int) -> int
    decreases e - i,
    when i <= e
{
    if e <= i {
        0
    } else {
        hex_run_val(s, i, e - 1) * 16 + spec_hex_digit_val(s[e - 1])
    }
}

/// The octal value of the digit run `s[i..e)`.
pub open spec fn oct_run_val(s: Seq<u8>, i: int, e: int) -> int
    decreases e - i,
    when i <= e
{
    if e <= i {
        0
    } else {
        oct_run_val(s, i, e - 1) * 8 + (s[e - 1] - 0x30)
    }
}

/// A decimal run's value is nonnegative and grows as the run extends.
pub proof fn lemma_dec_run_val_mono(s: Seq<u8>, i: int, m: int, e: int)
    requires
        i <= m <= e,
        forall|k: int| i <= k < e ==> spec_is_digit(#[trigger] s[k]),
    ensures
        0 <= dec_run_val(s, i, m) <= dec_run_val(s, i, e),
    decreases e - i, e - m,
{
    if m == e {
        if i < e {
            lemma_dec_run_val_mono(s, i, i, e - 1);
            let prev = dec_run_val(s, i, e - 1);
            assert(prev * 10 >= 0) by (nonlinear_arith)
                requires
                    prev >= 0,
            ;
        }
    } else {
        lemma_dec_run_val_mono(s, i, m, e - 1);
        lemma_dec_run_val_mono(s, i, i, e - 1);
        let prev = dec_run_val(s, i, e - 1);
        assert(prev * 10 >= prev) by (nonlinear_arith)
            requires
                prev >= 0,
        ;
    }
}

/// A hexadecimal run's value is nonnegative and grows as the run extends.
pub proof fn lemma_hex_run_val_mono(s: Seq<u8>, i: int, m: int, e: int)
    requires
        i <= m <= e,
        forall|k: int| i <= k < e ==> spec_is_hex_digit(#[trigger] s[k]),
    ensures
        0 <= hex_run_val(s, i, m) <= hex_run_val(s, i, e),
    decreases e - i, e - m,
{
    if m == e {
        if i < e {
            lemma_hex_run_val_mono(s, i, i, e - 1);
            let prev = hex_run_val(s, i, e - 1);
            assert(prev * 16 >= 0) by (nonlinear_arith)
                requires
                    prev >= 0,
            ;
        }
    } else {
        lemma_hex_run_val_mono(s, i, m, e - 1);
        lemma_hex_run_val_mono(s, i, i, e - 1);
        let prev = hex_run_val(s, i, e - 1);
        assert(prev * 16 >= prev) by (nonlinear_arith)
            requires
                prev >= 0,
        ;
    }
}

/// An octal run's value is nonnegative and grows as the run extends.
pub proof fn lemma_oct_run_val_mono(s: Seq<u8>, i: int, m: int, e: int)
    requires
        i <= m <= e,
        forall|k: int| i <= k < e ==> spec_is_oct_digit(#[trigger] s[k]),
    ensures
        0 <= oct_run_val(s, i, m) <= oct_run_val(s, i, e),
    decreases e - i, e - m,
{
    if m == e {
        if i < e {
            lemma_oct_run_val_mono(s, i, i, e - 1);
            let prev = oct_run_val(s, i, e - 1);
            assert(prev * 8 >= 0) by (nonlinear_arith)
                requires
                    prev >= 0,
            ;
        }
    } else {
        lemma_oct_run_val_mono(s, i, m, e - 1);
        lemma_oct_run_val_mono(s, i, i, e - 1);
        let prev = oct_run_val(s, i, e - 1);
        assert(prev * 8 >= prev) by (nonlinear_arith)
            requires
                prev >= 0,
        ;
    }
}

/// Scan a run of decimal digits starting at `pos`.
pub fn scan_digits(s: &[u8], pos: usize) -> (r: usize)
    requires
        pos <= s@.len(),
    ensures
        pos <= r <= s@.len(),
        forall|k: int| pos <= k < r ==> spec_is_digit(#[trigger] s@[k]),
        r < s@.len() ==> !spec_is_digit(s@[r as int]),
        r == dec_digits_end(s@, pos as int),
{
    let mut j: usize = pos;
    while j < s.len() && is_digit(*vstd::slice::slice_index_get(s, j))
        invariant
            pos <= j <= s@.len(),
            forall|k: int| pos <= k < j ==> spec_is_digit(#[trigger] s@[k]),
        decreases s@.len() - j,
    {
        j = j + 1;
    }
    proof {
        let p = |b: u8| spec_is_digit(b);
        assert forall|k: int| pos <= k < j implies p(s@[k]) by {
            assert(spec_is_digit(s@[k]));
        }
        assert(j < s@.len() ==> !p(s@[j as int]));
        lemma_scan_end_unique(s@, pos as int, p, j as int);
    }
    j
}

/// Scan a run of hexadecimal digits starting at `pos`.
pub fn scan_hex_digits(s: &[u8], pos: usize) -> (r: usize)
    requires
        pos <= s@.len(),
    ensures
        pos <= r <= s@.len(),
        forall|k: int| pos <= k < r ==> spec_is_hex_digit(#[trigger] s@[k]),
        r < s@.len() ==> !spec_is_hex_digit(s@[r as int]),
        r == hex_digits_end(s@, pos as int),
{
    let mut j: usize = pos;
    while j < s.len() && is_hex_digit(*vstd::slice::slice_index_get(s, j))
        invariant
            pos <= j <= s@.len(),
            forall|k: int| pos <= k < j ==> spec_is_hex_digit(#[trigger] s@[k]),
        decreases s@.len() - j,
    {
        j = j + 1;
    }
    proof {
        let p = |b: u8| spec_is_hex_digit(b);
        assert forall|k: int| pos <= k < j implies p(s@[k]) by {
            assert(spec_is_hex_digit(s@[k]));
        }
        assert(j < s@.len() ==> !p(s@[j as int]));
        lemma_scan_end_unique(s@, pos as int, p, j as int);
    }
    j
}

/// Scan a run of octal digits starting at `pos`.
pub fn scan_oct_digits(s: &[u8], pos: usize) -> (r: usize)
    requires
        pos <= s@.len(),
    ensures
        pos <= r <= s@.len(),
        forall|k: int| pos <= k < r ==> spec_is_oct_digit(#[trigger] s@[k]),
        r < s@.len() ==> !spec_is_oct_digit(s@[r as int]),
        r == oct_digits_end(s@, pos as int),
{
    let mut j: usize = pos;
    while j < s.len() && is_oct_digit(*vstd::slice::slice_index_get(s, j))
        invariant
            pos <= j <= s@.len(),
            forall|k: int| pos <= k < j ==> spec_is_oct_digit(#[trigger] s@[k]),
        decreases s@.len() - j,
    {
        j = j + 1;
    }
    proof {
        let p = |b: u8| spec_is_oct_digit(b);
        assert forall|k: int| pos <= k < j implies p(s@[k]) by {
            assert(spec_is_oct_digit(s@[k]));
        }
        assert(j < s@.len() ==> !p(s@[j as int]));
        lemma_scan_end_unique(s@, pos as int, p, j as int);
    }
    j
}

/// Read the decimal run `s[i..e)` as a `u32`; `None` when the value
/// exceeds `u32::MAX`.
pub fn dec_run_u32(s: &[u8], i: usize, e: usize) -> (r: Option<u32>)
    requires
        i <= e <= s@.len(),
        forall|k: int| i <= k < e ==> spec_is_digit(#[trigger] s@[k]),
    ensures
        match r {
            Some(v) => v == dec_run_val(s@, i as int, e as int),
            None => dec_run_val(s@, i as int, e as int) > u32::MAX,
        },
{
    let mut val: u64 = 0;
    let mut j: usize = i;
    while j < e
        invariant
            i <= j <= e <= s@.len(),
            forall|k: int| i <= k < e ==> spec_is_digit(#[trigger] s@[k]),
            val <= u32::MAX,
            val == dec_run_val(s@, i as int, j as int),
        decreases e - j,
    {
        let b = *vstd::slice::slice_index_get(s, j);
        let d = (b - 0x30) as u64;
        let next: u64 = val * 10 + d;
        j = j + 1;
        if next > u32::MAX as u64 {
            proof {
                lemma_dec_run_val_mono(s@, i as int, j as int, e as int);
            }
            return None;
        }
        val = next;
    }
    Some(val as u32)
}

/// Read the hexadecimal run `s[i..e)` as a `u32`; `None` on overflow.
pub fn hex_run_u32(s: &[u8], i: usize, e: usize) -> (r: Option<u32>)
    requires
        i <= e <= s@.len(),
        forall|k: int| i <= k < e ==> spec_is_hex_digit(#[trigger] s@[k]),
    ensures
        match r {
            Some(v) => v == hex_run_val(s@, i as int, e as int),
            None => hex_run_val(s@, i as int, e as int) > u32::MAX,
        },
{
    let mut val: u64 = 0;
    let mut j: usize = i;
    while j < e
        invariant
            i <= j <= e <= s@.len(),
            forall|k: int| i <= k < e ==> spec_is_hex_digit(#[trigger] s@[k]),
            val <= u32::MAX,
            val == hex_run_val(s@, i as int, j as int),
        decreases e - j,
    {
        let b = *vstd::slice::slice_index_get(s, j);
        let d: u64 = if 0x30 <= b && b <= 0x39 {
            (b - 0x30) as u64
        } else if 0x41 <= b && b <= 0x46 {
            (b - 0x41 + 10) as u64
        } else {
            (b - 0x61 + 10) as u64
        };
        let next: u64 = val * 16 + d;
        j = j + 1;
        if next > u32::MAX as u64 {
            proof {
                lemma_hex_run_val_mono(s@, i as int, j as int, e as int);
            }
            return None;
        }
        val = next;
    }
    Some(val as u32)
}

/// Read the octal run `s[i..e)` as a `u32`; `None` on overflow.
pub fn oct_run_u32(s: &[u8], i: usize, e: usize) -> (r: Option<u32>)
    requires
        i <= e <= s@.len(),
        forall|k: int| i <= k < e ==> spec_is_oct_digit(#[trigger] s@[k]),
    ensures
        match r {
            Some(v) => v == oct_run_val(s@, i as int, e as int),
            None => oct_run_val(s@, i as int, e as int) > u32::MAX,
        },
{
    let mut val: u64 = 0;
    let mut j: usize = i;
    while j < e
        invariant
            i <= j <= e <= s@.len(),
            forall|k: int| i <= k < e ==> spec_is_oct_digit(#[trigger] s@[k]),
            val <= u32::MAX,
            val == oct_run_val(s@, i as int, j as int),
        decreases e - j,
    {
        let b = *vstd::slice::slice_index_get(s, j);
        let d = (b - 0x30) as u64;
        let next: u64 = val * 8 + d;
        j = j + 1;
        if next > u32::MAX as u64 {
            proof {
                lemma_oct_run_val_mono(s@, i as int, j as int, e as int);
            }
            return None;
        }
        val = next;
    }
    Some(val as u32)
}

/// The byte at `pos` is `b` (and `pos` is in bounds).
pub open spec fn byte_at(s: Seq<u8>, pos: int, b: u8) -> bool {
    0 <= pos < s.len() && s[pos] == b
}

/// Whether the byte at `pos` equals `b`.
pub fn has_byte(s: &[u8], pos: usize, b: u8) -> (r: bool)
    requires
        pos <= s@.len(),
    ensures
        r == byte_at(s@, pos as int, b),
        s@.len() <= usize::MAX,
{
    pos < s.len() && *vstd::slice::slice_index_get(s, pos) == b
}

/// The decimal digit text of a nonnegative number.
pub open spec fn dec_digits_of(v: int) -> Seq<u8>
    decreases v,
    when v >= 0
{
    if v < 10 {
        seq![(0x30 + v) as u8]
    } else {
        dec_digits_of(v / 10) + seq![(0x30 + (v % 10)) as u8]
    }
}

/// The digit text of a number is nonempty and made of digits.
pub proof fn lemma_dec_digits_of_digits(v: int)
    requires
        v >= 0,
    ensures
        dec_digits_of(v).len() >= 1,
        forall|k: int| 0 <= k < dec_digits_of(v).len() ==> spec_is_digit(#[trigger] dec_digits_of(v)[k]),
    decreases v,
{
    if v >= 10 {
        lemma_dec_digits_of_digits(v / 10);
        assert forall|k: int| 0 <= k < dec_digits_of(v).len() implies spec_is_digit(
            #[trigger] dec_digits_of(v)[k],
        ) by {
            if k < dec_digits_of(v / 10).len() {
                assert(dec_digits_of(v)[k] == dec_digits_of(v / 10)[k]);
            }
        }
    }
}

/// Wherever the digit text of a number stands, it reads back as that
/// number.
pub proof fn lemma_dec_digits_of_val(v: int, t: Seq<u8>, p: int)
    requires
        v >= 0,
        0 <= p,
        p + dec_digits_of(v).len() <= t.len(),
        t.subrange(p, p + dec_digits_of(v).len()) == dec_digits_of(v),
    ensures
        dec_run_val(t, p, p + dec_digits_of(v).len()) == v,
    decreases v,
{
    let d = dec_digits_of(v);
    let n = d.len() as int;
    lemma_dec_digits_of_digits(v);
    assert(t.subrange(p, p + n) == d);
    assert(t[p + n - 1] == t.subrange(p, p + n)[n - 1]);
    if v < 10 {
        assert(t[p] == t.subrange(p, p + n)[0]);
        assert(t[p] == (0x30 + v) as u8);
        assert(0 <= v < 10);
        assert((0x30 + v) as u8 == 0x30 + v);
        assert(dec_run_val(t, p, p) == 0);
        assert(dec_run_val(t, p, p + 1) == dec_run_val(t, p, p) * 10 + (t[p] - 0x30));
        assert(dec_run_val(t, p, p + n) == v);
    } else {
        let dh = dec_digits_of(v / 10);
        assert(d == dh + seq![(0x30 + (v % 10)) as u8]);
        assert(n == dh.len() + 1);
        assert(t.subrange(p, p + dh.len()) =~= dh) by {
            assert forall|k: int| 0 <= k < dh.len() implies #[trigger] t.subrange(
                p,
                p + dh.len(),
            )[k] == dh[k] by {
                assert(t.subrange(p, p + n)[k] == d[k]);
                assert(d[k] == dh[k]);
            }
        }
        lemma_dec_digits_of_val(v / 10, t, p);
        assert(d[n - 1] == (0x30 + (v % 10)) as u8);
        assert(0 <= v % 10 < 10);
        assert((0x30 + (v % 10)) as u8 == 0x30 + (v % 10));
        assert(dec_run_val(t, p, p + n) == dec_run_val(t, p, p + n - 1) * 10 + (t[p + n - 1]
            - 0x30));
        assert(dec_run_val(t, p, p + n - 1) == v / 10);
        assert(t[p + n - 1] - 0x30 == v % 10);
        vstd::arithmetic::div_mod::lemma_fundamental_div_mod(v, 10);
        assert(dec_run_val(t, p, p + n) == v);
    }
    assert(p + n == p + dec_digits_of(v).len());
}

} // verus!
