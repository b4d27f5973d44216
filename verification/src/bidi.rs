//! The Bidi label rules (RFC 5893 section 2), applied per label when the
//! whole domain is a Bidi domain.
//!
//! A label's direction comes from its first codepoint's Bidi class: R or
//! AL makes it an RTL label, L an LTR label, and anything else is
//! invalid. An RTL label admits only the classes R, AL, AN, EN, ES, CS,
//! ET, ON, BN, NSM, never both EN and AN together, and must end, before
//! trailing nonspacing marks, in R, AL, EN, or AN. An LTR label admits
//! only L, EN, ES, ET, ON, BN, NSM and must end, before trailing
//! nonspacing marks, in L or EN.

use vstd::prelude::*;

use crate::unicode_data::BidiCat;
use crate::unicode_data::bidi_class;
use crate::unicode_data::bidi_class_of;

verus! {

/// Whether a codepoint makes a domain a Bidi domain: class R, AL, or AN.
pub open spec fn is_rtl_class(c: char) -> bool {
    bidi_class_of(c) == BidiCat::RightToLeft || bidi_class_of(c) == BidiCat::ArabicLetter
        || bidi_class_of(c) == BidiCat::ArabicNumber
}

/// A Bidi domain contains at least one codepoint of class R, AL, or AN.
pub open spec fn spec_domain_bidi(s: Seq<char>) -> bool {
    exists|i: int| 0 <= i < s.len() && is_rtl_class(#[trigger] s[i])
}

/// The classes an RTL label admits.
pub open spec fn rtl_char_ok(c: char) -> bool {
    bidi_class_of(c) == BidiCat::RightToLeft || bidi_class_of(c) == BidiCat::ArabicLetter
        || bidi_class_of(c) == BidiCat::ArabicNumber || bidi_class_of(c) == BidiCat::EuropeanNumber
        || bidi_class_of(c) == BidiCat::EuropeanSeparator || bidi_class_of(c)
        == BidiCat::CommonSeparator || bidi_class_of(c) == BidiCat::EuropeanTerminator
        || bidi_class_of(c) == BidiCat::OtherNeutral || bidi_class_of(c)
        == BidiCat::BoundaryNeutral || bidi_class_of(c) == BidiCat::NonspacingMark
}

/// The classes an LTR label admits.
pub open spec fn ltr_char_ok(c: char) -> bool {
    bidi_class_of(c) == BidiCat::LeftToRight || bidi_class_of(c) == BidiCat::EuropeanNumber
        || bidi_class_of(c) == BidiCat::EuropeanSeparator || bidi_class_of(c)
        == BidiCat::EuropeanTerminator || bidi_class_of(c) == BidiCat::OtherNeutral
        || bidi_class_of(c) == BidiCat::BoundaryNeutral || bidi_class_of(c)
        == BidiCat::NonspacingMark
}

/// Some codepoint of the label has the given Bidi class.
pub open spec fn has_bidi_class(l: Seq<char>, cat: BidiCat) -> bool {
    exists|i: int| 0 <= i < l.len() && bidi_class_of(#[trigger] l[i]) == cat
}

/// A class that may end an RTL label.
pub open spec fn rtl_final_class(c: char) -> bool {
    bidi_class_of(c) == BidiCat::RightToLeft || bidi_class_of(c) == BidiCat::ArabicLetter
        || bidi_class_of(c) == BidiCat::EuropeanNumber || bidi_class_of(c) == BidiCat::ArabicNumber
}

/// A class that may end an LTR label.
pub open spec fn ltr_final_class(c: char) -> bool {
    bidi_class_of(c) == BidiCat::LeftToRight || bidi_class_of(c) == BidiCat::EuropeanNumber
}

/// The label ends at `k`, before trailing nonspacing marks, in a class
/// that may end an RTL label.
pub open spec fn rtl_ends_properly(l: Seq<char>, k: int) -> bool {
    0 <= k < l.len() && rtl_final_class(l[k]) && (forall|j: int|
        k < j < l.len() ==> bidi_class_of(#[trigger] l[j]) == BidiCat::NonspacingMark)
}

/// The label ends at `k`, before trailing nonspacing marks, in a class
/// that may end an LTR label.
pub open spec fn ltr_ends_properly(l: Seq<char>, k: int) -> bool {
    0 <= k < l.len() && ltr_final_class(l[k]) && (forall|j: int|
        k < j < l.len() ==> bidi_class_of(#[trigger] l[j]) == BidiCat::NonspacingMark)
}

/// All codepoints of the label are nonspacing marks.
pub open spec fn all_nsm(l: Seq<char>) -> bool {
    forall|j: int| 0 <= j < l.len() ==> bidi_class_of(#[trigger] l[j]) == BidiCat::NonspacingMark
}

/// The RTL label conditions of RFC 5893 section 2.
pub open spec fn spec_valid_bidi_rtl(l: Seq<char>) -> bool {
    &&& (forall|i: int| 0 <= i < l.len() ==> rtl_char_ok(#[trigger] l[i]))
    &&& !(has_bidi_class(l, BidiCat::EuropeanNumber) && has_bidi_class(l, BidiCat::ArabicNumber))
    &&& (all_nsm(l) || exists|k: int| #[trigger] rtl_ends_properly(l, k))
}

/// The LTR label conditions of RFC 5893 section 2.
pub open spec fn spec_valid_bidi_ltr(l: Seq<char>) -> bool {
    &&& (forall|i: int| 0 <= i < l.len() ==> ltr_char_ok(#[trigger] l[i]))
    &&& (all_nsm(l) || exists|k: int| #[trigger] ltr_ends_properly(l, k))
}

/// The Bidi conditions on one label: direction from the first codepoint,
/// then the RTL or LTR conditions.
pub open spec fn spec_valid_bidi(l: Seq<char>) -> bool
    recommends
        l.len() > 0,
{
    if bidi_class_of(l[0]) == BidiCat::RightToLeft || bidi_class_of(l[0])
        == BidiCat::ArabicLetter {
        spec_valid_bidi_rtl(l)
    } else if bidi_class_of(l[0]) == BidiCat::LeftToRight {
        spec_valid_bidi_ltr(l)
    } else {
        false
    }
}

/// Whether the domain contains any codepoint of Bidi class R, AL, or AN.
pub fn is_domain_bidi(s: &Vec<char>) -> (r: bool)
    ensures
        r == spec_domain_bidi(s@),
{
    let mut i: usize = 0;
    while i < s.len()
        invariant
            0 <= i <= s@.len(),
            forall|k: int| 0 <= k < i ==> !is_rtl_class(#[trigger] s@[k]),
        decreases s@.len() - i,
    {
        let b = bidi_class(s[i]);
        if b == BidiCat::RightToLeft || b == BidiCat::ArabicLetter || b == BidiCat::ArabicNumber {
            return true;
        }
        i = i + 1;
    }
    false
}

fn rtl_char_ok_exec(c: char) -> (r: bool)
    ensures
        r == rtl_char_ok(c),
{
    let b = bidi_class(c);
    b == BidiCat::RightToLeft || b == BidiCat::ArabicLetter || b == BidiCat::ArabicNumber || b
        == BidiCat::EuropeanNumber || b == BidiCat::EuropeanSeparator || b
        == BidiCat::CommonSeparator || b == BidiCat::EuropeanTerminator || b
        == BidiCat::OtherNeutral || b == BidiCat::BoundaryNeutral || b == BidiCat::NonspacingMark
}

fn ltr_char_ok_exec(c: char) -> (r: bool)
    ensures
        r == ltr_char_ok(c),
{
    let b = bidi_class(c);
    b == BidiCat::LeftToRight || b == BidiCat::EuropeanNumber || b == BidiCat::EuropeanSeparator
        || b == BidiCat::EuropeanTerminator || b == BidiCat::OtherNeutral || b
        == BidiCat::BoundaryNeutral || b == BidiCat::NonspacingMark
}

/// Scan a label backwards past trailing nonspacing marks; the position of
/// the last codepoint of another class, if any.
fn last_non_nsm(l: &Vec<char>) -> (r: Option<usize>)
    ensures
        match r {
            Some(k) => k < l@.len() && bidi_class_of(l@[k as int]) != BidiCat::NonspacingMark && (
            forall|j: int|
                k < j < l@.len() ==> bidi_class_of(#[trigger] l@[j]) == BidiCat::NonspacingMark),
            None => all_nsm(l@),
        },
{
    let mut i: usize = l.len();
    while i > 0
        invariant
            0 <= i <= l@.len(),
            forall|j: int|
                i <= j < l@.len() ==> bidi_class_of(#[trigger] l@[j]) == BidiCat::NonspacingMark,
        decreases i,
    {
        let b = bidi_class(l[i - 1]);
        if !(b == BidiCat::NonspacingMark) {
            return Some(i - 1);
        }
        i = i - 1;
    }
    None
}

/// Whether the label meets the RTL label conditions.
pub fn valid_bidi_rtl(label: &Vec<char>) -> (r: bool)
    ensures
        r == spec_valid_bidi_rtl(label@),
{
    let mut arabic_number = false;
    let mut european_number = false;
    let mut i: usize = 0;
    while i < label.len()
        invariant
            0 <= i <= label@.len(),
            forall|k: int| 0 <= k < i ==> rtl_char_ok(#[trigger] label@[k]),
            arabic_number == (exists|k: int|
                0 <= k < i && bidi_class_of(#[trigger] label@[k]) == BidiCat::ArabicNumber),
            european_number == (exists|k: int|
                0 <= k < i && bidi_class_of(#[trigger] label@[k]) == BidiCat::EuropeanNumber),
        decreases label@.len() - i,
    {
        if !rtl_char_ok_exec(label[i]) {
            return false;
        }
        let b = bidi_class(label[i]);
        if b == BidiCat::ArabicNumber {
            arabic_number = true;
        }
        if b == BidiCat::EuropeanNumber {
            european_number = true;
        }
        i = i + 1;
    }
    if arabic_number && european_number {
        return false;
    }
    proof {
        if has_bidi_class(label@, BidiCat::EuropeanNumber) && has_bidi_class(
            label@,
            BidiCat::ArabicNumber,
        ) {
            assert(european_number && arabic_number);
        }
    }
    match last_non_nsm(label) {
        None => true,
        Some(k) => {
            let b = bidi_class(label[k]);
            let good = b == BidiCat::RightToLeft || b == BidiCat::ArabicLetter || b
                == BidiCat::EuropeanNumber || b == BidiCat::ArabicNumber;
            proof {
                if good {
                    assert(rtl_ends_properly(label@, k as int));
                } else {
                    assert(!all_nsm(label@));
                    assert forall|kk: int| !#[trigger] rtl_ends_properly(label@, kk) by {
                        if 0 <= kk < label@.len() {
                            if kk < k {
                                assert(bidi_class_of(label@[k as int]) != BidiCat::NonspacingMark);
                            } else if kk > k {
                                assert(bidi_class_of(label@[kk]) == BidiCat::NonspacingMark);
                            }
                        }
                    }
                }
            }
            good
        },
    }
}

/// Whether the label meets the LTR label conditions.
pub fn valid_bidi_ltr(label: &Vec<char>) -> (r: bool)
    ensures
        r == spec_valid_bidi_ltr(label@),
{
    let mut i: usize = 0;
    while i < label.len()
        invariant
            0 <= i <= label@.len(),
            forall|k: int| 0 <= k < i ==> ltr_char_ok(#[trigger] label@[k]),
        decreases label@.len() - i,
    {
        if !ltr_char_ok_exec(label[i]) {
            return false;
        }
        i = i + 1;
    }
    match last_non_nsm(label) {
        None => true,
        Some(k) => {
            let b = bidi_class(label[k]);
            let good = b == BidiCat::LeftToRight || b == BidiCat::EuropeanNumber;
            proof {
                if good {
                    assert(ltr_ends_properly(label@, k as int));
                } else {
                    assert(!all_nsm(label@));
                    assert forall|kk: int| !#[trigger] ltr_ends_properly(label@, kk) by {
                        if 0 <= kk < label@.len() {
                            if kk < k {
                                assert(bidi_class_of(label@[k as int]) != BidiCat::NonspacingMark);
                            } else if kk > k {
                                assert(bidi_class_of(label@[kk]) == BidiCat::NonspacingMark);
                            }
                        }
                    }
                }
            }
            good
        },
    }
}

/// Whether a nonempty label meets the Bidi label conditions.
pub fn valid_bidi(label: &Vec<char>) -> (r: bool)
    requires
        label@.len() > 0,
    ensures
        r == spec_valid_bidi(label@),
{
    let b = bidi_class(label[0]);
    if b == BidiCat::RightToLeft || b == BidiCat::ArabicLetter {
        valid_bidi_rtl(label)
    } else if b == BidiCat::LeftToRight {
        valid_bidi_ltr(label)
    } else {
        false
    }
}

} // verus!
