//! The IDNA mapping and normalization stages.
//!
//! Mapping applies each codepoint's IDNA Mapping Table status: valid and
//! ignored codepoints are kept or dropped, mapped codepoints are replaced
//! by their replacement text, deviation codepoints are replaced only
//! under transitional processing, and a disallowed codepoint aborts the
//! whole call. A domain already consisting only of ASCII lowercase
//! letters, digits, `.`, and `-` skips the table entirely.
//!
//! Normalization applies Unicode NFC; ASCII-only text is left unchanged,
//! which NFC is documented to do.

use vstd::prelude::*;

use crate::chars::all_ascii;
use crate::chars::all_lower_ascii;
use crate::chars::push_chars;
use crate::chars::seq_all_lower_ascii;
use crate::chars::seq_ascii;
use crate::chars::sub_chars;
use crate::unicode_data::CharMapping;
use crate::unicode_data::MappingView;
use crate::unicode_data::lookup_mapping;
use crate::unicode_data::mapping_of;
use crate::unicode_data::nfc_chars;
use crate::unicode_data::nfc_of;

verus! {

/// What mapping one codepoint contributes, or the offending codepoint
/// when its status disallows it.
pub open spec fn spec_map_char(c: char, transitional: bool, std3: bool) -> Result<Seq<char>, char> {
    match mapping_of(c) {
        MappingView::Valid => Ok(seq![c]),
        MappingView::Ignored => Ok(Seq::empty()),
        MappingView::Mapped(t) => Ok(t),
        MappingView::Deviation(t) => if transitional {
            Ok(t)
        } else {
            Ok(seq![c])
        },
        MappingView::Disallowed => Err(c),
        MappingView::DisallowedStd3Valid => if std3 {
            Err(c)
        } else {
            Ok(seq![c])
        },
        MappingView::DisallowedStd3Mapped(t) => if std3 {
            Err(c)
        } else {
            Ok(t)
        },
    }
}

/// Mapping applied across a character sequence; the first disallowed
/// codepoint aborts.
pub open spec fn spec_map_chars(s: Seq<char>, transitional: bool, std3: bool) -> Result<
    Seq<char>,
    char,
>
    decreases s.len(),
{
    if s.len() == 0 {
        Ok(Seq::empty())
    } else {
        match spec_map_char(s[0], transitional, std3) {
            Err(c) => Err(c),
            Ok(h) => match spec_map_chars(s.skip(1), transitional, std3) {
                Err(c) => Err(c),
                Ok(t) => Ok(h + t),
            },
        }
    }
}

/// The mapping stage: the fast path returns text of ASCII lowercase
/// letters, digits, `.`, `-` unchanged; everything else goes through the
/// table.
pub open spec fn spec_map_stage(s: Seq<char>, transitional: bool, std3: bool) -> Result<
    Seq<char>,
    char,
> {
    if seq_all_lower_ascii(s) {
        Ok(s)
    } else {
        spec_map_chars(s, transitional, std3)
    }
}

/// Mapping distributes over concatenation.
proof fn lemma_map_chars_concat(a: Seq<char>, b: Seq<char>, transitional: bool, std3: bool)
    ensures
        spec_map_chars(a + b, transitional, std3) == match spec_map_chars(a, transitional, std3) {
            Err(c) => Err::<Seq<char>, char>(c),
            Ok(h) => match spec_map_chars(b, transitional, std3) {
                Err(c) => Err(c),
                Ok(t) => Ok(h + t),
            },
        },
    decreases a.len(),
{
    if a.len() == 0 {
        assert(a + b =~= b);
        match spec_map_chars(b, transitional, std3) {
            Err(_) => {},
            Ok(t) => {
                assert(Seq::<char>::empty() + t =~= t);
            },
        }
    } else {
        assert((a + b).skip(1) =~= a.skip(1) + b);
        assert((a + b)[0] == a[0]);
        assert((a + b).len() > 0);
        lemma_map_chars_concat(a.skip(1), b, transitional, std3);
        match spec_map_char(a[0], transitional, std3) {
            Err(_) => {},
            Ok(h) => {
                match spec_map_chars(a.skip(1), transitional, std3) {
                    Err(_) => {},
                    Ok(t1) => {
                        match spec_map_chars(b, transitional, std3) {
                            Err(_) => {},
                            Ok(t2) => {
                                assert(h + (t1 + t2) =~= (h + t1) + t2);
                            },
                        }
                    },
                }
            },
        }
    }
}

/// Mapping one more character extends the mapping of the prefix.
proof fn lemma_map_chars_snoc(s: Seq<char>, i: int, transitional: bool, std3: bool)
    requires
        0 <= i < s.len(),
    ensures
        spec_map_chars(s.subrange(0, i + 1), transitional, std3) == match spec_map_chars(
            s.subrange(0, i),
            transitional,
            std3,
        ) {
            Err(c) => Err::<Seq<char>, char>(c),
            Ok(h) => match spec_map_char(s[i], transitional, std3) {
                Err(c) => Err(c),
                Ok(t) => Ok(h + t),
            },
        },
{
    let pre1 = s.subrange(0, i + 1);
    let pre0 = s.subrange(0, i);
    let one = seq![s[i]];
    assert(pre1 =~= pre0 + one);
    lemma_map_chars_concat(pre0, one, transitional, std3);
    reveal_with_fuel(spec_map_chars, 2);
    assert(one.skip(1) =~= Seq::<char>::empty());
    match spec_map_char(s[i], transitional, std3) {
        Err(_) => {},
        Ok(t) => {
            assert(t + Seq::<char>::empty() =~= t);
        },
    }
}

/// Apply the IDNA mapping stage to a domain, yielding the mapped text or
/// the first disallowed codepoint.
pub fn idna_mapping(domain_name: &Vec<char>, transitional_processing: bool, use_std3_ascii_rules:
    bool) -> (r: Result<Vec<char>, char>)
    ensures
        match r {
            Ok(v) => spec_map_stage(domain_name@, transitional_processing, use_std3_ascii_rules)
                == Ok::<Seq<char>, char>(v@),
            Err(c) => spec_map_stage(domain_name@, transitional_processing, use_std3_ascii_rules)
                == Err::<Seq<char>, char>(c),
        },
{
    if all_lower_ascii(domain_name) {
        let copy = sub_chars(domain_name, 0, domain_name.len());
        proof {
            assert(copy@ =~= domain_name@);
        }
        return Ok(copy);
    }
    let mut out: Vec<char> = Vec::new();
    let mut i: usize = 0;
    while i < domain_name.len()
        invariant
            0 <= i <= domain_name@.len(),
            !seq_all_lower_ascii(domain_name@),
            spec_map_chars(domain_name@.subrange(0, i as int), transitional_processing,
                use_std3_ascii_rules) == Ok::<Seq<char>, char>(out@),
        decreases domain_name@.len() - i,
    {
        let c = domain_name[i];
        let ghost pre = out@;
        let status = lookup_mapping(c);
        proof {
            lemma_map_chars_snoc(domain_name@, i as int, transitional_processing,
                use_std3_ascii_rules);
        }
        match status {
            CharMapping::Valid => {
                out.push(c);
                proof {
                    assert(out@ =~= pre + seq![c]);
                }
            },
            CharMapping::Ignored => {
                proof {
                    assert(out@ =~= pre + Seq::<char>::empty());
                }
            },
            CharMapping::Mapped(t) => {
                push_chars(&mut out, &t);
            },
            CharMapping::Deviation(t) => {
                if transitional_processing {
                    push_chars(&mut out, &t);
                } else {
                    out.push(c);
                    proof {
                        assert(out@ =~= pre + seq![c]);
                    }
                }
            },
            CharMapping::Disallowed => {
                proof {
                    lemma_map_chars_err(domain_name@, i as int, transitional_processing,
                        use_std3_ascii_rules, c);
                }
                return Err(c);
            },
            CharMapping::DisallowedStd3Valid => {
                if use_std3_ascii_rules {
                    proof {
                        lemma_map_chars_err(domain_name@, i as int, transitional_processing,
                            use_std3_ascii_rules, c);
                    }
                    return Err(c);
                }
                out.push(c);
                proof {
                    assert(out@ =~= pre + seq![c]);
                }
            },
            CharMapping::DisallowedStd3Mapped(t) => {
                if use_std3_ascii_rules {
                    proof {
                        lemma_map_chars_err(domain_name@, i as int, transitional_processing,
                            use_std3_ascii_rules, c);
                    }
                    return Err(c);
                }
                push_chars(&mut out, &t);
            },
        }
        i = i + 1;
    }
    proof {
        assert(domain_name@.subrange(0, domain_name@.len() as int) =~= domain_name@);
    }
    Ok(out)
}

/// A prefix whose next character is disallowed dooms the whole mapping.
proof fn lemma_map_chars_err(s: Seq<char>, i: int, transitional: bool, std3: bool, c: char)
    requires
        0 <= i < s.len(),
        s[i] == c,
        spec_map_chars(s.subrange(0, i), transitional, std3) is Ok,
        spec_map_char(c, transitional, std3) == Err::<Seq<char>, char>(c),
    ensures
        spec_map_chars(s, transitional, std3) == Err::<Seq<char>, char>(c),
{
    lemma_map_chars_snoc(s, i, transitional, std3);
    lemma_map_chars_prefix_err(s, i + 1, transitional, std3, c);
}

/// Once a prefix maps to an error, every longer prefix maps to the same
/// error.
proof fn lemma_map_chars_prefix_err(s: Seq<char>, m: int, transitional: bool, std3: bool, c: char)
    requires
        0 < m <= s.len(),
        spec_map_chars(s.subrange(0, m), transitional, std3) == Err::<Seq<char>, char>(c),
    ensures
        spec_map_chars(s, transitional, std3) == Err::<Seq<char>, char>(c),
    decreases s.len() - m,
{
    if m == s.len() {
        assert(s.subrange(0, m) =~= s);
    } else {
        lemma_map_chars_snoc(s, m, transitional, std3);
        lemma_map_chars_prefix_err(s, m + 1, transitional, std3, c);
    }
}

/// NFC of a character sequence, with ASCII text documented unchanged.
pub open spec fn nfc_seq(s: Seq<char>) -> Seq<char> {
    if seq_ascii(s) {
        s
    } else {
        nfc_of(s)
    }
}

/// Normalize a domain to Unicode Normalization Form C. ASCII-only input
/// is returned unchanged, and the result is a fixed point: normalizing
/// it again changes nothing.
pub fn unicode_normalize_form_c(domain_name: &Vec<char>) -> (r: Vec<char>)
    ensures
        r@ == nfc_seq(domain_name@),
        nfc_seq(r@) == r@,
{
    if all_ascii(domain_name) {
        let copy = sub_chars(domain_name, 0, domain_name.len());
        proof {
            assert(copy@ =~= domain_name@);
        }
        copy
    } else {
        nfc_chars(domain_name)
    }
}

} // verus!
