//! IDNA processing (Unicode TR46): the main processing steps, ToASCII,
//! and ToUnicode.
//!
//! Processing maps each codepoint by the IDNA Mapping Table, normalizes
//! to NFC, breaks the domain at dots, punycode-decodes and revalidates
//! every `xn--` label, validates the others, and, when asked, holds every
//! label of a Bidi domain to the Bidi label rules. ToASCII additionally
//! punycode-encodes the non-ASCII labels and can verify the DNS length
//! limits. ToUnicode is processing alone.

use vstd::prelude::*;

use crate::bidi::is_domain_bidi;
use crate::bidi::spec_domain_bidi;
use crate::bidi::spec_valid_bidi;
use crate::bidi::valid_bidi;
use crate::chars::all_ascii;
use crate::chars::clone_chars;
use crate::chars::push_chars;
use crate::chars::seq_ascii;
use crate::chars::sub_chars;
use crate::labels::has_xn_label;
use crate::labels::join_dots;
use crate::labels::join_labels;
use crate::labels::label_is_valid;
use crate::labels::spec_split_labels;
use crate::labels::spec_valid_label;
use crate::labels::split_labels;
use crate::labels::starts_with_xn;
use crate::labels::starts_xn;
use crate::labels::views_of;
use crate::mapping::idna_mapping;
use crate::mapping::nfc_seq;
use crate::mapping::spec_map_stage;
use crate::mapping::unicode_normalize_form_c;
use crate::unicode_data::PUNY_DECODE_LIMIT;
use crate::unicode_data::PUNY_ENCODE_LIMIT;
use crate::unicode_data::puny_decode_of;
use crate::unicode_data::puny_encode_of;
use crate::unicode_data::punycode_decode;
use crate::unicode_data::punycode_encode;

verus! {

/// Why IDNA processing rejected a domain.
#[derive(PartialEq, Eq, Debug, Clone)]
pub enum IdnaError {
    /// The mapping table disallowed this codepoint.
    InvalidCharacter(char),
    /// This label failed the validity criteria.
    InvalidLabel(Vec<char>),
    /// This text after the `xn--` prefix is not valid Punycode.
    InvalidPunycode(Vec<char>),
    /// This label's length is outside the DNS limits.
    InvalidLabelLength(Vec<char>),
    /// The domain's length is outside the DNS limits.
    InvalidDomainLength(Vec<char>),
    /// The domain's label structure is broken.
    InvalidDomain(Vec<char>),
}

/// The mathematical value of an `IdnaError`.
pub enum IdnaErrorView {
    InvalidCharacter(char),
    InvalidLabel(Seq<char>),
    InvalidPunycode(Seq<char>),
    InvalidLabelLength(Seq<char>),
    InvalidDomainLength(Seq<char>),
    InvalidDomain(Seq<char>),
}

impl View for IdnaError {
    type V = IdnaErrorView;

    open spec fn view(&self) -> IdnaErrorView {
        match self {
            IdnaError::InvalidCharacter(c) => IdnaErrorView::InvalidCharacter(*c),
            IdnaError::InvalidLabel(l) => IdnaErrorView::InvalidLabel(l@),
            IdnaError::InvalidPunycode(l) => IdnaErrorView::InvalidPunycode(l@),
            IdnaError::InvalidLabelLength(l) => IdnaErrorView::InvalidLabelLength(l@),
            IdnaError::InvalidDomainLength(l) => IdnaErrorView::InvalidDomainLength(l@),
            IdnaError::InvalidDomain(l) => IdnaErrorView::InvalidDomain(l@),
        }
    }
}

/// What processing one nonempty label yields: an `xn--` label is
/// punycode-decoded and validated nontransitionally, any other label is
/// validated under the caller's processing choice.
pub open spec fn label_result(l: Seq<char>, check_hyphens: bool, check_joiners: bool,
    transitional: bool) -> Result<Seq<char>, IdnaErrorView> {
    if starts_xn(l) {
        let tail = l.skip(4);
        if tail.len() >= PUNY_DECODE_LIMIT {
            Err(IdnaErrorView::InvalidPunycode(tail))
        } else {
            match puny_decode_of(tail) {
                None => Err(IdnaErrorView::InvalidPunycode(tail)),
                Some(u) => if spec_valid_label(u, check_hyphens, check_joiners, false) {
                    Ok(u)
                } else {
                    Err(IdnaErrorView::InvalidLabel(u))
                },
            }
        }
    } else if spec_valid_label(l, check_hyphens, check_joiners, transitional) {
        Ok(l)
    } else {
        Err(IdnaErrorView::InvalidLabel(l))
    }
}

/// Processing a label list in order: an empty label is allowed once, as
/// the final (root) label; a second empty label, or any label after the
/// empty one, is an error; every other label goes through `label_result`.
pub open spec fn walk_labels(ls: Seq<Seq<char>>, d: Seq<char>, seen_empty: bool, check_hyphens:
    bool, check_joiners: bool, transitional: bool) -> Result<Seq<Seq<char>>, IdnaErrorView>
    decreases ls.len(),
{
    if ls.len() == 0 {
        Ok(Seq::empty())
    } else {
        let l = ls[0];
        if l.len() == 0 {
            if seen_empty {
                Err(IdnaErrorView::InvalidLabel(Seq::empty()))
            } else {
                match walk_labels(ls.skip(1), d, true, check_hyphens, check_joiners,
                    transitional) {
                    Err(e) => Err(e),
                    Ok(rest) => Ok(seq![Seq::<char>::empty()] + rest),
                }
            }
        } else if seen_empty {
            Err(IdnaErrorView::InvalidDomain(d))
        } else {
            match label_result(l, check_hyphens, check_joiners, transitional) {
                Err(e) => Err(e),
                Ok(u) => match walk_labels(ls.skip(1), d, seen_empty, check_hyphens,
                    check_joiners, transitional) {
                    Err(e) => Err(e),
                    Ok(rest) => Ok(seq![u] + rest),
                },
            }
        }
    }
}

/// The first nonempty label that fails the Bidi conditions, if any.
pub open spec fn first_bad_bidi(ls: Seq<Seq<char>>) -> Option<Seq<char>>
    decreases ls.len(),
{
    if ls.len() == 0 {
        None
    } else if ls[0].len() > 0 && !spec_valid_bidi(ls[0]) {
        Some(ls[0])
    } else {
        first_bad_bidi(ls.skip(1))
    }
}

/// The IDNA main processing steps on a domain: reject empty input, map,
/// normalize, break at dots, process each label, rebuild from per-label
/// text when any label used the `xn--` form, and hold the labels of a
/// Bidi domain to the Bidi conditions when asked.
pub open spec fn process_spec(s: Seq<char>, use_std3_ascii_rules: bool, check_hyphens: bool,
    check_bidi: bool, check_joiners: bool, transitional: bool) -> Result<Seq<char>, IdnaErrorView> {
    if s.len() == 0 {
        Err(IdnaErrorView::InvalidDomain(s))
    } else {
        match spec_map_stage(s, transitional, use_std3_ascii_rules) {
            Err(c) => Err(IdnaErrorView::InvalidCharacter(c)),
            Ok(m) => {
                let d = nfc_seq(m);
                let ls = spec_split_labels(d);
                match walk_labels(ls, d, false, check_hyphens, check_joiners, transitional) {
                    Err(e) => Err(e),
                    Ok(outs) => {
                        let r = if has_xn_label(ls) {
                            join_dots(outs)
                        } else {
                            d
                        };
                        if check_bidi && spec_domain_bidi(r) {
                            match first_bad_bidi(spec_split_labels(r)) {
                                Some(bad) => Err(IdnaErrorView::InvalidLabel(bad)),
                                None => Ok(r),
                            }
                        } else {
                            Ok(r)
                        }
                    },
                }
            },
        }
    }
}

fn walk_exec(ls: &Vec<Vec<char>>, idx: usize, d: &Vec<char>, seen_empty: bool, check_hyphens:
    bool, check_joiners: bool, transitional: bool) -> (r: Result<Vec<Vec<char>>, IdnaError>)
    requires
        idx <= ls@.len(),
    ensures
        match r {
            Ok(o) => walk_labels(views_of(ls@).skip(idx as int), d@, seen_empty, check_hyphens,
                check_joiners, transitional) == Ok::<Seq<Seq<char>>, IdnaErrorView>(views_of(o@)),
            Err(e) => walk_labels(views_of(ls@).skip(idx as int), d@, seen_empty, check_hyphens,
                check_joiners, transitional) == Err::<Seq<Seq<char>>, IdnaErrorView>(e@),
        },
    decreases ls@.len() - idx,
{
    let ghost vs = views_of(ls@).skip(idx as int);
    if idx == ls.len() {
        proof {
            assert(vs.len() == 0);
            assert(views_of(Seq::<Vec<char>>::empty()) =~= Seq::<Seq<char>>::empty());
        }
        return Ok(Vec::new());
    }
    let l: &Vec<char> = &ls[idx];
    proof {
        assert(vs[0] == l@);
        assert(vs.skip(1) =~= views_of(ls@).skip(idx + 1));
    }
    if l.len() == 0 {
        if seen_empty {
            let empty_label: Vec<char> = Vec::new();
            return Err(IdnaError::InvalidLabel(empty_label));
        }
        match walk_exec(ls, idx + 1, d, true, check_hyphens, check_joiners, transitional) {
            Err(e) => Err(e),
            Ok(mut rest) => {
                let ghost pre = rest@;
                let empty_label: Vec<char> = Vec::new();
                rest.insert(0, empty_label);
                proof {
                    crate::labels::lemma_views_insert0(pre, rest@[0]);
                    assert(views_of(rest@) =~= seq![Seq::<char>::empty()] + views_of(pre));
                }
                Ok(rest)
            },
        }
    } else if seen_empty {
        Err(IdnaError::InvalidDomain(clone_chars(d)))
    } else {
        let processed: Vec<char>;
        if starts_with_xn(l) {
            let tail = sub_chars(l, 4, l.len());
            proof {
                assert(tail@ =~= l@.skip(4));
            }
            if tail.len() as u64 >= PUNY_DECODE_LIMIT {
                return Err(IdnaError::InvalidPunycode(tail));
            }
            match punycode_decode(&tail) {
                None => {
                    return Err(IdnaError::InvalidPunycode(tail));
                },
                Some(dec) => {
                    if !label_is_valid(&dec, check_hyphens, check_joiners, false) {
                        return Err(IdnaError::InvalidLabel(dec));
                    }
                    processed = dec;
                },
            }
        } else {
            if !label_is_valid(l, check_hyphens, check_joiners, transitional) {
                return Err(IdnaError::InvalidLabel(clone_chars(l)));
            }
            processed = clone_chars(l);
        }
        match walk_exec(ls, idx + 1, d, seen_empty, check_hyphens, check_joiners, transitional) {
            Err(e) => Err(e),
            Ok(mut rest) => {
                let ghost pre = rest@;
                let ghost pv = processed@;
                rest.insert(0, processed);
                proof {
                    crate::labels::lemma_views_insert0(pre, rest@[0]);
                    assert(views_of(rest@) =~= seq![pv] + views_of(pre));
                }
                Ok(rest)
            },
        }
    }
}

fn has_xn_exec(ls: &Vec<Vec<char>>) -> (r: bool)
    ensures
        r == has_xn_label(views_of(ls@)),
{
    let mut i: usize = 0;
    while i < ls.len()
        invariant
            0 <= i <= ls@.len(),
            forall|k: int| 0 <= k < i ==> !starts_xn(#[trigger] views_of(ls@)[k]),
        decreases ls@.len() - i,
    {
        if starts_with_xn(&ls[i]) {
            proof {
                assert(starts_xn(views_of(ls@)[i as int]));
            }
            return true;
        }
        i = i + 1;
    }
    false
}

fn first_bad_bidi_exec(ls: &Vec<Vec<char>>, idx: usize) -> (r: Option<Vec<char>>)
    requires
        idx <= ls@.len(),
    ensures
        match r {
            Some(bad) => first_bad_bidi(views_of(ls@).skip(idx as int)) == Some(bad@),
            None => first_bad_bidi(views_of(ls@).skip(idx as int)) is None,
        },
    decreases ls@.len() - idx,
{
    let ghost vs = views_of(ls@).skip(idx as int);
    if idx == ls.len() {
        return None;
    }
    let l: &Vec<char> = &ls[idx];
    proof {
        assert(vs[0] == l@);
        assert(vs.skip(1) =~= views_of(ls@).skip(idx + 1));
    }
    if l.len() > 0 && !valid_bidi(l) {
        Some(clone_chars(l))
    } else {
        first_bad_bidi_exec(ls, idx + 1)
    }
}

/// The IDNA main processing steps: map, normalize to NFC, break the
/// domain at dots, punycode-decode and revalidate every `xn--` label,
/// validate every other label, rebuild the domain from per-label text
/// when any label used the `xn--` form, and, when `check_bidi` is set and
/// the result is a Bidi domain, hold every nonempty label to the Bidi
/// conditions.
pub fn process_idna(domain_name: &Vec<char>, use_std3_ascii_rules: bool, check_hyphens: bool,
    check_bidi: bool, check_joiners: bool, transitional_processing: bool) -> (r: Result<
    Vec<char>,
    IdnaError,
>)
    ensures
        match r {
            Ok(v) => process_spec(domain_name@, use_std3_ascii_rules, check_hyphens, check_bidi,
                check_joiners, transitional_processing) == Ok::<Seq<char>, IdnaErrorView>(v@),
            Err(e) => process_spec(domain_name@, use_std3_ascii_rules, check_hyphens, check_bidi,
                check_joiners, transitional_processing) == Err::<Seq<char>, IdnaErrorView>(e@),
        },
{
    if domain_name.len() == 0 {
        let empty_domain: Vec<char> = Vec::new();
        proof {
            assert(empty_domain@ =~= domain_name@);
        }
        return Err(IdnaError::InvalidDomain(empty_domain));
    }
    let mapped = match idna_mapping(domain_name, transitional_processing, use_std3_ascii_rules) {
        Ok(v) => v,
        Err(c) => {
            return Err(IdnaError::InvalidCharacter(c));
        },
    };
    let d = unicode_normalize_form_c(&mapped);
    let ls = split_labels(&d);
    let rebuild = has_xn_exec(&ls);
    let outs = match walk_exec(&ls, 0, &d, false, check_hyphens, check_joiners,
        transitional_processing) {
        Ok(o) => o,
        Err(e) => {
            proof {
                assert(views_of(ls@).skip(0) =~= views_of(ls@));
            }
            return Err(e);
        },
    };
    proof {
        assert(views_of(ls@).skip(0) =~= views_of(ls@));
    }
    let result = if rebuild {
        join_labels(&outs)
    } else {
        clone_chars(&d)
    };
    if check_bidi && is_domain_bidi(&result) {
        let rls = split_labels(&result);
        match first_bad_bidi_exec(&rls, 0) {
            Some(bad) => {
                proof {
                    assert(views_of(rls@).skip(0) =~= views_of(rls@));
                }
                return Err(IdnaError::InvalidLabel(bad));
            },
            None => {
                proof {
                    assert(views_of(rls@).skip(0) =~= views_of(rls@));
                }
            },
        }
    }
    Ok(result)
}

/// What encoding one label for ToASCII yields: an ASCII label unchanged,
/// any other label as `xn--` plus its Punycode form.
pub open spec fn encode_label_spec(l: Seq<char>) -> Result<Seq<char>, IdnaErrorView> {
    if seq_ascii(l) {
        Ok(l)
    } else if l.len() > PUNY_ENCODE_LIMIT {
        Err(IdnaErrorView::InvalidLabel(l))
    } else {
        match puny_encode_of(l) {
            None => Err(IdnaErrorView::InvalidLabel(l)),
            Some(t) => Ok(seq!['x', 'n', '-', '-'] + t),
        }
    }
}

/// Encoding every label of a list for ToASCII.
pub open spec fn encode_labels_spec(ls: Seq<Seq<char>>) -> Result<Seq<Seq<char>>, IdnaErrorView>
    decreases ls.len(),
{
    if ls.len() == 0 {
        Ok(Seq::empty())
    } else {
        match encode_label_spec(ls[0]) {
            Err(e) => Err(e),
            Ok(h) => match encode_labels_spec(ls.skip(1)) {
                Err(e) => Err(e),
                Ok(t) => Ok(seq![h] + t),
            },
        }
    }
}

/// The ToASCII encoding stage: an all-ASCII domain is kept, otherwise
/// each label is encoded and the labels are rejoined with dots.
pub open spec fn ascii_stage(d: Seq<char>) -> Result<Seq<char>, IdnaErrorView> {
    if seq_ascii(d) {
        Ok(d)
    } else {
        match encode_labels_spec(spec_split_labels(d)) {
            Err(e) => Err(e),
            Ok(ls) => Ok(join_dots(ls)),
        }
    }
}

/// The domain's length with a trailing root dot excluded.
pub open spec fn trimmed_len(d: Seq<char>) -> int {
    if d.len() > 0 && d[d.len() - 1] == '.' {
        d.len() - 1
    } else {
        d.len() as int
    }
}

/// The DNS label-length walk: an empty label is allowed once, as the
/// final (root) label; every other label must have 1 to 63 characters.
pub open spec fn dns_labels_check(ls: Seq<Seq<char>>, d: Seq<char>, seen_empty: bool) -> Option<
    IdnaErrorView,
>
    decreases ls.len(),
{
    if ls.len() == 0 {
        None
    } else if seen_empty {
        Some(IdnaErrorView::InvalidDomain(d))
    } else if ls[0].len() == 0 {
        dns_labels_check(ls.skip(1), d, true)
    } else if ls[0].len() > 63 {
        Some(IdnaErrorView::InvalidLabelLength(ls[0]))
    } else {
        dns_labels_check(ls.skip(1), d, false)
    }
}

/// The DNS length verification: the whole domain, root dot excluded, has
/// 1 to 253 characters, and each non-root label 1 to 63.
pub open spec fn dns_check(d: Seq<char>) -> Option<IdnaErrorView> {
    if !(1 <= trimmed_len(d) <= 253) {
        Some(IdnaErrorView::InvalidDomainLength(d))
    } else {
        dns_labels_check(spec_split_labels(d), d, false)
    }
}

/// The whole ToASCII operation: processing, the encoding stage, and the
/// optional DNS length verification.
pub open spec fn to_ascii_spec(s: Seq<char>, check_hyphens: bool, check_bidi: bool, check_joiners:
    bool, use_std3_ascii_rules: bool, transitional: bool, verify_dns_length: bool) -> Result<
    Seq<char>,
    IdnaErrorView,
> {
    match process_spec(s, use_std3_ascii_rules, check_hyphens, check_bidi, check_joiners,
        transitional) {
        Err(e) => Err(e),
        Ok(d) => match ascii_stage(d) {
            Err(e) => Err(e),
            Ok(a) => if verify_dns_length {
                match dns_check(a) {
                    Some(e) => Err(e),
                    None => Ok(a),
                }
            } else {
                Ok(a)
            },
        },
    }
}

fn encode_labels_exec(ls: &Vec<Vec<char>>, idx: usize) -> (r: Result<Vec<Vec<char>>, IdnaError>)
    requires
        idx <= ls@.len(),
    ensures
        match r {
            Ok(o) => encode_labels_spec(views_of(ls@).skip(idx as int)) == Ok::<
                Seq<Seq<char>>,
                IdnaErrorView,
            >(views_of(o@)),
            Err(e) => encode_labels_spec(views_of(ls@).skip(idx as int)) == Err::<
                Seq<Seq<char>>,
                IdnaErrorView,
            >(e@),
        },
    decreases ls@.len() - idx,
{
    let ghost vs = views_of(ls@).skip(idx as int);
    if idx == ls.len() {
        proof {
            assert(views_of(Seq::<Vec<char>>::empty()) =~= Seq::<Seq<char>>::empty());
        }
        return Ok(Vec::new());
    }
    let l: &Vec<char> = &ls[idx];
    proof {
        assert(vs[0] == l@);
        assert(vs.skip(1) =~= views_of(ls@).skip(idx + 1));
    }
    let encoded: Vec<char>;
    if all_ascii(l) {
        encoded = clone_chars(l);
    } else if l.len() as u64 > PUNY_ENCODE_LIMIT {
        return Err(IdnaError::InvalidLabel(clone_chars(l)));
    } else {
        match punycode_encode(l) {
            None => {
                return Err(IdnaError::InvalidLabel(clone_chars(l)));
            },
            Some(t) => {
                let mut e: Vec<char> = Vec::new();
                e.push('x');
                e.push('n');
                e.push('-');
                e.push('-');
                push_chars(&mut e, &t);
                proof {
                    assert(e@ =~= seq!['x', 'n', '-', '-'] + t@);
                }
                encoded = e;
            },
        }
    }
    match encode_labels_exec(ls, idx + 1) {
        Err(e) => Err(e),
        Ok(mut rest) => {
            let ghost pre = rest@;
            let ghost ev = encoded@;
            rest.insert(0, encoded);
            proof {
                crate::labels::lemma_views_insert0(pre, rest@[0]);
                assert(views_of(rest@) =~= seq![ev] + views_of(pre));
            }
            Ok(rest)
        },
    }
}

fn dns_check_labels_exec(ls: &Vec<Vec<char>>, idx: usize, d: &Vec<char>, seen_empty: bool) -> (r:
    Option<IdnaError>)
    requires
        idx <= ls@.len(),
    ensures
        match r {
            Some(e) => dns_labels_check(views_of(ls@).skip(idx as int), d@, seen_empty) == Some(
                e@,
            ),
            None => dns_labels_check(views_of(ls@).skip(idx as int), d@, seen_empty) is None,
        },
    decreases ls@.len() - idx,
{
    let ghost vs = views_of(ls@).skip(idx as int);
    if idx == ls.len() {
        return None;
    }
    let l: &Vec<char> = &ls[idx];
    proof {
        assert(vs[0] == l@);
        assert(vs.skip(1) =~= views_of(ls@).skip(idx + 1));
    }
    if seen_empty {
        Some(IdnaError::InvalidDomain(clone_chars(d)))
    } else if l.len() == 0 {
        dns_check_labels_exec(ls, idx + 1, d, true)
    } else if l.len() > 63 {
        Some(IdnaError::InvalidLabelLength(clone_chars(l)))
    } else {
        dns_check_labels_exec(ls, idx + 1, d, false)
    }
}

/// IDNA ToASCII: apply the main processing steps, keep an all-ASCII
/// result unchanged, otherwise encode each non-ASCII label as `xn--` plus
/// its Punycode form, and, when `verify_dns_length` is set, verify that
/// the whole domain (root dot excluded) has 1 to 253 characters and each
/// non-root label 1 to 63.
#[verifier::rlimit(60)]
pub fn idna_unicode_to_ascii(domain_name: &Vec<char>, check_hyphens: bool, check_bidi: bool,
    check_joiners: bool, use_std3_ascii_rules: bool, transitional_processing: bool,
    verify_dns_length: bool) -> (r: Result<Vec<char>, IdnaError>)
    ensures
        match r {
            Ok(v) => to_ascii_spec(domain_name@, check_hyphens, check_bidi, check_joiners,
                use_std3_ascii_rules, transitional_processing, verify_dns_length) == Ok::<
                Seq<char>,
                IdnaErrorView,
            >(v@),
            Err(e) => to_ascii_spec(domain_name@, check_hyphens, check_bidi, check_joiners,
                use_std3_ascii_rules, transitional_processing, verify_dns_length) == Err::<
                Seq<char>,
                IdnaErrorView,
            >(e@),
        },
{
    let d = match process_idna(domain_name, use_std3_ascii_rules, check_hyphens, check_bidi,
        check_joiners, transitional_processing) {
        Ok(v) => v,
        Err(e) => {
            return Err(e);
        },
    };
    let a: Vec<char>;
    if all_ascii(&d) {
        a = d;
    } else {
        let ls = split_labels(&d);
        let encoded = match encode_labels_exec(&ls, 0) {
            Ok(o) => o,
            Err(e) => {
                proof {
                    assert(views_of(ls@).skip(0) =~= views_of(ls@));
                }
                return Err(e);
            },
        };
        proof {
            assert(views_of(ls@).skip(0) =~= views_of(ls@));
        }
        a = join_labels(&encoded);
    }
    if verify_dns_length {
        let alen = a.len();
        let tl: usize = if alen > 0 && a[alen - 1] == '.' {
            alen - 1
        } else {
            alen
        };
        if !(1 <= tl && tl <= 253) {
            return Err(IdnaError::InvalidDomainLength(a));
        }
        let als = split_labels(&a);
        match dns_check_labels_exec(&als, 0, &a, false) {
            Some(e) => {
                proof {
                    assert(views_of(als@).skip(0) =~= views_of(als@));
                }
                return Err(e);
            },
            None => {
                proof {
                    assert(views_of(als@).skip(0) =~= views_of(als@));
                }
            },
        }
    }
    Ok(a)
}

/// IDNA ToUnicode: the main processing steps alone.
pub fn idna_ascii_to_unicode(domain_name: &Vec<char>, check_hyphens: bool, check_bidi: bool,
    check_joiners: bool, use_std3_ascii_rules: bool, transitional_processing: bool) -> (r: Result<
    Vec<char>,
    IdnaError,
>)
    ensures
        match r {
            Ok(v) => process_spec(domain_name@, use_std3_ascii_rules, check_hyphens, check_bidi,
                check_joiners, transitional_processing) == Ok::<Seq<char>, IdnaErrorView>(v@),
            Err(e) => process_spec(domain_name@, use_std3_ascii_rules, check_hyphens, check_bidi,
                check_joiners, transitional_processing) == Err::<Seq<char>, IdnaErrorView>(e@),
        },
{
    process_idna(domain_name, use_std3_ascii_rules, check_hyphens, check_bidi, check_joiners,
        transitional_processing)
}

/// In an accepted label walk, every label that the first nonempty-label
/// rules allow appears in the output: the output has one entry per label,
/// empty labels stay empty, nonempty labels yield their processed text,
/// and only the final label may be empty.
proof fn lemma_walk_ok_facts(ls: Seq<Seq<char>>, d: Seq<char>, seen_empty: bool, check_hyphens:
    bool, check_joiners: bool, transitional: bool, outs: Seq<Seq<char>>)
    requires
        walk_labels(ls, d, seen_empty, check_hyphens, check_joiners, transitional) == Ok::<
            Seq<Seq<char>>,
            IdnaErrorView,
        >(outs),
    ensures
        outs.len() == ls.len(),
        forall|i: int| #![auto] 0 <= i < ls.len() && ls[i].len() == 0 ==> outs[i].len() == 0,
        forall|i: int| #![auto]
            0 <= i < ls.len() && ls[i].len() > 0 ==> label_result(ls[i], check_hyphens,
                check_joiners, transitional) == Ok::<Seq<char>, IdnaErrorView>(outs[i]),
        forall|i: int| #![auto] 0 <= i < ls.len() - 1 ==> ls[i].len() > 0,
    decreases ls.len(),
{
    if ls.len() == 0 {
    } else {
        let l = ls[0];
        if l.len() == 0 {
            let rest = walk_labels(ls.skip(1), d, true, check_hyphens, check_joiners,
                transitional)->Ok_0;
            lemma_walk_ok_facts(ls.skip(1), d, true, check_hyphens, check_joiners, transitional,
                rest);
            assert(outs =~= seq![Seq::<char>::empty()] + rest);
            // After an empty label every further label is an error, so
            // the tail must be empty.
            if ls.skip(1).len() > 0 {
                assert(walk_labels(ls.skip(1), d, true, check_hyphens, check_joiners,
                    transitional) is Err);
                assert(false);
            }
            assert(ls.len() == 1);
        } else {
            let u = label_result(l, check_hyphens, check_joiners, transitional)->Ok_0;
            let rest = walk_labels(ls.skip(1), d, seen_empty, check_hyphens, check_joiners,
                transitional)->Ok_0;
            lemma_walk_ok_facts(ls.skip(1), d, seen_empty, check_hyphens, check_joiners,
                transitional, rest);
            assert(outs =~= seq![u] + rest);
            assert forall|i: int| 0 <= i < ls.len() - 1 implies #[trigger] ls[i].len() > 0 by {
                if i > 0 {
                    assert(ls.skip(1)[i - 1].len() > 0);
                }
            }
        }
    }
}

/// A list of valid, unprefixed, dot-free labels, empty at most in final
/// position, walks to itself.
proof fn lemma_walk_all_valid(ls: Seq<Seq<char>>, d: Seq<char>, check_hyphens: bool,
    check_joiners: bool)
    requires
        forall|i: int| #![auto] 0 <= i < ls.len() - 1 ==> ls[i].len() > 0,
        forall|i: int| #![auto]
            0 <= i < ls.len() && ls[i].len() > 0 ==> !starts_xn(ls[i]) && spec_valid_label(
                ls[i],
                check_hyphens,
                check_joiners,
                false,
            ),
    ensures
        walk_labels(ls, d, false, check_hyphens, check_joiners, false) == Ok::<
            Seq<Seq<char>>,
            IdnaErrorView,
        >(ls),
    decreases ls.len(),
{
    if ls.len() == 0 {
        assert(walk_labels(ls, d, false, check_hyphens, check_joiners, false) == Ok::<
            Seq<Seq<char>>,
            IdnaErrorView,
        >(Seq::empty()));
        assert(ls =~= Seq::<Seq<char>>::empty());
    } else {
        let l = ls[0];
        if l.len() == 0 {
            assert(ls.len() == 1);
            assert(walk_labels(ls.skip(1), d, true, check_hyphens, check_joiners, false) == Ok::<
                Seq<Seq<char>>,
                IdnaErrorView,
            >(Seq::empty()));
            assert(ls[0] =~= Seq::<char>::empty());
            assert(seq![Seq::<char>::empty()] + Seq::<Seq<char>>::empty() =~~= ls);
        } else {
            assert(label_result(l, check_hyphens, check_joiners, false) == Ok::<
                Seq<char>,
                IdnaErrorView,
            >(l));
            assert forall|i: int| #![auto] 0 <= i < ls.skip(1).len() - 1 implies ls.skip(1)[i].len()
                > 0 by {
                assert(ls[i + 1].len() > 0);
            }
            assert forall|i: int| #![auto]
                0 <= i < ls.skip(1).len() && ls.skip(1)[i].len() > 0 implies !starts_xn(
                ls.skip(1)[i],
            ) && spec_valid_label(ls.skip(1)[i], check_hyphens, check_joiners, false) by {
                assert(ls[i + 1].len() > 0);
            }
            lemma_walk_all_valid(ls.skip(1), d, check_hyphens, check_joiners);
            assert(seq![l] + ls.skip(1) =~= ls);
        }
    }
}

/// When no label fails the Bidi conditions, every nonempty label passes
/// them.
proof fn lemma_first_bad_bidi_none(ls: Seq<Seq<char>>)
    requires
        first_bad_bidi(ls) is None,
    ensures
        forall|i: int| #![auto] 0 <= i < ls.len() && ls[i].len() > 0 ==> spec_valid_bidi(ls[i]),
    decreases ls.len(),
{
    if ls.len() > 0 {
        lemma_first_bad_bidi_none(ls.skip(1));
        assert forall|i: int| #![auto]
            0 <= i < ls.len() && ls[i].len() > 0 implies spec_valid_bidi(ls[i]) by {
            if i > 0 {
                assert(ls.skip(1)[i - 1].len() > 0 && spec_valid_bidi(ls.skip(1)[i - 1]));
            }
        }
    }
}

/// The label walk never reports a length error.
proof fn lemma_walk_no_length_err(ls: Seq<Seq<char>>, d: Seq<char>, seen_empty: bool,
    check_hyphens: bool, check_joiners: bool, transitional: bool)
    ensures
        walk_labels(ls, d, seen_empty, check_hyphens, check_joiners, transitional) matches Err(e)
            ==> !(e is InvalidLabelLength) && !(e is InvalidDomainLength),
    decreases ls.len(),
{
    if ls.len() > 0 {
        lemma_walk_no_length_err(ls.skip(1), d, true, check_hyphens, check_joiners, transitional);
        lemma_walk_no_length_err(ls.skip(1), d, seen_empty, check_hyphens, check_joiners,
            transitional);
    }
}

/// A label list that passes the DNS walk has no nonempty label longer
/// than 63 and no empty label before the final one.
proof fn lemma_dns_labels_none(ls: Seq<Seq<char>>, d: Seq<char>, seen_empty: bool)
    requires
        dns_labels_check(ls, d, seen_empty) is None,
    ensures
        forall|i: int| #![auto] 0 <= i < ls.len() && ls[i].len() > 0 ==> ls[i].len() <= 63,
        forall|i: int| #![auto] 0 <= i < ls.len() - 1 ==> ls[i].len() > 0,
    decreases ls.len(),
{
    if ls.len() > 0 {
        if ls[0].len() == 0 {
            // After the empty label, any further label makes the walk
            // fail, so the tail must be empty.
            if ls.skip(1).len() > 0 {
                assert(dns_labels_check(ls.skip(1), d, true) is Some);
                assert(false);
            }
            assert(ls.len() == 1);
        } else {
            lemma_dns_labels_none(ls.skip(1), d, false);
            assert forall|i: int| #![auto]
                0 <= i < ls.len() && ls[i].len() > 0 implies ls[i].len() <= 63 by {
                if i > 0 {
                    assert(ls.skip(1)[i - 1].len() > 0);
                }
            }
            assert forall|i: int| #![auto] 0 <= i < ls.len() - 1 implies ls[i].len() > 0 by {
                if i > 0 {
                    assert(ls.skip(1)[i - 1].len() > 0);
                }
            }
        }
    }
}

/// A domain of ASCII lowercase letters, digits, dots, and hyphens whose
/// labels carry no ACE prefix is a fixed point: whenever processing or
/// ToASCII accepts it, the result is the domain itself, unchanged.
pub proof fn lemma_lower_ascii_identity(s: Seq<char>, check_hyphens: bool, check_bidi: bool,
    check_joiners: bool, use_std3_ascii_rules: bool, transitional: bool, verify_dns_length: bool)
    requires
        crate::chars::seq_all_lower_ascii(s),
        !has_xn_label(spec_split_labels(s)),
    ensures
        process_spec(s, use_std3_ascii_rules, check_hyphens, check_bidi, check_joiners,
            transitional) matches Ok(r) ==> r == s,
        to_ascii_spec(s, check_hyphens, check_bidi, check_joiners, use_std3_ascii_rules,
            transitional, verify_dns_length) matches Ok(a) ==> a == s,
{
    if s.len() > 0 {
        assert(spec_map_stage(s, transitional, use_std3_ascii_rules) == Ok::<Seq<char>, char>(s));
        assert forall|i: int| 0 <= i < s.len() implies (#[trigger] s[i] as u32) < 128 by {
            assert(crate::chars::spec_lower_ascii_char(s[i]));
        }
        assert(seq_ascii(s));
        assert(nfc_seq(s) == s);
        assert(ascii_stage(s) == Ok::<Seq<char>, IdnaErrorView>(s));
    }
}

/// Bidi rule: when Bidi checking accepts a domain that contains any
/// codepoint of class R, AL, or AN, every nonempty label of the result
/// independently meets the Bidi label conditions, the purely
/// left-to-right labels included.
pub proof fn lemma_bidi_domain_labels(s: Seq<char>, use_std3_ascii_rules: bool, check_hyphens:
    bool, check_joiners: bool, transitional: bool, r: Seq<char>)
    requires
        process_spec(s, use_std3_ascii_rules, check_hyphens, true, check_joiners, transitional)
            == Ok::<Seq<char>, IdnaErrorView>(r),
        spec_domain_bidi(r),
    ensures
        forall|i: int| #![auto]
            0 <= i < spec_split_labels(r).len() && spec_split_labels(r)[i].len() > 0
                ==> spec_valid_bidi(spec_split_labels(r)[i]),
{
    lemma_first_bad_bidi_none(spec_split_labels(r));
}

/// DNS length rule, checking side: a domain that ToASCII accepts with
/// length verification has 1 to 253 characters, the root dot excluded,
/// every non-root label of 1 to 63 characters, and an empty label at
/// most in the final (root) position.
pub proof fn lemma_dns_length_verified(s: Seq<char>, check_hyphens: bool, check_bidi: bool,
    check_joiners: bool, use_std3_ascii_rules: bool, transitional: bool, a: Seq<char>)
    requires
        to_ascii_spec(s, check_hyphens, check_bidi, check_joiners, use_std3_ascii_rules,
            transitional, true) == Ok::<Seq<char>, IdnaErrorView>(a),
    ensures
        1 <= trimmed_len(a) <= 253,
        forall|i: int| #![auto]
            0 <= i < spec_split_labels(a).len() && spec_split_labels(a)[i].len() > 0
                ==> spec_split_labels(a)[i].len() <= 63,
        forall|i: int| #![auto]
            0 <= i < spec_split_labels(a).len() - 1 ==> spec_split_labels(a)[i].len() > 0,
{
    lemma_dns_labels_none(spec_split_labels(a), a, false);
}

/// DNS length rule, lenient side: without length verification, ToASCII
/// never reports a length error.
pub proof fn lemma_dns_length_only_when_asked(s: Seq<char>, check_hyphens: bool, check_bidi: bool,
    check_joiners: bool, use_std3_ascii_rules: bool, transitional: bool)
    ensures
        to_ascii_spec(s, check_hyphens, check_bidi, check_joiners, use_std3_ascii_rules,
            transitional, false) matches Err(e) ==> !(e is InvalidLabelLength) && !(e
            is InvalidDomainLength),
{
    if s.len() > 0 {
        match spec_map_stage(s, transitional, use_std3_ascii_rules) {
            Err(_) => {},
            Ok(m) => {
                let d = nfc_seq(m);
                lemma_walk_no_length_err(spec_split_labels(d), d, false, check_hyphens,
                    check_joiners, transitional);
                match walk_labels(spec_split_labels(d), d, false, check_hyphens, check_joiners,
                    transitional) {
                    Err(_) => {},
                    Ok(outs) => {
                        let r = if has_xn_label(spec_split_labels(d)) {
                            join_dots(outs)
                        } else {
                            d
                        };
                        lemma_encode_labels_no_length_err(spec_split_labels(r));
                    },
                }
            },
        }
    }
}

/// The ToASCII encoding stage never reports a length error.
proof fn lemma_encode_labels_no_length_err(ls: Seq<Seq<char>>)
    ensures
        encode_labels_spec(ls) matches Err(e) ==> !(e is InvalidLabelLength) && !(e
            is InvalidDomainLength),
    decreases ls.len(),
{
    if ls.len() > 0 {
        lemma_encode_labels_no_length_err(ls.skip(1));
    }
}

/// A domain list always has at least one label.
proof fn lemma_split_nonempty(s: Seq<char>)
    ensures
        spec_split_labels(s).len() >= 1,
{
}

/// Round trip: when nontransitional processing of a domain yields a
/// plain lowercase-ASCII, well-formed domain without ACE-prefixed labels,
/// ToASCII returns exactly that domain, and ToUnicode of that result
/// returns it again, unchanged.
pub proof fn lemma_ascii_round_trip(s: Seq<char>, a: Seq<char>, check_hyphens: bool, check_bidi:
    bool, check_joiners: bool, use_std3_ascii_rules: bool)
    requires
        process_spec(s, use_std3_ascii_rules, check_hyphens, check_bidi, check_joiners, false)
            == Ok::<Seq<char>, IdnaErrorView>(a),
        crate::chars::seq_all_lower_ascii(a),
        a.len() > 0,
        !has_xn_label(spec_split_labels(a)),
        forall|i: int| #![auto]
            0 <= i < spec_split_labels(a).len() - 1 ==> spec_split_labels(a)[i].len() > 0,
    ensures
        to_ascii_spec(s, check_hyphens, check_bidi, check_joiners, use_std3_ascii_rules, false,
            false) == Ok::<Seq<char>, IdnaErrorView>(a),
        process_spec(a, use_std3_ascii_rules, check_hyphens, check_bidi, check_joiners, false)
            == Ok::<Seq<char>, IdnaErrorView>(a),
{
    assert forall|i: int| 0 <= i < a.len() implies (#[trigger] a[i] as u32) < 128 by {
        assert(crate::chars::spec_lower_ascii_char(a[i]));
    }
    assert(seq_ascii(a));
    assert(ascii_stage(a) == Ok::<Seq<char>, IdnaErrorView>(a));

    let m = spec_map_stage(s, false, use_std3_ascii_rules)->Ok_0;
    let d = nfc_seq(m);
    let ls = spec_split_labels(d);
    let outs = walk_labels(ls, d, false, check_hyphens, check_joiners, false)->Ok_0;
    lemma_walk_ok_facts(ls, d, false, check_hyphens, check_joiners, false, outs);
    let r = if has_xn_label(ls) {
        join_dots(outs)
    } else {
        d
    };
    assert(r == a);

    // The result's labels are exactly the walk's outputs.
    if has_xn_label(ls) {
        assert forall|i: int| 0 <= i < outs.len() implies crate::labels::dot_free(
            #[trigger] outs[i],
        ) by {
            if ls[i].len() == 0 {
                assert(outs[i].len() == 0);
            } else {
                assert(label_result(ls[i], check_hyphens, check_joiners, false) == Ok::<
                    Seq<char>,
                    IdnaErrorView,
                >(outs[i]));
                if starts_xn(ls[i]) {
                    assert(spec_valid_label(outs[i], check_hyphens, check_joiners, false));
                } else {
                    assert(spec_valid_label(outs[i], check_hyphens, check_joiners, false));
                }
            }
        }
        lemma_split_nonempty(d);
        crate::labels::lemma_split_join(outs);
        assert(spec_split_labels(a) == outs);
    } else {
        assert forall|i: int| 0 <= i < outs.len() implies #[trigger] outs[i] == ls[i] by {
            if ls[i].len() == 0 {
                assert(outs[i] =~= ls[i]);
            } else {
                assert(!starts_xn(ls[i]));
                assert(label_result(ls[i], check_hyphens, check_joiners, false) == Ok::<
                    Seq<char>,
                    IdnaErrorView,
                >(outs[i]));
            }
        }
        assert(outs =~= ls);
        assert(spec_split_labels(a) == outs);
    }

    // Every nonempty output label is valid without the ACE prefix, so the
    // walk accepts the result's labels as they stand.
    assert forall|i: int| #![auto]
        0 <= i < outs.len() && outs[i].len() > 0 implies !starts_xn(outs[i]) && spec_valid_label(
        outs[i],
        check_hyphens,
        check_joiners,
        false,
    ) by {
        assert(!starts_xn(spec_split_labels(a)[i]));
        assert(ls[i].len() > 0);
        assert(label_result(ls[i], check_hyphens, check_joiners, false) == Ok::<
            Seq<char>,
            IdnaErrorView,
        >(outs[i]));
    }
    lemma_walk_all_valid(outs, a, check_hyphens, check_joiners);

    // Processing the result: the fast path keeps it, NFC keeps it, the
    // walk accepts it without rebuild, and the Bidi stage repeats the
    // check that already passed.
    assert(spec_map_stage(a, false, use_std3_ascii_rules) == Ok::<Seq<char>, char>(a));
    assert(nfc_seq(a) == a);
}

} // verus!
