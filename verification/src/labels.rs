//! Domain labels: splitting a domain at dots, joining labels back, and
//! the per-label validity criteria of TR46.
//!
//! A label is valid iff it equals its own NFC form; under hyphen
//! checking, it has no `-` in both third and fourth position and neither
//! starts nor ends with `-`; it contains no `.`; it does not begin with a
//! combining mark; every codepoint's mapping status is valid, or
//! deviation under nontransitional processing; and, under joiner checking
//! on a non-ASCII label, it satisfies the contextual joiner rules.

use vstd::prelude::*;

use crate::chars::all_ascii;
use crate::chars::chars_equal;
use crate::chars::clone_chars;
use crate::chars::push_chars;
use crate::chars::seq_ascii;
use crate::chars::sub_chars;
use crate::joiners::joiners_ok;
use crate::joiners::label_has_valid_joiners;
use crate::mapping::nfc_seq;
use crate::mapping::unicode_normalize_form_c;
use crate::unicode_data::CharMapping;
use crate::unicode_data::MappingView;
use crate::unicode_data::combining_mark;
use crate::unicode_data::is_mark;
use crate::unicode_data::lookup_mapping;
use crate::unicode_data::mapping_of;

verus! {

/// The length of the dot-free prefix of `s`: the index of the first `.`,
/// or the whole length.
pub open spec fn dot_free_len(s: Seq<char>) -> int
    decreases s.len(),
{
    if s.len() == 0 {
        0
    } else if s[0] == '.' {
        0
    } else {
        1 + dot_free_len(s.skip(1))
    }
}

/// The characteristic properties of `dot_free_len`.
pub proof fn lemma_dot_free_len(s: Seq<char>)
    ensures
        0 <= dot_free_len(s) <= s.len(),
        forall|k: int| 0 <= k < dot_free_len(s) ==> s[k] != '.',
        dot_free_len(s) < s.len() ==> s[dot_free_len(s)] == '.',
    decreases s.len(),
{
    if s.len() > 0 && s[0] != '.' {
        lemma_dot_free_len(s.skip(1));
        assert forall|k: int| 0 <= k < dot_free_len(s) implies s[k] != '.' by {
            if k > 0 {
                assert(s.skip(1)[k - 1] != '.');
            }
        }
    }
}

/// A position with the characteristic properties is `dot_free_len`.
pub proof fn lemma_dot_free_len_unique(s: Seq<char>, j: int)
    requires
        0 <= j <= s.len(),
        forall|k: int| 0 <= k < j ==> s[k] != '.',
        j < s.len() ==> s[j] == '.',
    ensures
        dot_free_len(s) == j,
    decreases s.len(),
{
    if s.len() == 0 {
    } else if s[0] == '.' {
        assert(j == 0);
    } else {
        assert(j > 0);
        assert forall|k: int| 0 <= k < j - 1 implies s.skip(1)[k] != '.' by {
            assert(s[k + 1] != '.');
        }
        assert(j - 1 < s.skip(1).len() ==> s.skip(1)[j - 1] == '.');
        lemma_dot_free_len_unique(s.skip(1), j - 1);
    }
}

/// A domain's labels: the text split at every `.`, separators dropped,
/// empty labels kept.
pub open spec fn spec_split_labels(s: Seq<char>) -> Seq<Seq<char>>
    decreases s.len(),
    via spec_split_labels_decreases
{
    let e = dot_free_len(s);
    if e >= s.len() {
        seq![s]
    } else {
        seq![s.subrange(0, e)] + spec_split_labels(s.subrange(e + 1, s.len() as int))
    }
}

#[via_fn]
proof fn spec_split_labels_decreases(s: Seq<char>) {
    lemma_dot_free_len(s);
}

/// Labels joined with `.` separators.
pub open spec fn join_dots(ls: Seq<Seq<char>>) -> Seq<char>
    decreases ls.len(),
{
    if ls.len() == 0 {
        Seq::empty()
    } else if ls.len() == 1 {
        ls[0]
    } else {
        ls[0] + seq!['.'] + join_dots(ls.skip(1))
    }
}

/// The label contains no dot.
pub open spec fn dot_free(l: Seq<char>) -> bool {
    forall|k: int| 0 <= k < l.len() ==> l[k] != '.'
}

/// Splitting at dots undoes joining dot-free labels.
pub proof fn lemma_split_join(ls: Seq<Seq<char>>)
    requires
        ls.len() > 0,
        forall|i: int| 0 <= i < ls.len() ==> dot_free(#[trigger] ls[i]),
    ensures
        spec_split_labels(join_dots(ls)) == ls,
    decreases ls.len(),
{
    let j = join_dots(ls);
    let l0 = ls[0];
    if ls.len() == 1 {
        assert(j == l0);
        assert(forall|k: int| 0 <= k < l0.len() ==> l0[k] != '.');
        lemma_dot_free_len_unique(j, j.len() as int);
        assert(spec_split_labels(j) =~= ls);
    } else {
        let rest = ls.skip(1);
        assert(j == l0 + seq!['.'] + join_dots(rest));
        assert forall|k: int| 0 <= k < l0.len() implies j[k] != '.' by {
            assert(j[k] == l0[k]);
        }
        assert(j[l0.len() as int] == '.');
        lemma_dot_free_len_unique(j, l0.len() as int);
        let e = dot_free_len(j);
        assert(e == l0.len());
        assert(e < j.len());
        assert(j.subrange(0, e) =~= l0);
        assert(j.subrange(e + 1, j.len() as int) =~= join_dots(rest));
        assert forall|i: int| 0 <= i < rest.len() implies dot_free(#[trigger] rest[i]) by {
            assert(dot_free(ls[i + 1]));
        }
        lemma_split_join(rest);
        assert(spec_split_labels(j) =~= seq![l0] + rest);
        assert(seq![l0] + rest =~= ls);
    }
}

/// The views of a vector of label vectors.
pub open spec fn views_of(parts: Seq<Vec<char>>) -> Seq<Seq<char>> {
    parts.map_values(|x: Vec<char>| x@)
}

/// Split a domain at every `.`, keeping empty labels.
pub fn split_labels(domain: &Vec<char>) -> (r: Vec<Vec<char>>)
    ensures
        views_of(r@) == spec_split_labels(domain@),
    decreases domain@.len(),
{
    let n = domain.len();
    let mut e: usize = 0;
    while e < n && domain[e] != '.'
        invariant
            0 <= e <= n == domain@.len(),
            forall|k: int| 0 <= k < e ==> domain@[k] != '.',
        decreases n - e,
    {
        e = e + 1;
    }
    proof {
        lemma_dot_free_len_unique(domain@, e as int);
    }
    if e == n {
        let mut out: Vec<Vec<char>> = Vec::new();
        out.push(clone_chars(domain));
        proof {
            assert(views_of(out@) =~= spec_split_labels(domain@));
        }
        out
    } else {
        let first = sub_chars(domain, 0, e);
        let restv = sub_chars(domain, e + 1, n);
        let mut tail = split_labels(&restv);
        let ghost pre = tail@;
        tail.insert(0, first);
        proof {
            assert(spec_split_labels(domain@) == seq![domain@.subrange(0, e as int)]
                + spec_split_labels(domain@.subrange(e + 1, domain@.len() as int)));
            lemma_views_insert0(pre, first);
            assert(views_of(tail@) =~= spec_split_labels(domain@));
        }
        tail
    }
}

/// Inserting a label at the front prepends its view.
pub proof fn lemma_views_insert0(s: Seq<Vec<char>>, x: Vec<char>)
    ensures
        views_of(s.insert(0, x)) == seq![x@] + views_of(s),
{
    let a = views_of(s.insert(0, x));
    let b = seq![x@] + views_of(s);
    assert forall|i: int| 0 <= i < a.len() implies a[i] == b[i] by {
        if i == 0 {
            assert(s.insert(0, x)[0] == x);
        } else {
            assert(s.insert(0, x)[i] == s[i - 1]);
        }
    }
    assert(a =~= b);
}

/// Join labels with `.` separators, starting at index `idx`.
pub fn join_labels_from(parts: &Vec<Vec<char>>, idx: usize) -> (r: Vec<char>)
    requires
        idx <= parts@.len(),
    ensures
        r@ == join_dots(views_of(parts@).skip(idx as int)),
    decreases parts@.len() - idx,
{
    let ghost vs = views_of(parts@).skip(idx as int);
    if idx == parts.len() {
        proof {
            assert(vs.len() == 0);
        }
        Vec::new()
    } else if idx + 1 == parts.len() {
        let out = clone_chars(&parts[idx]);
        proof {
            assert(vs.len() == 1);
            assert(vs[0] == parts@[idx as int]@);
        }
        out
    } else {
        let mut out = clone_chars(&parts[idx]);
        out.push('.');
        let rest = join_labels_from(parts, idx + 1);
        push_chars(&mut out, &rest);
        proof {
            assert(vs.len() >= 2);
            assert(vs[0] == parts@[idx as int]@);
            assert(vs.skip(1) =~= views_of(parts@).skip(idx + 1));
            assert(out@ =~= vs[0] + seq!['.'] + join_dots(vs.skip(1)));
        }
        out
    }
}

/// Join labels with `.` separators.
pub fn join_labels(parts: &Vec<Vec<char>>) -> (r: Vec<char>)
    ensures
        r@ == join_dots(views_of(parts@)),
{
    let out = join_labels_from(parts, 0);
    proof {
        assert(views_of(parts@).skip(0) =~= views_of(parts@));
    }
    out
}

/// The label starts with the ASCII-compatible-encoding prefix `xn--`.
pub open spec fn starts_xn(l: Seq<char>) -> bool {
    l.len() >= 4 && l[0] == 'x' && l[1] == 'n' && l[2] == '-' && l[3] == '-'
}

/// Some label of the list starts with `xn--`.
pub open spec fn has_xn_label(ls: Seq<Seq<char>>) -> bool {
    exists|i: int| 0 <= i < ls.len() && starts_xn(#[trigger] ls[i])
}

/// Whether the label starts with `xn--`.
pub fn starts_with_xn(l: &Vec<char>) -> (r: bool)
    ensures
        r == starts_xn(l@),
{
    l.len() >= 4 && l[0] == 'x' && l[1] == 'n' && l[2] == '-' && l[3] == '-'
}

/// A codepoint's mapping status passes label validity: valid, or
/// deviation under nontransitional processing.
pub open spec fn status_ok(c: char, transitional: bool) -> bool {
    mapping_of(c) is Valid || (mapping_of(c) is Deviation && !transitional)
}

/// The TR46 validity criteria on one label.
pub open spec fn spec_valid_label(l: Seq<char>, check_hyphens: bool, check_joiners: bool,
    transitional: bool) -> bool {
    &&& l == nfc_seq(l)
    &&& (check_hyphens ==> !(l.len() >= 4 && l[2] == '-' && l[3] == '-'))
    &&& (check_hyphens ==> !(l.len() > 0 && (l[0] == '-' || l[l.len() - 1] == '-')))
    &&& dot_free(l)
    &&& (l.len() > 0 ==> !combining_mark(l[0]))
    &&& (forall|i: int| 0 <= i < l.len() ==> status_ok(#[trigger] l[i], transitional))
    &&& ((check_joiners && !seq_ascii(l)) ==> joiners_ok(l))
}

/// Whether the label meets the TR46 validity criteria: NFC-stable, the
/// hyphen rules when asked, no stray dot, no leading combining mark,
/// acceptable mapping statuses, and the joiner rules when asked on a
/// non-ASCII label.
pub fn label_is_valid(label: &Vec<char>, check_hyphens: bool, check_joiners: bool,
    transitional_processing: bool) -> (r: bool)
    ensures
        r == spec_valid_label(label@, check_hyphens, check_joiners, transitional_processing),
{
    let normalized = unicode_normalize_form_c(label);
    if !chars_equal(label, &normalized) {
        return false;
    }
    let n = label.len();
    if check_hyphens && n >= 4 && label[2] == '-' && label[3] == '-' {
        return false;
    }
    if check_hyphens && n > 0 && (label[0] == '-' || label[n - 1] == '-') {
        return false;
    }
    let mut i: usize = 0;
    while i < n
        invariant
            n == label@.len(),
            0 <= i <= n,
            forall|k: int| 0 <= k < i ==> label@[k] != '.',
        decreases n - i,
    {
        if label[i] == '.' {
            return false;
        }
        i = i + 1;
    }
    if n > 0 && is_mark(label[0]) {
        return false;
    }
    let mut i: usize = 0;
    while i < n
        invariant
            n == label@.len(),
            0 <= i <= n,
            forall|k: int| 0 <= k < i ==> status_ok(#[trigger] label@[k], transitional_processing),
        decreases n - i,
    {
        match lookup_mapping(label[i]) {
            CharMapping::Valid => {},
            CharMapping::Deviation(_) => {
                if transitional_processing {
                    return false;
                }
            },
            _ => {
                return false;
            },
        }
        i = i + 1;
    }
    if check_joiners && !all_ascii(label) && !label_has_valid_joiners(label) {
        return false;
    }
    true
}

/// Hyphen rule: under hyphen checking, a label with `-` in both its
/// third and fourth positions is never valid. Without hyphen checking,
/// validity does not look at hyphens at all.
pub proof fn lemma_hyphen_rule(l: Seq<char>, check_joiners: bool, transitional: bool)
    requires
        l.len() >= 4,
        l[2] == '-',
        l[3] == '-',
    ensures
        !spec_valid_label(l, true, check_joiners, transitional),
{
}

} // verus!
