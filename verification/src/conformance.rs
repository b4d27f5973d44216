//! The IDNA conformance test-vector line format: fields separated by
//! `"; "`, seven per record. Comment lines start with `#` and blank lines
//! carry no record; both are for the harness to skip.

use vstd::prelude::*;

use crate::chars::clone_chars;
use crate::chars::sub_chars;

verus! {

/// The length of the separator-free prefix of `s`: the index of the
/// first `"; "`, or the whole length.
pub open spec fn field_end(s: Seq<char>) -> int
    decreases s.len(),
{
    if s.len() < 2 {
        s.len() as int
    } else if s[0] == ';' && s[1] == ' ' {
        0
    } else {
        1 + field_end(s.skip(1))
    }
}

/// The characteristic properties of `field_end`.
pub proof fn lemma_field_end(s: Seq<char>)
    ensures
        0 <= field_end(s) <= s.len(),
        forall|k: int| 0 <= k < field_end(s) && k + 1 < s.len() ==> !(#[trigger] s[k] == ';' && s[k + 1] == ' '),
        field_end(s) + 1 < s.len() ==> s[field_end(s)] == ';' && s[field_end(s) + 1] == ' ',
        field_end(s) < s.len() ==> field_end(s) + 1 < s.len(),
    decreases s.len(),
{
    if s.len() >= 2 && !(s[0] == ';' && s[1] == ' ') {
        lemma_field_end(s.skip(1));
        assert forall|k: int|
            0 <= k < field_end(s) && k + 1 < s.len() implies !(#[trigger] s[k] == ';' && s[k + 1]
            == ' ') by {
            if k > 0 {
                assert(!(s.skip(1)[k - 1] == ';' && s.skip(1)[k] == ' '));
            }
        }
    }
}

/// A position with the characteristic properties is `field_end`.
pub proof fn lemma_field_end_unique(s: Seq<char>, j: int)
    requires
        0 <= j <= s.len(),
        forall|k: int| 0 <= k < j && k + 1 < s.len() ==> !(#[trigger] s[k] == ';' && s[k + 1] == ' '),
        j + 1 < s.len() ==> s[j] == ';' && s[j + 1] == ' ',
        j < s.len() ==> j + 1 < s.len(),
    ensures
        field_end(s) == j,
    decreases s.len(),
{
    if s.len() < 2 {
        if s.len() == 1 {
            assert(j == 1);
        }
    } else if s[0] == ';' && s[1] == ' ' {
        assert(j == 0);
    } else {
        assert(j > 0);
        assert forall|k: int|
            0 <= k < j - 1 && k + 1 < s.skip(1).len() implies !(#[trigger] s.skip(1)[k] == ';'
            && s.skip(1)[k + 1] == ' ') by {
            assert(!(s[k + 1] == ';' && s[k + 2] == ' '));
        }
        lemma_field_end_unique(s.skip(1), j - 1);
    }
}

/// A record line's fields: the text split at every `"; "`.
pub open spec fn spec_split_fields(s: Seq<char>) -> Seq<Seq<char>>
    decreases s.len(),
    via spec_split_fields_decreases
{
    let e = field_end(s);
    if e >= s.len() {
        seq![s]
    } else {
        seq![s.subrange(0, e)] + spec_split_fields(s.subrange(e + 2, s.len() as int))
    }
}

#[via_fn]
proof fn spec_split_fields_decreases(s: Seq<char>) {
    lemma_field_end(s);
}

/// Split a test-vector record at every `"; "` separator.
pub fn split_record_fields(line: &Vec<char>) -> (r: Vec<Vec<char>>)
    ensures
        crate::labels::views_of(r@) == spec_split_fields(line@),
    decreases line@.len(),
{
    let n = line.len();
    let mut e: usize = 0;
    while e < n && !(e + 1 < n && line[e] == ';' && line[e + 1] == ' ')
        invariant
            0 <= e <= n == line@.len(),
            forall|k: int| 0 <= k < e && k + 1 < n ==> !(#[trigger] line@[k] == ';' && line@[k + 1] == ' '),
        decreases n - e,
    {
        e = e + 1;
    }
    proof {
        lemma_field_end_unique(line@, e as int);
    }
    if e == n {
        let mut out: Vec<Vec<char>> = Vec::new();
        out.push(clone_chars(line));
        proof {
            assert(crate::labels::views_of(out@) =~= spec_split_fields(line@));
        }
        out
    } else {
        let first = sub_chars(line, 0, e);
        let restv = sub_chars(line, e + 2, n);
        let mut tail = split_record_fields(&restv);
        let ghost pre = tail@;
        tail.insert(0, first);
        proof {
            assert(spec_split_fields(line@) == seq![line@.subrange(0, e as int)]
                + spec_split_fields(line@.subrange(e + 2, line@.len() as int)));
            crate::labels::lemma_views_insert0(pre, tail@[0]);
            assert(crate::labels::views_of(tail@) =~= spec_split_fields(line@));
        }
        tail
    }
}

} // verus!
