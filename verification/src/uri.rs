//! URI parsing per the RFC 3986 grammar.
//!
//! The parser recognises scheme, authority (userinfo, host, port), path,
//! query, and fragment. The host is resolved by ordered choice: a strict
//! IPv4 literal first (a valid IPv4 literal is also a syntactically valid
//! reg-name), then a generic reg-name, then a bracket-delimited IPv6
//! literal. With an authority present, the path is a `/`-rooted segment
//! list in which duplicate separators between segments collapse and
//! trailing separator runs are consumed; without one, the path is a
//! single opaque run of path characters.

use vstd::prelude::*;

use crate::ipv4::ipv4_at;
use crate::ipv4::lemma_ipv4_at_none_window;
use crate::ipv4::lemma_ipv4_at_window;
use crate::ipv4::lemma_ipv4_none_at_nondigit;
use crate::ipv4::lemma_ipv4_span;
use crate::ipv4::parse_ipv4_at;
use crate::ipv6::ipv6_at;
use crate::ipv6::parse_ipv6_at;
use crate::parse::ParseError;
use crate::parse::byte_at;
use crate::parse::dec_digits_end;
use crate::parse::dec_digits_of;
use crate::parse::lemma_dec_digits_of_digits;
use crate::parse::lemma_dec_digits_of_val;
use crate::parse::dec_run_u32;
use crate::parse::dec_run_val;
use crate::parse::has_byte;
use crate::parse::is_alpha;
use crate::parse::is_alphanumeric;
use crate::parse::lemma_scan_end;
use crate::parse::lemma_scan_end_unique;
use crate::parse::scan_digits;
use crate::parse::scan_end;
use crate::parse::spec_is_alpha;
use crate::parse::spec_is_alphanumeric;

verus! {

broadcast use vstd::slice::group_slice_axioms;

/// Characters allowed in a URI without a reserved meaning (RFC 3986
/// section 2.3): alphanumerics and `-`, `.`, `_`, `~`.
pub open spec fn spec_uri_unreserved_character(b: u8) -> bool {
    spec_is_alphanumeric(b) || b == 0x2D || b == 0x2E || b == 0x5F || b == 0x7E
}

/// URI sub-delimiters (RFC 3986 section 2.2).
pub open spec fn spec_uri_sub_delimeter(b: u8) -> bool {
    b == 0x21 || b == 0x24 || b == 0x26 || b == 0x27 || b == 0x28 || b == 0x29 || b == 0x2A || b
        == 0x2B || b == 0x2C || b == 0x3B || b == 0x3D
}

/// `%`, allowed where a percent-encoded character may stand.
pub open spec fn spec_uri_encoded_character(b: u8) -> bool {
    b == 0x25
}

pub fn uri_unreserved_character(b: u8) -> (r: bool)
    ensures
        r == spec_uri_unreserved_character(b),
{
    is_alphanumeric(b) || b == 0x2D || b == 0x2E || b == 0x5F || b == 0x7E
}

pub fn uri_sub_delimeter(b: u8) -> (r: bool)
    ensures
        r == spec_uri_sub_delimeter(b),
{
    b == 0x21 || b == 0x24 || b == 0x26 || b == 0x27 || b == 0x28 || b == 0x29 || b == 0x2A || b
        == 0x2B || b == 0x2C || b == 0x3B || b == 0x3D
}

pub fn uri_encoded_character(b: u8) -> (r: bool)
    ensures
        r == spec_uri_encoded_character(b),
{
    b == 0x25
}

/// A character of a scheme: alphanumeric or `+`, `-`, `.` (RFC 3986
/// section 3.1).
pub open spec fn spec_scheme_character(b: u8) -> bool {
    spec_is_alphanumeric(b) || b == 0x2B || b == 0x2D || b == 0x2E
}

/// A character of the userinfo subcomponent (RFC 3986 section 3.2.1).
pub open spec fn spec_user_info_character(b: u8) -> bool {
    spec_uri_unreserved_character(b) || spec_uri_encoded_character(b) || spec_uri_sub_delimeter(b)
        || b == 0x3A
}

/// A character of a reg-name host (RFC 3986 section 3.2.2).
pub open spec fn spec_reg_name_character(b: u8) -> bool {
    spec_uri_unreserved_character(b) || spec_uri_encoded_character(b) || spec_uri_sub_delimeter(b)
}

/// A character of a path segment (RFC 3986 section 3.3).
pub open spec fn spec_path_segment_character(b: u8) -> bool {
    spec_uri_unreserved_character(b) || spec_uri_sub_delimeter(b) || spec_uri_encoded_character(b)
        || b == 0x3A || b == 0x40
}

/// A character of a query or fragment (RFC 3986 sections 3.4, 3.5).
pub open spec fn spec_query_character(b: u8) -> bool {
    spec_path_segment_character(b) || b == 0x2F || b == 0x3F
}

/// A URI scheme's text.
#[derive(PartialEq, Eq, Debug, Clone)]
pub struct Scheme(pub Vec<u8>);

impl Scheme {
    /// A character valid in a scheme: alphanumeric or `+`, `-`, `.`.
    pub fn valid_character(i: u8) -> (r: bool)
        ensures
            r == spec_scheme_character(i),
    {
        is_alphanumeric(i) || i == 0x2B || i == 0x2D || i == 0x2E
    }
}

/// A URI userinfo subcomponent's text.
#[derive(PartialEq, Eq, Debug, Clone)]
pub struct UserInfo(pub Vec<u8>);

impl UserInfo {
    /// A character valid in userinfo: unreserved, percent, sub-delimiter,
    /// or `:`.
    pub fn valid_character(i: u8) -> (r: bool)
        ensures
            r == spec_user_info_character(i),
    {
        uri_unreserved_character(i) || uri_encoded_character(i) || uri_sub_delimeter(i) || i
            == 0x3A
    }
}

/// A URI host's text, brackets included for an IPv6 literal.
#[derive(PartialEq, Eq, Debug, Clone)]
pub struct Host(pub Vec<u8>);

impl Host {
    /// A character valid in a reg-name host: unreserved, percent, or
    /// sub-delimiter.
    pub fn valid_reg_name_character(i: u8) -> (r: bool)
        ensures
            r == spec_reg_name_character(i),
    {
        uri_unreserved_character(i) || uri_encoded_character(i) || uri_sub_delimeter(i)
    }
}

/// A URI port, exactly as written.
#[derive(PartialEq, Eq, Debug, Clone, Copy)]
pub struct Port(pub u32);

/// A URI path's text, as consumed.
#[derive(PartialEq, Eq, Debug, Clone)]
pub struct Path(pub Vec<u8>);

impl Path {
    /// A character valid in a path segment: unreserved, sub-delimiter,
    /// percent, `:`, or `@`.
    pub fn valid_path_segment_char(i: u8) -> (r: bool)
        ensures
            r == spec_path_segment_character(i),
    {
        uri_unreserved_character(i) || uri_sub_delimeter(i) || uri_encoded_character(i) || i
            == 0x3A || i == 0x40
    }
}

/// A URI query's text.
#[derive(PartialEq, Eq, Debug, Clone)]
pub struct Query(pub Vec<u8>);

impl Query {
    /// A character valid in a query: a path-segment character, `/`, or
    /// `?`.
    pub fn valid_query_char(i: u8) -> (r: bool)
        ensures
            r == spec_query_character(i),
    {
        Path::valid_path_segment_char(i) || i == 0x2F || i == 0x3F
    }
}

/// A URI fragment's text.
#[derive(PartialEq, Eq, Debug, Clone)]
pub struct Fragment(pub Vec<u8>);

impl Fragment {
    /// A character valid in a fragment: a path-segment character, `/`,
    /// or `?`.
    pub fn valid_query_char(i: u8) -> (r: bool)
        ensures
            r == spec_query_character(i),
    {
        Path::valid_path_segment_char(i) || i == 0x2F || i == 0x3F
    }
}

fn is_slash(i: u8) -> (r: bool)
    ensures
        r == (i == 0x2F),
{
    i == 0x2F
}

/// Where the run of scheme characters starting at `i` ends.
pub open spec fn scheme_chars_end(s: Seq<u8>, i: int) -> int {
    scan_end(s, i, |b: u8| spec_scheme_character(b))
}

/// Where the run of userinfo characters starting at `i` ends.
pub open spec fn user_info_chars_end(s: Seq<u8>, i: int) -> int {
    scan_end(s, i, |b: u8| spec_user_info_character(b))
}

/// Where the run of reg-name characters starting at `i` ends.
pub open spec fn reg_name_chars_end(s: Seq<u8>, i: int) -> int {
    scan_end(s, i, |b: u8| spec_reg_name_character(b))
}

/// Where the run of path-segment characters starting at `i` ends.
pub open spec fn path_chars_end(s: Seq<u8>, i: int) -> int {
    scan_end(s, i, |b: u8| spec_path_segment_character(b))
}

/// Where the run of query characters starting at `i` ends.
pub open spec fn query_chars_end(s: Seq<u8>, i: int) -> int {
    scan_end(s, i, |b: u8| spec_query_character(b))
}

/// Where the run of `/` separators starting at `i` ends.
pub open spec fn slashes_end(s: Seq<u8>, i: int) -> int {
    scan_end(s, i, |b: u8| b == 0x2F)
}

fn scan_scheme_chars(s: &[u8], pos: usize) -> (r: usize)
    requires
        pos <= s@.len(),
    ensures
        pos <= r <= s@.len(),
        r == scheme_chars_end(s@, pos as int),
        r < s@.len() ==> !spec_scheme_character(s@[r as int]),
{
    let mut j: usize = pos;
    while j < s.len() && Scheme::valid_character(*vstd::slice::slice_index_get(s, j))
        invariant
            pos <= j <= s@.len(),
            forall|k: int| pos <= k < j ==> spec_scheme_character(#[trigger] s@[k]),
        decreases s@.len() - j,
    {
        j = j + 1;
    }
    proof {
        let p = |b: u8| spec_scheme_character(b);
        assert forall|k: int| pos <= k < j implies p(s@[k]) by {
            assert(spec_scheme_character(s@[k]));
        }
        assert(j < s@.len() ==> !p(s@[j as int]));
        lemma_scan_end_unique(s@, pos as int, p, j as int);
    }
    j
}

fn scan_user_info_chars(s: &[u8], pos: usize) -> (r: usize)
    requires
        pos <= s@.len(),
    ensures
        pos <= r <= s@.len(),
        r == user_info_chars_end(s@, pos as int),
        r < s@.len() ==> !spec_user_info_character(s@[r as int]),
{
    let mut j: usize = pos;
    while j < s.len() && UserInfo::valid_character(*vstd::slice::slice_index_get(s, j))
        invariant
            pos <= j <= s@.len(),
            forall|k: int| pos <= k < j ==> spec_user_info_character(#[trigger] s@[k]),
        decreases s@.len() - j,
    {
        j = j + 1;
    }
    proof {
        let p = |b: u8| spec_user_info_character(b);
        assert forall|k: int| pos <= k < j implies p(s@[k]) by {
            assert(spec_user_info_character(s@[k]));
        }
        assert(j < s@.len() ==> !p(s@[j as int]));
        lemma_scan_end_unique(s@, pos as int, p, j as int);
    }
    j
}

fn scan_reg_name_chars(s: &[u8], pos: usize) -> (r: usize)
    requires
        pos <= s@.len(),
    ensures
        pos <= r <= s@.len(),
        r == reg_name_chars_end(s@, pos as int),
        r < s@.len() ==> !spec_reg_name_character(s@[r as int]),
{
    let mut j: usize = pos;
    while j < s.len() && Host::valid_reg_name_character(*vstd::slice::slice_index_get(s, j))
        invariant
            pos <= j <= s@.len(),
            forall|k: int| pos <= k < j ==> spec_reg_name_character(#[trigger] s@[k]),
        decreases s@.len() - j,
    {
        j = j + 1;
    }
    proof {
        let p = |b: u8| spec_reg_name_character(b);
        assert forall|k: int| pos <= k < j implies p(s@[k]) by {
            assert(spec_reg_name_character(s@[k]));
        }
        assert(j < s@.len() ==> !p(s@[j as int]));
        lemma_scan_end_unique(s@, pos as int, p, j as int);
    }
    j
}

fn scan_path_chars(s: &[u8], pos: usize) -> (r: usize)
    requires
        pos <= s@.len(),
    ensures
        pos <= r <= s@.len(),
        r == path_chars_end(s@, pos as int),
        r < s@.len() ==> !spec_path_segment_character(s@[r as int]),
{
    let mut j: usize = pos;
    while j < s.len() && Path::valid_path_segment_char(*vstd::slice::slice_index_get(s, j))
        invariant
            pos <= j <= s@.len(),
            forall|k: int| pos <= k < j ==> spec_path_segment_character(#[trigger] s@[k]),
        decreases s@.len() - j,
    {
        j = j + 1;
    }
    proof {
        let p = |b: u8| spec_path_segment_character(b);
        assert forall|k: int| pos <= k < j implies p(s@[k]) by {
            assert(spec_path_segment_character(s@[k]));
        }
        assert(j < s@.len() ==> !p(s@[j as int]));
        lemma_scan_end_unique(s@, pos as int, p, j as int);
    }
    j
}

fn scan_query_chars(s: &[u8], pos: usize) -> (r: usize)
    requires
        pos <= s@.len(),
    ensures
        pos <= r <= s@.len(),
        r == query_chars_end(s@, pos as int),
        r < s@.len() ==> !spec_query_character(s@[r as int]),
{
    let mut j: usize = pos;
    while j < s.len() && Query::valid_query_char(*vstd::slice::slice_index_get(s, j))
        invariant
            pos <= j <= s@.len(),
            forall|k: int| pos <= k < j ==> spec_query_character(#[trigger] s@[k]),
        decreases s@.len() - j,
    {
        j = j + 1;
    }
    proof {
        let p = |b: u8| spec_query_character(b);
        assert forall|k: int| pos <= k < j implies p(s@[k]) by {
            assert(spec_query_character(s@[k]));
        }
        assert(j < s@.len() ==> !p(s@[j as int]));
        lemma_scan_end_unique(s@, pos as int, p, j as int);
    }
    j
}

fn scan_slashes(s: &[u8], pos: usize) -> (r: usize)
    requires
        pos <= s@.len(),
    ensures
        pos <= r <= s@.len(),
        r == slashes_end(s@, pos as int),
        r < s@.len() ==> s@[r as int] != 0x2F,
{
    let mut j: usize = pos;
    while j < s.len() && is_slash(*vstd::slice::slice_index_get(s, j))
        invariant
            pos <= j <= s@.len(),
            forall|k: int| pos <= k < j ==> s@[k] == 0x2F,
        decreases s@.len() - j,
    {
        j = j + 1;
    }
    proof {
        let p = |b: u8| b == 0x2F;
        assert forall|k: int| pos <= k < j implies p(s@[k]) by {
            assert(s@[k] == 0x2F);
        }
        assert(j < s@.len() ==> !p(s@[j as int]));
        lemma_scan_end_unique(s@, pos as int, p, j as int);
    }
    j
}

/// A scheme at position `i`: a letter followed by a run of scheme
/// characters, terminated by `:`. Yields the position after the colon
/// and the scheme text. An empty run, or one that does not begin with an
/// ASCII letter, is no scheme.
pub open spec fn scheme_at(s: Seq<u8>, i: int) -> Option<(int, Seq<u8>)>
    recommends
        0 <= i <= s.len(),
{
    let e = scheme_chars_end(s, i);
    if e > i && spec_is_alpha(s[i]) && byte_at(s, e, 0x3A) {
        Some((e + 1, s.subrange(i, e)))
    } else {
        None
    }
}

/// A userinfo subcomponent at position `i`: a possibly empty run of
/// userinfo characters terminated by `@`.
pub open spec fn user_info_at(s: Seq<u8>, i: int) -> Option<(int, Seq<u8>)>
    recommends
        0 <= i <= s.len(),
{
    let e = user_info_chars_end(s, i);
    if byte_at(s, e, 0x40) {
        Some((e + 1, s.subrange(i, e)))
    } else {
        None
    }
}

/// A host at position `i`, by ordered choice: a strict IPv4 literal, a
/// nonempty reg-name, or a bracketed IPv6 literal. Yields the matched
/// text, brackets included for the IPv6 form.
pub open spec fn host_at(s: Seq<u8>, i: int) -> Option<(int, Seq<u8>)>
    recommends
        0 <= i <= s.len(),
{
    if ipv4_at(s, i) is Some {
        let (e, _addr) = ipv4_at(s, i)->Some_0;
        Some((e, s.subrange(i, e)))
    } else {
        let e = reg_name_chars_end(s, i);
        if e > i {
            Some((e, s.subrange(i, e)))
        } else if byte_at(s, i, 0x5B) && ipv6_at(s, i + 1) is Some {
            let (e6, _addr) = ipv6_at(s, i + 1)->Some_0;
            if byte_at(s, e6, 0x5D) {
                Some((e6 + 1, s.subrange(i, e6 + 1)))
            } else {
                None
            }
        } else {
            None
        }
    }
}

/// A port at position `i`: `:` followed by at least one digit, read as a
/// `u32`. An empty or overflowing digit run yields no port.
pub open spec fn port_at(s: Seq<u8>, i: int) -> Option<(int, u32)>
    recommends
        0 <= i <= s.len(),
{
    if !byte_at(s, i, 0x3A) {
        None
    } else {
        let e = dec_digits_end(s, i + 1);
        if e == i + 1 || dec_run_val(s, i + 1, e) > u32::MAX {
            None
        } else {
            Some((e, dec_run_val(s, i + 1, e) as u32))
        }
    }
}

/// The authority of a parsed URI.
pub struct AuthorityView {
    pub user_info: Option<Seq<u8>>,
    pub host: Option<Seq<u8>>,
    pub port: Option<u32>,
}

/// An authority at position `i`: `//` followed by optional userinfo,
/// optional host, and optional port.
pub open spec fn authority_at(s: Seq<u8>, i: int) -> Option<(int, AuthorityView)>
    recommends
        0 <= i <= s.len(),
{
    if !(byte_at(s, i, 0x2F) && byte_at(s, i + 1, 0x2F)) {
        None
    } else {
        let (p1, ui) = match user_info_at(s, i + 2) {
            None => (i + 2, None::<Seq<u8>>),
            Some((p, t)) => (p, Some(t)),
        };
        let (p2, h) = match host_at(s, p1) {
            None => (p1, None::<Seq<u8>>),
            Some((p, t)) => (p, Some(t)),
        };
        let (p3, pt) = match port_at(s, p2) {
            None => (p2, None::<u32>),
            Some((p, v)) => (p, Some(v)),
        };
        Some((p3, AuthorityView { user_info: ui, host: h, port: pt }))
    }
}

/// Where a `/`-rooted path ends: alternating runs of separators and
/// segment characters, consuming a trailing separator run.
pub open spec fn path_end(s: Seq<u8>, i: int) -> int
    decreases s.len() - i,
    when 0 <= i <= s.len()
    via path_end_decreases
{
    let j = slashes_end(s, i);
    if j == i {
        i
    } else {
        let k = path_chars_end(s, j);
        if k == j {
            j
        } else {
            path_end(s, k)
        }
    }
}

#[via_fn]
proof fn path_end_decreases(s: Seq<u8>, i: int) {
    lemma_scan_end(s, i, |b: u8| b == 0x2F);
    let j = slashes_end(s, i);
    if j != i {
        lemma_scan_end(s, j, |b: u8| spec_path_segment_character(b));
    }
}

/// A query at position `i`: `?` followed by a possibly empty run of
/// query characters.
pub open spec fn query_at(s: Seq<u8>, i: int) -> Option<(int, Seq<u8>)>
    recommends
        0 <= i <= s.len(),
{
    if !byte_at(s, i, 0x3F) {
        None
    } else {
        let e = query_chars_end(s, i + 1);
        Some((e, s.subrange(i + 1, e)))
    }
}

/// A fragment at position `i`: `#` followed by a possibly empty run of
/// query characters.
pub open spec fn fragment_at(s: Seq<u8>, i: int) -> Option<(int, Seq<u8>)>
    recommends
        0 <= i <= s.len(),
{
    if !byte_at(s, i, 0x23) {
        None
    } else {
        let e = query_chars_end(s, i + 1);
        Some((e, s.subrange(i + 1, e)))
    }
}

/// A parsed URI, as its components' text.
pub struct UriView {
    pub scheme: Seq<u8>,
    pub authority: Option<AuthorityView>,
    pub path: Seq<u8>,
    pub query: Option<Seq<u8>>,
    pub fragment: Option<Seq<u8>>,
}

/// A URI at position `i`: scheme, optional authority, path (rooted when
/// an authority is present, a single opaque run otherwise), optional
/// query, optional fragment.
pub open spec fn uri_at(s: Seq<u8>, i: int) -> Option<(int, UriView)>
    recommends
        0 <= i <= s.len(),
{
    match scheme_at(s, i) {
        None => None,
        Some((p1, sch)) => {
            let (p2, auth) = match authority_at(s, p1) {
                None => (p1, None::<AuthorityView>),
                Some((p, a)) => (p, Some(a)),
            };
            let (p3, path) = if auth is Some {
                (path_end(s, p2), s.subrange(p2, path_end(s, p2)))
            } else {
                (path_chars_end(s, p2), s.subrange(p2, path_chars_end(s, p2)))
            };
            let (p4, q) = match query_at(s, p3) {
                None => (p3, None::<Seq<u8>>),
                Some((p, t)) => (p, Some(t)),
            };
            let (p5, f) = match fragment_at(s, p4) {
                None => (p4, None::<Seq<u8>>),
                Some((p, t)) => (p, Some(t)),
            };
            Some((p5, UriView { scheme: sch, authority: auth, path, query: q, fragment: f }))
        },
    }
}

/// Where the run of non-separator bytes starting at `i` ends.
pub open spec fn non_slash_end(s: Seq<u8>, i: int) -> int {
    scan_end(s, i, |b: u8| b != 0x2F)
}

fn scan_non_slash(s: &[u8], pos: usize) -> (r: usize)
    requires
        pos <= s@.len(),
    ensures
        pos <= r <= s@.len(),
        r == non_slash_end(s@, pos as int),
{
    let mut j: usize = pos;
    while j < s.len() && !is_slash(*vstd::slice::slice_index_get(s, j))
        invariant
            pos <= j <= s@.len(),
            forall|k: int| pos <= k < j ==> s@[k] != 0x2F,
        decreases s@.len() - j,
    {
        j = j + 1;
    }
    proof {
        let p = |b: u8| b != 0x2F;
        assert forall|k: int| pos <= k < j implies p(s@[k]) by {
            assert(s@[k] != 0x2F);
        }
        assert(j < s@.len() ==> !p(s@[j as int]));
        lemma_scan_end_unique(s@, pos as int, p, j as int);
    }
    j
}

/// A path's text split at `/` separators, starting from position `i`.
pub open spec fn split_slash_from(p: Seq<u8>, i: int) -> Seq<Seq<u8>>
    decreases p.len() - i,
    when 0 <= i <= p.len()
    via split_slash_from_decreases
{
    let e = non_slash_end(p, i);
    if e >= p.len() {
        seq![p.subrange(i, p.len() as int)]
    } else {
        seq![p.subrange(i, e)] + split_slash_from(p, e + 1)
    }
}

#[via_fn]
proof fn split_slash_from_decreases(p: Seq<u8>, i: int) {
    lemma_scan_end(p, i, |b: u8| b != 0x2F);
}

/// A path segment is presented only when nonempty and not `.`.
pub open spec fn spec_keep_segment(t: Seq<u8>) -> bool {
    t.len() > 0 && t != seq![0x2Eu8]
}

/// The segments of a split path that the presentation filter keeps.
pub open spec fn keep_segments(parts: Seq<Seq<u8>>) -> Seq<Seq<u8>>
    decreases parts.len(),
{
    if parts.len() == 0 {
        Seq::empty()
    } else if spec_keep_segment(parts[0]) {
        seq![parts[0]] + keep_segments(parts.skip(1))
    } else {
        keep_segments(parts.skip(1))
    }
}

/// The presented segments of a path: split at `/`, dropping empty and
/// `.` segments.
pub open spec fn spec_path_segments(p: Seq<u8>) -> Seq<Seq<u8>> {
    keep_segments(split_slash_from(p, 0))
}

/// Copy the byte range `[from, to)` of `s` into a new vector.
fn sub_bytes(s: &[u8], from: usize, to: usize) -> (r: Vec<u8>)
    requires
        from <= to <= s@.len(),
    ensures
        r@ == s@.subrange(from as int, to as int),
{
    vstd::slice::slice_to_vec(vstd::slice::slice_subrange(s, from, to))
}

proof fn lemma_map_values_insert0(s: Seq<Vec<u8>>, x: Vec<u8>)
    ensures
        s.insert(0, x).map_values(|v: Vec<u8>| v@) == seq![x@] + s.map_values(|v: Vec<u8>| v@),
{
    let f = |v: Vec<u8>| v@;
    let a = s.insert(0, x).map_values(f);
    let b = seq![x@] + s.map_values(f);
    assert forall|i: int| 0 <= i < a.len() implies a[i] == b[i] by {
        if i == 0 {
            assert(s.insert(0, x)[0] == x);
        } else {
            assert(s.insert(0, x)[i] == s[i - 1]);
        }
    }
    assert(a =~= b);
}

fn collect_segments(v: &[u8], pos: usize) -> (r: Vec<Vec<u8>>)
    requires
        pos <= v@.len(),
    ensures
        r@.map_values(|x: Vec<u8>| x@) == keep_segments(split_slash_from(v@, pos as int)),
    decreases v@.len() - pos,
{
    let e = scan_non_slash(v, pos);
    let seg = sub_bytes(v, pos, e);
    let keep = seg.len() > 0 && !(seg.len() == 1 && *vstd::slice::slice_index_get(
        seg.as_slice(),
        0,
    ) == 0x2E);
    proof {
        if seg@.len() == 1 && seg@[0] == 0x2E {
            assert(seg@ =~= seq![0x2Eu8]);
        }
        if seg@ == seq![0x2Eu8] {
            assert(seg@.len() == 1 && seg@[0] == 0x2E);
        }
        assert(keep == spec_keep_segment(seg@));
    }
    if e == v.len() {
        let ghost parts = split_slash_from(v@, pos as int);
        proof {
            assert(parts == seq![seg@]);
            assert(seq![seg@].skip(1) =~= Seq::<Seq<u8>>::empty());
            reveal_with_fuel(keep_segments, 2);
        }
        let mut out: Vec<Vec<u8>> = Vec::new();
        if keep {
            out.push(seg);
            proof {
                assert(out@ =~= seq![seg]);
                assert(out@.map_values(|x: Vec<u8>| x@) =~= seq![seg@]);
                assert(keep_segments(parts) == seq![seg@] + keep_segments(seq![seg@].skip(1)));
                assert(keep_segments(parts) =~= seq![seg@]);
            }
        } else {
            proof {
                assert(out@.map_values(|x: Vec<u8>| x@) =~= Seq::<Seq<u8>>::empty());
                assert(keep_segments(parts) =~= Seq::<Seq<u8>>::empty());
            }
        }
        out
    } else {
        let mut rest = collect_segments(v, e + 1);
        let ghost parts = split_slash_from(v@, pos as int);
        let ghost tailparts = split_slash_from(v@, e + 1);
        let ghost pre = rest@;
        proof {
            assert(parts == seq![seg@] + tailparts);
            assert((seq![seg@] + tailparts)[0] == seg@);
            assert((seq![seg@] + tailparts).skip(1) =~= tailparts);
        }
        if keep {
            rest.insert(0, seg);
            proof {
                assert(keep_segments(parts) == seq![seg@] + keep_segments(tailparts));
                lemma_map_values_insert0(pre, seg);
                assert(rest@ == pre.insert(0, seg));
            }
        } else {
            proof {
                assert(keep_segments(parts) == keep_segments(tailparts));
            }
        }
        rest
    }
}

impl View for Scheme {
    type V = Seq<u8>;

    open spec fn view(&self) -> Seq<u8> {
        self.0@
    }
}

impl View for UserInfo {
    type V = Seq<u8>;

    open spec fn view(&self) -> Seq<u8> {
        self.0@
    }
}

impl View for Host {
    type V = Seq<u8>;

    open spec fn view(&self) -> Seq<u8> {
        self.0@
    }
}

impl View for Path {
    type V = Seq<u8>;

    open spec fn view(&self) -> Seq<u8> {
        self.0@
    }
}

impl View for Query {
    type V = Seq<u8>;

    open spec fn view(&self) -> Seq<u8> {
        self.0@
    }
}

impl View for Fragment {
    type V = Seq<u8>;

    open spec fn view(&self) -> Seq<u8> {
        self.0@
    }
}

impl Scheme {
    /// Parse a URI scheme starting at `pos`: a letter, then scheme
    /// characters, then `:`.
    pub fn parse(s: &[u8], pos: usize) -> (r: Option<(usize, Scheme)>)
        requires
            pos <= s@.len(),
        ensures
            match r {
                Some(rv) => scheme_at(s@, pos as int) == Some((rv.0 as int, rv.1@)) && pos <= rv.0
                    <= s@.len(),
                None => scheme_at(s@, pos as int) is None,
            },
    {
        let e = scan_scheme_chars(s, pos);
        if e > pos && is_alpha(*vstd::slice::slice_index_get(s, pos)) && has_byte(s, e, 0x3A) {
            Some((e + 1, Scheme(sub_bytes(s, pos, e))))
        } else {
            None
        }
    }
}

impl UserInfo {
    /// Parse a userinfo subcomponent terminated by `@` starting at `pos`.
    pub fn parse(s: &[u8], pos: usize) -> (r: Option<(usize, UserInfo)>)
        requires
            pos <= s@.len(),
        ensures
            match r {
                Some(rv) => user_info_at(s@, pos as int) == Some((rv.0 as int, rv.1@)) && pos
                    <= rv.0 <= s@.len(),
                None => user_info_at(s@, pos as int) is None,
            },
    {
        let e = scan_user_info_chars(s, pos);
        if has_byte(s, e, 0x40) {
            Some((e + 1, UserInfo(sub_bytes(s, pos, e))))
        } else {
            None
        }
    }
}

impl Host {
    /// Parse a host starting at `pos`: a strict IPv4 literal first, then
    /// a nonempty reg-name, then a bracketed IPv6 literal.
    pub fn parse(s: &[u8], pos: usize) -> (r: Option<(usize, Host)>)
        requires
            pos <= s@.len(),
        ensures
            match r {
                Some(rv) => host_at(s@, pos as int) == Some((rv.0 as int, rv.1@)) && pos <= rv.0
                    <= s@.len(),
                None => host_at(s@, pos as int) is None,
            },
    {
        if let Some((e, _addr)) = parse_ipv4_at(s, pos) {
            return Some((e, Host(sub_bytes(s, pos, e))));
        }
        let e = scan_reg_name_chars(s, pos);
        if e > pos {
            return Some((e, Host(sub_bytes(s, pos, e))));
        }
        if has_byte(s, pos, 0x5B) {
            if let Some((e6, _addr)) = parse_ipv6_at(s, pos + 1) {
                if has_byte(s, e6, 0x5D) {
                    return Some((e6 + 1, Host(sub_bytes(s, pos, e6 + 1))));
                }
            }
        }
        None
    }
}

impl Port {
    /// Parse a port starting at `pos`: `:` followed by at least one
    /// digit. An empty or overflowing digit run yields no port.
    pub fn parse(s: &[u8], pos: usize) -> (r: Option<(usize, Port)>)
        requires
            pos <= s@.len(),
        ensures
            match r {
                Some(rv) => port_at(s@, pos as int) == Some((rv.0 as int, rv.1.0)) && pos <= rv.0
                    <= s@.len(),
                None => port_at(s@, pos as int) is None,
            },
    {
        if !has_byte(s, pos, 0x3A) {
            return None;
        }
        let e = scan_digits(s, pos + 1);
        if e == pos + 1 {
            return None;
        }
        match dec_run_u32(s, pos + 1, e) {
            None => None,
            Some(v) => Some((e, Port(v))),
        }
    }
}

/// The authority component of a URI: optional userinfo, host, and port.
#[derive(PartialEq, Eq, Debug, Clone)]
pub struct Authority {
    pub user_info: Option<UserInfo>,
    pub host: Option<Host>,
    pub port: Option<Port>,
}

impl View for Authority {
    type V = AuthorityView;

    open spec fn view(&self) -> AuthorityView {
        AuthorityView {
            user_info: match self.user_info {
                Some(u) => Some(u@),
                None => None,
            },
            host: match self.host {
                Some(h) => Some(h@),
                None => None,
            },
            port: match self.port {
                Some(p) => Some(p.0),
                None => None,
            },
        }
    }
}

impl Authority {
    /// Build an authority from its components' text.
    pub fn new(user_info: Option<Vec<u8>>, host: Option<Vec<u8>>, port: Option<u32>) -> (r:
        Authority)
        ensures
            r@ == (AuthorityView {
                user_info: match user_info {
                    Some(u) => Some(u@),
                    None => None,
                },
                host: match host {
                    Some(h) => Some(h@),
                    None => None,
                },
                port,
            }),
    {
        Authority {
            user_info: match user_info {
                Some(u) => Some(UserInfo(u)),
                None => None,
            },
            host: match host {
                Some(h) => Some(Host(h)),
                None => None,
            },
            port: match port {
                Some(p) => Some(Port(p)),
                None => None,
            },
        }
    }

    /// Parse an authority starting at `pos`: `//` then optional
    /// userinfo, host, and port.
    pub fn parse(s: &[u8], pos: usize) -> (r: Option<(usize, Authority)>)
        requires
            pos <= s@.len(),
        ensures
            match r {
                Some(rv) => authority_at(s@, pos as int) == Some((rv.0 as int, rv.1@)) && pos
                    <= rv.0 <= s@.len(),
                None => authority_at(s@, pos as int) is None,
            },
    {
        if !has_byte(s, pos, 0x2F) {
            return None;
        }
        if !has_byte(s, pos + 1, 0x2F) {
            return None;
        }
        let (p1, ui) = match UserInfo::parse(s, pos + 2) {
            None => (pos + 2, None),
            Some((p, u)) => (p, Some(u)),
        };
        let (p2, h) = match Host::parse(s, p1) {
            None => (p1, None),
            Some((p, x)) => (p, Some(x)),
        };
        let (p3, pt) = match Port::parse(s, p2) {
            None => (p2, None),
            Some((p, x)) => (p, Some(x)),
        };
        Some((p3, Authority { user_info: ui, host: h, port: pt }))
    }
}

fn skip_path(s: &[u8], pos: usize) -> (r: usize)
    requires
        pos <= s@.len(),
    ensures
        pos <= r <= s@.len(),
        r == path_end(s@, pos as int),
    decreases s@.len() - pos,
{
    let j = scan_slashes(s, pos);
    if j == pos {
        return pos;
    }
    let k = scan_path_chars(s, j);
    if k == j {
        return j;
    }
    skip_path(s, k)
}

impl Path {
    /// Parse a `/`-rooted path starting at `pos`. Never fails; consumes
    /// alternating separator runs and segments, including a trailing
    /// separator run.
    pub fn parse(s: &[u8], pos: usize) -> (r: (usize, Path))
        requires
            pos <= s@.len(),
        ensures
            r.0 == path_end(s@, pos as int),
            pos <= r.0 <= s@.len(),
            r.1@ == s@.subrange(pos as int, r.0 as int),
    {
        let e = skip_path(s, pos);
        (e, Path(sub_bytes(s, pos, e)))
    }

    /// The presented segments of the path: split at `/`, dropping empty
    /// and `.` segments.
    pub fn iterate(&self) -> (r: Vec<Vec<u8>>)
        ensures
            r@.map_values(|x: Vec<u8>| x@) == spec_path_segments(self@),
    {
        collect_segments(self.0.as_slice(), 0)
    }
}

impl Query {
    /// Parse a query starting at `pos`: `?` then a run of query
    /// characters.
    pub fn parse(s: &[u8], pos: usize) -> (r: Option<(usize, Query)>)
        requires
            pos <= s@.len(),
        ensures
            match r {
                Some(rv) => query_at(s@, pos as int) == Some((rv.0 as int, rv.1@)) && pos <= rv.0
                    <= s@.len(),
                None => query_at(s@, pos as int) is None,
            },
    {
        if !has_byte(s, pos, 0x3F) {
            return None;
        }
        let e = scan_query_chars(s, pos + 1);
        Some((e, Query(sub_bytes(s, pos + 1, e))))
    }
}

impl Fragment {
    /// Parse a fragment starting at `pos`: `#` then a run of query
    /// characters.
    pub fn parse(s: &[u8], pos: usize) -> (r: Option<(usize, Fragment)>)
        requires
            pos <= s@.len(),
        ensures
            match r {
                Some(rv) => fragment_at(s@, pos as int) == Some((rv.0 as int, rv.1@)) && pos
                    <= rv.0 <= s@.len(),
                None => fragment_at(s@, pos as int) is None,
            },
    {
        if !has_byte(s, pos, 0x23) {
            return None;
        }
        let e = scan_query_chars(s, pos + 1);
        Some((e, Fragment(sub_bytes(s, pos + 1, e))))
    }
}

/// A parsed URI.
#[derive(PartialEq, Eq, Debug)]
pub struct Uri {
    pub scheme: Scheme,
    pub authority: Option<Authority>,
    pub path: Path,
    pub query: Option<Query>,
    pub fragment: Option<Fragment>,
}

impl View for Uri {
    type V = UriView;

    open spec fn view(&self) -> UriView {
        UriView {
            scheme: self.scheme@,
            authority: match self.authority {
                Some(a) => Some(a@),
                None => None,
            },
            path: self.path@,
            query: match self.query {
                Some(q) => Some(q@),
                None => None,
            },
            fragment: match self.fragment {
                Some(f) => Some(f@),
                None => None,
            },
        }
    }
}

/// The userinfo text of a parsed URI, when an authority carries one.
pub open spec fn spec_uri_user_info(u: UriView) -> Option<Seq<u8>> {
    match u.authority {
        None => None,
        Some(a) => a.user_info,
    }
}

/// The host text of a parsed URI, when an authority carries one.
pub open spec fn spec_uri_host(u: UriView) -> Option<Seq<u8>> {
    match u.authority {
        None => None,
        Some(a) => a.host,
    }
}

/// The port of a parsed URI, when an authority carries one.
pub open spec fn spec_uri_port(u: UriView) -> Option<u32> {
    match u.authority {
        None => None,
        Some(a) => a.port,
    }
}

impl Uri {
    /// Build a URI from its components' text.
    pub fn new(
        scheme: Vec<u8>,
        authority: Option<Authority>,
        path: Vec<u8>,
        query: Option<Vec<u8>>,
        fragment: Option<Vec<u8>>,
    ) -> (r: Uri)
        ensures
            r@.scheme == scheme@,
            r@.authority == match authority {
                Some(a) => Some(a@),
                None => None::<AuthorityView>,
            },
            r@.path == path@,
            r@.query == match query {
                Some(q) => Some(q@),
                None => None::<Seq<u8>>,
            },
            r@.fragment == match fragment {
                Some(f) => Some(f@),
                None => None::<Seq<u8>>,
            },
    {
        Uri {
            scheme: Scheme(scheme),
            authority,
            path: Path(path),
            query: match query {
                Some(q) => Some(Query(q)),
                None => None,
            },
            fragment: match fragment {
                Some(f) => Some(Fragment(f)),
                None => None,
            },
        }
    }

    /// The scheme of the URI.
    pub fn scheme(&self) -> (r: &Vec<u8>)
        ensures
            r@ == self@.scheme,
    {
        &self.scheme.0
    }

    /// The userinfo of the URI, when present.
    pub fn user_info(&self) -> (r: Option<&Vec<u8>>)
        ensures
            match r {
                Some(v) => spec_uri_user_info(self@) == Some(v@),
                None => spec_uri_user_info(self@) is None,
            },
    {
        match &self.authority {
            None => None,
            Some(a) => match &a.user_info {
                None => None,
                Some(u) => Some(&u.0),
            },
        }
    }

    /// The host of the URI, when present; an IPv6 literal host keeps its
    /// brackets.
    pub fn host(&self) -> (r: Option<&Vec<u8>>)
        ensures
            match r {
                Some(v) => spec_uri_host(self@) == Some(v@),
                None => spec_uri_host(self@) is None,
            },
    {
        match &self.authority {
            None => None,
            Some(a) => match &a.host {
                None => None,
                Some(h) => Some(&h.0),
            },
        }
    }

    /// The port of the URI, exactly as written; no protocol default is
    /// substituted.
    pub fn port(&self) -> (r: Option<u32>)
        ensures
            r == spec_uri_port(self@),
    {
        match &self.authority {
            None => None,
            Some(a) => match &a.port {
                None => None,
                Some(p) => Some(p.0),
            },
        }
    }

    /// The presented path segments of the URI: nonempty, non-`.`
    /// segments of the stored path text.
    pub fn path(&self) -> (r: Vec<Vec<u8>>)
        ensures
            r@.map_values(|x: Vec<u8>| x@) == spec_path_segments(self@.path),
    {
        self.path.iterate()
    }

    /// The query of the URI, when present.
    pub fn query(&self) -> (r: Option<&Vec<u8>>)
        ensures
            match r {
                Some(v) => self@.query == Some(v@),
                None => self@.query is None,
            },
    {
        match &self.query {
            None => None,
            Some(q) => Some(&q.0),
        }
    }

    /// The fragment of the URI, when present.
    pub fn fragment(&self) -> (r: Option<&Vec<u8>>)
        ensures
            match r {
                Some(v) => self@.fragment == Some(v@),
                None => self@.fragment is None,
            },
    {
        match &self.fragment {
            None => None,
            Some(f) => Some(&f.0),
        }
    }

    /// Parse a URI from the start of `input`, returning the unconsumed
    /// remainder together with the parsed URI. Fails with a grammar
    /// error exactly when no letter-initial scheme terminated by `:`
    /// starts the input.
    pub fn parse<'a>(input: &'a [u8]) -> (r: Result<(&'a [u8], Uri), ParseError>)
        ensures
            match r {
                Ok(rv) => uri_at(input@, 0) matches Some((e, u)) && rv.1@ == u && rv.0@
                    == input@.subrange(e, input@.len() as int),
                Err(pe) => uri_at(input@, 0) is None && pe == ParseError::Grammar,
            },
    {
        let (p1, sch) = match Scheme::parse(input, 0) {
            None => {
                return Err(ParseError::Grammar);
            },
            Some(x) => x,
        };
        let (p2, auth) = match Authority::parse(input, p1) {
            None => (p1, None),
            Some((p, a)) => (p, Some(a)),
        };
        let (p3, path) = match &auth {
            Some(_) => Path::parse(input, p2),
            None => {
                let e = scan_path_chars(input, p2);
                (e, Path(sub_bytes(input, p2, e)))
            },
        };
        let (p4, q) = match Query::parse(input, p3) {
            None => (p3, None),
            Some((p, x)) => (p, Some(x)),
        };
        let (p5, f) = match Fragment::parse(input, p4) {
            None => (p4, None),
            Some((p, x)) => (p, Some(x)),
        };
        let uri = Uri { scheme: sch, authority: auth, path, query: q, fragment: f };
        Ok((vstd::slice::slice_subrange(input, p5, input.len()), uri))
    }
}

/// The recomposed userinfo: its text and `@`, where present.
pub open spec fn spec_ui_part(a: AuthorityView) -> Seq<u8> {
    match a.user_info {
        None => Seq::empty(),
        Some(w) => w + seq![0x40u8],
    }
}

/// The recomposed host: its text, where present.
pub open spec fn spec_host_part(a: AuthorityView) -> Seq<u8> {
    match a.host {
        None => Seq::empty(),
        Some(h) => h,
    }
}

/// The recomposed port: `:` and its decimal digits, where present.
pub open spec fn spec_port_part(a: AuthorityView) -> Seq<u8> {
    match a.port {
        None => Seq::empty(),
        Some(p) => seq![0x3Au8] + dec_digits_of(p as int),
    }
}

/// The recomposed text of an authority: `//`, then the userinfo with its
/// `@`, the host text, and `:` with the port's decimal digits, each where
/// present.
pub open spec fn spec_authority_text(a: AuthorityView) -> Seq<u8> {
    seq![0x2Fu8, 0x2Fu8] + spec_ui_part(a) + spec_host_part(a) + spec_port_part(a)
}

/// The RFC 3986 recomposition of a parsed URI from its components:
/// scheme, `:`, the authority where present, the path, then the query
/// after `?` and the fragment after `#` where present.
pub open spec fn uri_recomposed(u: UriView) -> Seq<u8> {
    let auth_part: Seq<u8> = match u.authority {
        None => Seq::empty(),
        Some(a) => spec_authority_text(a),
    };
    let base = u.scheme + seq![0x3Au8] + auth_part + u.path;
    let with_query = match u.query {
        None => base,
        Some(q) => base + seq![0x3Fu8] + q,
    };
    match u.fragment {
        None => with_query,
        Some(f) => with_query + seq![0x23u8] + f,
    }
}

/// A path consumption is bounded by its text.
proof fn lemma_path_end_bounds(s: Seq<u8>, i: int)
    requires
        0 <= i <= s.len(),
    ensures
        i <= path_end(s, i) <= s.len(),
    decreases s.len() - i,
{
    lemma_scan_end(s, i, |b: u8| b == 0x2F);
    let j = slashes_end(s, i);
    if j != i {
        lemma_scan_end(s, j, |b: u8| spec_path_segment_character(b));
        let k = path_chars_end(s, j);
        if k != j {
            lemma_path_end_bounds(s, k);
        }
    }
}

/// A consumed rooted path is consumed identically wherever its text
/// stands, when neither a separator nor a path character follows the new
/// occurrence.
proof fn lemma_path_end_window(s: Seq<u8>, sp: int, t: Seq<u8>, tp: int)
    requires
        0 <= sp <= s.len(),
        0 <= tp,
        tp + (path_end(s, sp) - sp) <= t.len(),
        t.subrange(tp, tp + (path_end(s, sp) - sp)) == s.subrange(sp, path_end(s, sp)),
        tp + (path_end(s, sp) - sp) < t.len() ==> t[tp + (path_end(s, sp) - sp)] != 0x2F
            && !spec_path_segment_character(t[tp + (path_end(s, sp) - sp)]),
    ensures
        path_end(t, tp) == tp + (path_end(s, sp) - sp),
    decreases s.len() - sp,
{
    let slash_p = |b: u8| b == 0x2F;
    let pchar_p = |b: u8| spec_path_segment_character(b);
    lemma_path_end_bounds(s, sp);
    let pe = path_end(s, sp);
    let off = tp - sp;
    let tb = tp + (pe - sp);
    assert forall|k: int| sp <= k < pe implies t[k + off] == s[k] by {
        assert(t.subrange(tp, tb)[k - sp] == s.subrange(sp, pe)[k - sp]);
    }
    lemma_scan_end(s, sp, slash_p);
    let j = slashes_end(s, sp);
    if j == sp {
        assert(pe == sp);
        assert(tp < t.len() ==> !slash_p(t[tp]));
        lemma_scan_end_unique(t, tp, slash_p, tp);
    } else {
        lemma_scan_end(s, j, pchar_p);
        let k = path_chars_end(s, j);
        if k == j {
            assert(pe == j);
            assert forall|m: int| tp <= m < j + off implies slash_p(t[m]) by {
                assert(t[m] == s[m - off]);
            }
            assert(j + off < t.len() ==> !slash_p(t[j + off]));
            lemma_scan_end_unique(t, tp, slash_p, j + off);
            assert(j + off < t.len() ==> !pchar_p(t[j + off]));
            lemma_scan_end_unique(t, j + off, pchar_p, j + off);
        } else {
            lemma_path_end_bounds(s, k);
            assert(pe == path_end(s, k));
            assert(k <= pe);
            assert forall|m: int| tp <= m < j + off implies slash_p(t[m]) by {
                assert(t[m] == s[m - off]);
            }
            assert(j + off < t.len() ==> !slash_p(t[j + off])) by {
                if j < pe {
                    assert(t[j + off] == s[j]);
                }
            }
            lemma_scan_end_unique(t, tp, slash_p, j + off);
            assert forall|m: int| j + off <= m < k + off implies pchar_p(t[m]) by {
                assert(t[m] == s[m - off]);
            }
            assert(k + off < t.len() ==> !pchar_p(t[k + off])) by {
                if k < pe {
                    assert(t[k + off] == s[k]);
                }
            }
            lemma_scan_end_unique(t, j + off, pchar_p, k + off);
            assert(t.subrange(k + off, tb) =~= s.subrange(k, pe)) by {
                assert forall|m: int| 0 <= m < pe - k implies #[trigger] t.subrange(
                    k + off,
                    tb,
                )[m] == s.subrange(k, pe)[m] by {
                    assert(t[k + off + m] == s[k + m]);
                }
            }
            lemma_path_end_window(s, k, t, k + off);
        }
    }
}

/// A recognised host is recognised wherever its text stands, when a
/// colon, separator, question mark, or hash follows the new occurrence.
#[verifier::rlimit(100)]
proof fn lemma_host_reparse(s: Seq<u8>, hp0: int, he0: int, h: Seq<u8>, t: Seq<u8>, thp: int)
    requires
        0 <= hp0 <= s.len(),
        host_at(s, hp0) == Some((he0, h)),
        0 <= thp,
        thp + h.len() <= t.len(),
        t.subrange(thp, thp + h.len()) == h,
        thp + h.len() < t.len() ==> (t[thp + h.len()] == 0x3A || t[thp + h.len()] == 0x2F || t[thp
            + h.len()] == 0x3F || t[thp + h.len()] == 0x23),
    ensures
        host_at(t, thp) == Some((thp + h.len() as int, h)),
{
    let tb = thp + h.len() as int;
    if ipv4_at(s, hp0) is Some {
        let (e4, addr) = ipv4_at(s, hp0)->Some_0;
        assert(e4 == he0 && h == s.subrange(hp0, he0));
        lemma_ipv4_span(s, hp0, he0, addr);
        lemma_ipv4_at_window(s, hp0, t, thp, he0, addr);
        assert(ipv4_at(t, thp) == Some((tb, addr)));
        assert(t.subrange(thp, tb) == h);
    } else {
        let regp = |b: u8| spec_reg_name_character(b);
        lemma_scan_end(s, hp0, regp);
        let e = reg_name_chars_end(s, hp0);
        if e > hp0 {
            assert(he0 == e && h == s.subrange(hp0, e));
            assert forall|k: int| thp <= k < tb implies regp(t[k]) by {
                assert(t[k] == t.subrange(thp, tb)[k - thp]);
                assert(h[k - thp] == s[hp0 + (k - thp)]);
                assert(regp(s[hp0 + (k - thp)]));
            }
            // Digits and dots are reg-name characters, so where no IPv4
            // literal was seen before, none is seen now.
            lemma_ipv4_at_none_window(s, hp0, t, thp, h.len() as int);
            assert(tb < t.len() ==> !regp(t[tb]));
            lemma_scan_end_unique(t, thp, regp, tb);
            assert(t.subrange(thp, tb) == h);
        } else {
            lemma_bracket_host_reparse(s, hp0, he0, h, t, thp);
        }
    }
}

/// A recognised bracketed IPv6 host is recognised wherever its text
/// stands: its bytes repeat in `t`, and the closing bracket stops every
/// scan of the IPv6 grammar in both texts.
#[verifier::rlimit(100)]
proof fn lemma_bracket_host_reparse(s: Seq<u8>, hp0: int, he0: int, h: Seq<u8>, t: Seq<u8>, thp:
    int)
    requires
        0 <= hp0 <= s.len(),
        host_at(s, hp0) == Some((he0, h)),
        ipv4_at(s, hp0) is None,
        reg_name_chars_end(s, hp0) == hp0,
        0 <= thp,
        thp + h.len() <= t.len(),
        t.subrange(thp, thp + h.len()) == h,
    ensures
        host_at(t, thp) == Some((thp + h.len() as int, h)),
{
    let tb = thp + h.len() as int;
    let regp = |b: u8| spec_reg_name_character(b);
    assert(byte_at(s, hp0, 0x5B));
            crate::ipv6::lemma_ipv6_at_bounds(s, hp0 + 1);
            let (e6, addr6) = ipv6_at(s, hp0 + 1)->Some_0;
            assert(hp0 + 1 < e6);
            assert(he0 == e6 + 1);
            assert(byte_at(s, e6, 0x5D));
            assert(h == s.subrange(hp0, he0));
            assert(h.len() == he0 - hp0);
            assert forall|j: int| 0 <= j < h.len() implies #[trigger] t[thp + j] == s[hp0
                + j] by {
                assert(t.subrange(thp, thp + h.len())[j] == h[j]);
                assert(h[j] == s[hp0 + j]);
            }
            assert(t[thp + 0] == s[hp0 + 0]);
            assert(t[thp] == s[hp0]);
            assert(!crate::parse::spec_is_digit(t[thp]));
            lemma_ipv4_none_at_nondigit(t, thp);
            assert(!regp(t[thp]));
            lemma_scan_end_unique(t, thp, regp, thp);
            assert(byte_at(t, thp, 0x5B));
            let wlen = e6 - (hp0 + 1);
            assert(crate::ipv6::ipv6_stopper_window(s, hp0 + 1, t, thp + 1, wlen)) by {
                assert(s[hp0 + 1 + wlen] == 0x5D);
                assert(t[thp + 1 + wlen] == s[hp0 + 1 + wlen]) by {
                    assert(t[thp + (1 + wlen)] == s[hp0 + (1 + wlen)]);
                }
                assert(thp + 1 + wlen < t.len());
                assert forall|j: int| 0 <= j < wlen implies #[trigger] t[thp + 1 + j] == s[hp0 + 1
                    + j] by {
                    assert(t[thp + (1 + j)] == s[hp0 + (1 + j)]);
                }
            }
            crate::ipv6::lemma_ipv6_at_window(s, hp0 + 1, t, thp + 1, wlen);
            let e6t = thp + 1 + (e6 - (hp0 + 1));
            assert(ipv6_at(t, thp + 1) == Some((e6t, addr6)));
            assert(t[e6t] == s[e6]) by {
                assert(t[thp + (e6 - hp0)] == s[hp0 + (e6 - hp0)]);
            }
            assert(byte_at(t, e6t, 0x5D));
            assert(host_at(t, thp) == Some((e6t + 1, t.subrange(thp, e6t + 1))));
            assert(e6t + 1 == tb);
            assert(t.subrange(thp, e6t + 1) == h);
}

/// Every character of a non-bracketed host's text may stand in userinfo
/// or a reg-name.
proof fn lemma_host_chars(s: Seq<u8>, hp0: int, he0: int, h: Seq<u8>)
    requires
        0 <= hp0 <= s.len(),
        host_at(s, hp0) == Some((he0, h)),
        !(h.len() > 0 && h[0] == 0x5B),
    ensures
        forall|k: int| 0 <= k < h.len() ==> spec_user_info_character(#[trigger] h[k]),
{
    if ipv4_at(s, hp0) is Some {
        let (e4, addr) = ipv4_at(s, hp0)->Some_0;
        lemma_ipv4_span(s, hp0, he0, addr);
        assert forall|k: int| 0 <= k < h.len() implies spec_user_info_character(
            #[trigger] h[k],
        ) by {
            assert(h[k] == s[hp0 + k]);
            assert(crate::parse::spec_is_digit(s[hp0 + k]) || s[hp0 + k] == 0x2E);
        }
    } else {
        let regp = |b: u8| spec_reg_name_character(b);
        lemma_scan_end(s, hp0, regp);
        let e = reg_name_chars_end(s, hp0);
        if e > hp0 {
            assert forall|k: int| 0 <= k < h.len() implies spec_user_info_character(
                #[trigger] h[k],
            ) by {
                assert(h[k] == s[hp0 + k]);
                assert(regp(s[hp0 + k]));
            }
        } else {
            // The remaining branch of `host_at` is a bracketed IPv6
            // literal, whose text starts with `[`.
            assert(byte_at(s, hp0, 0x5B));
            crate::ipv6::lemma_ipv6_at_bounds(s, hp0 + 1);
            let (e6, _addr6) = ipv6_at(s, hp0 + 1)->Some_0;
            assert(hp0 + 1 < e6);
            assert(he0 == e6 + 1);
            assert(h == s.subrange(hp0, he0));
            assert(byte_at(s, e6, 0x5D));
            assert(h.len() > 0 && h[0] == s[hp0]);
            assert(false);
        }
    }
}

/// A recognised authority ends within its text.
proof fn lemma_authority_at_bounds(s: Seq<u8>, ap0: int)
    requires
        0 <= ap0 <= s.len(),
    ensures
        authority_at(s, ap0) matches Some((ae, _)) ==> 0 <= ae <= s.len(),
{
    if authority_at(s, ap0) is Some {
        assert(byte_at(s, ap0 + 1, 0x2F));
        let ui_p = |b: u8| spec_user_info_character(b);
        lemma_scan_end(s, ap0 + 2, ui_p);
        let pu = match user_info_at(s, ap0 + 2) {
            None => ap0 + 2,
            Some((p, _)) => p,
        };
        assert(0 <= pu <= s.len());
        let ph = match host_at(s, pu) {
            None => pu,
            Some((p, _)) => p,
        };
        if host_at(s, pu) is Some {
            if ipv4_at(s, pu) is Some {
                let (e4, q4) = ipv4_at(s, pu)->Some_0;
                lemma_ipv4_span(s, pu, e4, q4);
            } else {
                lemma_scan_end(s, pu, |b: u8| spec_reg_name_character(b));
                let er = reg_name_chars_end(s, pu);
                if er <= pu {
                    crate::ipv6::lemma_ipv6_at_bounds(s, pu + 1);
                }
            }
        }
        assert(0 <= ph <= s.len());
        if port_at(s, ph) is Some {
            lemma_scan_end(s, ph + 1, |b: u8| crate::parse::spec_is_digit(b));
        }
    }
}

/// The layout hypotheses shared by the authority reparse steps: the
/// recomposed authority text stands at `tap` in `t`, followed by a
/// separator, question mark, hash, or the end.
pub open spec fn auth_window_ok(s: Seq<u8>, ap0: int, ae0: int, av: AuthorityView, t: Seq<u8>,
    tap: int) -> bool {
    &&& 0 <= ap0 <= s.len()
    &&& authority_at(s, ap0) == Some((ae0, av))
    &&& 0 <= tap
    &&& tap + spec_authority_text(av).len() <= t.len()
    &&& t.subrange(tap, tap + spec_authority_text(av).len()) == spec_authority_text(av)
    &&& (tap + spec_authority_text(av).len() < t.len() ==> (t[tap + spec_authority_text(
        av,
    ).len()] == 0x2F || t[tap + spec_authority_text(av).len()] == 0x3F || t[tap
        + spec_authority_text(av).len()] == 0x23))
}

/// Every byte of the recomposed authority text stands in `t` at its
/// offset from `tap`.
proof fn lemma_auth_window_index(s: Seq<u8>, ap0: int, ae0: int, av: AuthorityView, t: Seq<u8>,
    tap: int)
    requires
        auth_window_ok(s, ap0, ae0, av, t, tap),
    ensures
        forall|k: int|
            0 <= k < spec_authority_text(av).len() ==> #[trigger] t[tap + k]
                == spec_authority_text(av)[k],
{
    let apart = spec_authority_text(av);
    assert forall|k: int| 0 <= k < apart.len() implies #[trigger] t[tap + k] == apart[k] by {
        assert(t.subrange(tap, tap + apart.len())[k] == apart[k]);
    }
}

/// The userinfo of the recomposed authority is found exactly when one was
/// stored: without one, the scan crosses the host and port, none of whose
/// characters can end it, and stops on a byte that is not an at sign.
#[verifier::rlimit(100)]
proof fn lemma_auth_ui_reparse(s: Seq<u8>, ap0: int, ae0: int, av: AuthorityView, t: Seq<u8>,
    tap: int)
    requires
        auth_window_ok(s, ap0, ae0, av, t, tap),
    ensures
        match av.user_info {
            None => user_info_at(t, tap + 2) is None,
            Some(w) => user_info_at(t, tap + 2) == Some(
                (tap + 2 + spec_ui_part(av).len(), w),
            ),
        },
{
    let ui_p = |b: u8| spec_user_info_character(b);
    let apart = spec_authority_text(av);
    let uipart = spec_ui_part(av);
    let hpart = spec_host_part(av);
    let ppart = spec_port_part(av);
    let alen = apart.len() as int;
    let tend = tap + alen;
    lemma_auth_window_index(s, ap0, ae0, av, t, tap);
    let pu_s = match user_info_at(s, ap0 + 2) {
        None => ap0 + 2,
        Some((p, _)) => p,
    };
    if av.port is Some {
        lemma_dec_digits_of_digits(av.port->0 as int);
    }
    match av.user_info {
        None => {
            let bracket_host = av.host matches Some(h) && h.len() > 0 && h[0] == 0x5B;
            if bracket_host {
                // The scan stops at once: the opening bracket is neither
                // a userinfo character nor an at sign.
                assert(uipart.len() == 0);
                assert(hpart.len() > 0);
                assert(apart[2] == hpart[0]);
                assert(t[tap + 2] == apart[2]);
                assert(t[tap + 2] == 0x5B);
                assert(!ui_p(t[tap + 2]));
                assert(tap + 2 < tend);
                lemma_scan_end_unique(t, tap + 2, ui_p, tap + 2);
                assert(!byte_at(t, tap + 2, 0x40));
            } else {
                if av.host is Some {
                    let h_s = match host_at(s, pu_s) {
                        None => pu_s,
                        Some((p, _)) => p,
                    };
                    lemma_host_chars(s, pu_s, h_s, av.host->0);
                }
                assert forall|k: int| tap + 2 <= k < tend implies ui_p(t[k]) by {
                    assert(t[k] == apart[k - tap]);
                    if k - (tap + 2) < hpart.len() {
                        assert(apart[k - tap] == hpart[k - (tap + 2)]);
                    } else {
                        assert(apart[k - tap] == ppart[k - (tap + 2) - hpart.len()]);
                        if k - (tap + 2) - hpart.len() == 0 {
                        } else {
                            assert(crate::parse::spec_is_digit(
                                ppart[k - (tap + 2) - hpart.len()],
                            ));
                        }
                    }
                }
                assert(tend < t.len() ==> !ui_p(t[tend]));
                lemma_scan_end_unique(t, tap + 2, ui_p, tend);
                assert(!byte_at(t, tend, 0x40));
            }
        },
        Some(w) => {
            let wl = w.len() as int;
            assert forall|k: int| tap + 2 <= k < tap + 2 + wl implies ui_p(t[k]) by {
                assert(t[k] == apart[k - tap]);
                assert(apart[k - tap] == uipart[k - tap - 2]);
                assert(uipart[k - tap - 2] == w[k - (tap + 2)]);
                assert(user_info_at(s, ap0 + 2) == Some((pu_s, w)));
                lemma_scan_end(s, ap0 + 2, ui_p);
                assert(w == s.subrange(ap0 + 2, user_info_chars_end(s, ap0 + 2)));
                assert(w[k - (tap + 2)] == s[ap0 + 2 + (k - (tap + 2))]);
            }
            assert(uipart[wl] == 0x40);
            assert(apart[2 + wl] == uipart[wl]);
            assert(t[tap + (2 + wl)] == apart[2 + wl]);
            assert(!ui_p(t[tap + 2 + wl]));
            lemma_scan_end_unique(t, tap + 2, ui_p, tap + 2 + wl);
            assert(byte_at(t, tap + 2 + wl, 0x40));
            assert(t.subrange(tap + 2, tap + 2 + wl) =~= w) by {
                assert forall|k: int| 0 <= k < wl implies #[trigger] t.subrange(
                    tap + 2,
                    tap + 2 + wl,
                )[k] == w[k] by {
                    assert(t[tap + 2 + k] == apart[2 + k]);
                    assert(apart[2 + k] == uipart[k]);
                    assert(uipart[k] == w[k]);
                }
            }
        },
    }
}

/// The host of the recomposed authority is found exactly when one was
/// stored.
#[verifier::rlimit(100)]
proof fn lemma_auth_host_reparse(s: Seq<u8>, ap0: int, ae0: int, av: AuthorityView, t: Seq<u8>,
    tap: int)
    requires
        auth_window_ok(s, ap0, ae0, av, t, tap),
    ensures
        ({
            let thp = tap + 2 + spec_ui_part(av).len();
            match av.host {
                None => host_at(t, thp) is None,
                Some(h) => host_at(t, thp) == Some((thp + h.len(), h)),
            }
        }),
{
    let apart = spec_authority_text(av);
    let uipart = spec_ui_part(av);
    let hpart = spec_host_part(av);
    let ppart = spec_port_part(av);
    let alen = apart.len() as int;
    let thp = tap + 2 + uipart.len();
    let tpp = thp + hpart.len();
    let tend = tap + alen;
    lemma_auth_window_index(s, ap0, ae0, av, t, tap);
    let pu_s = match user_info_at(s, ap0 + 2) {
        None => ap0 + 2,
        Some((p, _)) => p,
    };
    match av.host {
        None => {
            assert(host_at(s, pu_s) is None);
            assert(thp < t.len() ==> (t[thp] == 0x3A || t[thp] == 0x2F || t[thp] == 0x3F || t[thp]
                == 0x23)) by {
                if thp < t.len() {
                    if ppart.len() > 0 {
                        assert(t[thp] == apart[thp - tap]);
                        assert(apart[thp - tap] == ppart[0]);
                    } else {
                        assert(thp == tend);
                    }
                }
            }
            assert(thp < t.len() ==> !crate::parse::spec_is_digit(t[thp]));
            lemma_ipv4_none_at_nondigit(t, thp);
            let regp = |b: u8| spec_reg_name_character(b);
            assert(thp < t.len() ==> !regp(t[thp]));
            lemma_scan_end_unique(t, thp, regp, thp);
            assert(!byte_at(t, thp, 0x5B));
        },
        Some(h) => {
            let h_s = match host_at(s, pu_s) {
                None => pu_s,
                Some((p, _)) => p,
            };
            assert(host_at(s, pu_s) == Some((h_s, h)));
            assert(t.subrange(thp, thp + h.len()) =~= h) by {
                assert forall|k: int| 0 <= k < h.len() implies #[trigger] t.subrange(
                    thp,
                    thp + h.len(),
                )[k] == h[k] by {
                    assert(t[thp + k] == apart[thp + k - tap]);
                    assert(apart[thp + k - tap] == hpart[k]);
                }
            }
            assert(thp + h.len() < t.len() ==> (t[thp + h.len()] == 0x3A || t[thp + h.len()]
                == 0x2F || t[thp + h.len()] == 0x3F || t[thp + h.len()] == 0x23)) by {
                if thp + h.len() < t.len() {
                    if ppart.len() > 0 {
                        assert(t[tpp] == apart[tpp - tap]);
                        assert(apart[tpp - tap] == ppart[0]);
                    } else {
                        assert(tpp == tend);
                    }
                }
            }
            lemma_host_reparse(s, pu_s, h_s, h, t, thp);
        },
    }
}

/// The port of the recomposed authority is found exactly when one was
/// stored, and reads back as the same number, leading zeros of the first
/// text notwithstanding.
#[verifier::rlimit(100)]
proof fn lemma_auth_port_reparse(s: Seq<u8>, ap0: int, ae0: int, av: AuthorityView, t: Seq<u8>,
    tap: int)
    requires
        auth_window_ok(s, ap0, ae0, av, t, tap),
    ensures
        ({
            let tpp = tap + 2 + spec_ui_part(av).len() + spec_host_part(av).len();
            match av.port {
                None => port_at(t, tpp) is None,
                Some(p) => port_at(t, tpp) == Some(
                    (tap + spec_authority_text(av).len(), p),
                ),
            }
        }),
{
    let apart = spec_authority_text(av);
    let uipart = spec_ui_part(av);
    let hpart = spec_host_part(av);
    let ppart = spec_port_part(av);
    let alen = apart.len() as int;
    let tpp = tap + 2 + uipart.len() + hpart.len();
    let tend = tap + alen;
    lemma_auth_window_index(s, ap0, ae0, av, t, tap);
    match av.port {
        None => {
            assert(tpp == tend);
            assert(!byte_at(t, tpp, 0x3A));
        },
        Some(p) => {
            lemma_dec_digits_of_digits(p as int);
            let d = dec_digits_of(p as int);
            assert(t[tpp] == apart[tpp - tap]);
            assert(apart[tpp - tap] == ppart[0]);
            assert(byte_at(t, tpp, 0x3A));
            assert(t.subrange(tpp + 1, tend) =~= d) by {
                assert forall|k: int| 0 <= k < d.len() implies #[trigger] t.subrange(
                    tpp + 1,
                    tend,
                )[k] == d[k] by {
                    assert(t[tpp + 1 + k] == apart[tpp + 1 + k - tap]);
                    assert(apart[tpp + 1 + k - tap] == ppart[1 + k]);
                    assert(ppart[1 + k] == d[k]);
                }
            }
            let dp = |b: u8| crate::parse::spec_is_digit(b);
            assert forall|k: int| tpp + 1 <= k < tend implies dp(t[k]) by {
                assert(t[k] == t.subrange(tpp + 1, tend)[k - (tpp + 1)]);
            }
            assert(tend < t.len() ==> !dp(t[tend]));
            lemma_scan_end_unique(t, tpp + 1, dp, tend);
            lemma_dec_digits_of_val(p as int, t, tpp + 1);
            assert(dec_run_val(t, tpp + 1, tend) == p as int);
            assert(tend != tpp + 1);
            assert(port_at(t, tpp) == Some((tend, p)));
        },
    }
}

/// A recognised authority is recognised from its recomposed text, when a
/// separator, question mark, or hash follows it.
#[verifier::rlimit(100)]
proof fn lemma_authority_reparse(s: Seq<u8>, ap0: int, ae0: int, av: AuthorityView, t: Seq<u8>,
    tap: int)
    requires
        auth_window_ok(s, ap0, ae0, av, t, tap),
    ensures
        authority_at(t, tap) == Some((tap + spec_authority_text(av).len() as int, av)),
{
    let apart = spec_authority_text(av);
    let alen = apart.len() as int;
    let tend = tap + alen;
    lemma_auth_window_index(s, ap0, ae0, av, t, tap);
    assert(alen >= 2);
    assert(apart[0] == 0x2Fu8);
    assert(apart[1] == 0x2Fu8);
    assert(t[tap + 0] == apart[0]);
    assert(t[tap + 1] == apart[1]);
    assert(byte_at(t, tap, 0x2F) && byte_at(t, tap + 1, 0x2F));
    lemma_auth_ui_reparse(s, ap0, ae0, av, t, tap);
    lemma_auth_host_reparse(s, ap0, ae0, av, t, tap);
    lemma_auth_port_reparse(s, ap0, ae0, av, t, tap);
    assert(tap + 2 + spec_ui_part(av).len() + spec_host_part(av).len() + spec_port_part(
        av,
    ).len() == tend);
    match authority_at(t, tap) {
        None => {
            assert(false);
        },
        Some((pend, bv)) => {
            assert(pend == tend);
            assert(bv.user_info == av.user_info);
            assert(bv.host == av.host);
            assert(bv.port == av.port);
        },
    }
}

/// The character-class and position facts a successful parse leaves
/// about each component.
proof fn lemma_component_facts(s: Seq<u8>, e: int, u: UriView)
    requires
        uri_at(s, 0) == Some((e, u)),
    ensures
        forall|k: int| 0 <= k < u.scheme.len() ==> spec_scheme_character(#[trigger] u.scheme[k]),
        byte_at(s, scheme_chars_end(s, 0), 0x3A),
        u.scheme == s.subrange(0, scheme_chars_end(s, 0)),
        u.scheme.len() > 0,
        spec_is_alpha(u.scheme[0]),
        u.authority is None ==> forall|k: int|
            0 <= k < u.path.len() ==> spec_path_segment_character(#[trigger] u.path[k]),
        u.authority matches Some(a) ==> (authority_at(s, scheme_chars_end(s, 0) + 1) matches Some(
            (p2x, av),
        ) && av == a && 0 <= p2x <= s.len() && u.path == s.subrange(p2x, path_end(s, p2x)) && (
        u.path.len() > 0 ==> u.path[0] == 0x2F)),
        u.query matches Some(q) ==> forall|k: int|
            0 <= k < q.len() ==> spec_query_character(#[trigger] q[k]),
        u.fragment matches Some(f) ==> forall|k: int|
            0 <= k < f.len() ==> spec_query_character(#[trigger] f[k]),
{
    let scheme_p = |b: u8| spec_scheme_character(b);
    let path_p = |b: u8| spec_path_segment_character(b);
    let query_p = |b: u8| spec_query_character(b);
    lemma_scan_end(s, 0, scheme_p);
    let e0 = scheme_chars_end(s, 0);
    let p1 = e0 + 1;
    assert(u.scheme == s.subrange(0, e0));
    assert forall|k: int| 0 <= k < u.scheme.len() implies spec_scheme_character(
        #[trigger] u.scheme[k],
    ) by {
        assert(scheme_p(s[k]));
    }
    lemma_authority_at_bounds(s, p1);
    let p2 = match authority_at(s, p1) {
        None => p1,
        Some((p, _)) => p,
    };
    let p3 = if u.authority is Some {
        path_end(s, p2)
    } else {
        path_chars_end(s, p2)
    };
    assert(u.path == s.subrange(p2, p3));
    if u.authority is Some {
        lemma_path_end_bounds(s, p2);
        lemma_scan_end(s, p2, |b: u8| b == 0x2F);
        if p3 > p2 {
            assert(slashes_end(s, p2) > p2);
            assert(s[p2] == 0x2F);
            assert(u.path[0] == 0x2F);
        }
    } else {
        lemma_scan_end(s, p2, path_p);
        assert forall|k: int| 0 <= k < u.path.len() implies spec_path_segment_character(
            #[trigger] u.path[k],
        ) by {
            assert(path_p(s[p2 + k]));
        }
    }
    let p4 = match query_at(s, p3) {
        None => p3,
        Some((p, _)) => p,
    };
    if u.query is Some {
        lemma_scan_end(s, p3 + 1, query_p);
        assert(u.query->0 == s.subrange(p3 + 1, query_chars_end(s, p3 + 1)));
        assert forall|k: int| 0 <= k < u.query->0.len() implies spec_query_character(
            #[trigger] u.query->0[k],
        ) by {
            assert(query_p(s[p3 + 1 + k]));
        }
    }
    if u.fragment is Some {
        lemma_scan_end(s, p4 + 1, query_p);
        assert(u.fragment->0 == s.subrange(p4 + 1, query_chars_end(s, p4 + 1)));
        assert forall|k: int| 0 <= k < u.fragment->0.len() implies spec_query_character(
            #[trigger] u.fragment->0[k],
        ) by {
            assert(query_p(s[p4 + 1 + k]));
        }
    }
}

/// The recomposed text's scheme parses back to the stored scheme.
proof fn lemma_scheme_reparse(s: Seq<u8>, e: int, u: UriView)
    requires
        uri_at(s, 0) == Some((e, u)),
    ensures
        scheme_at(uri_recomposed(u), 0) == Some((u.scheme.len() as int + 1, u.scheme)),
{
    let scheme_p = |b: u8| spec_scheme_character(b);
    lemma_component_facts(s, e, u);
    let t = uri_recomposed(u);
    let n0 = u.scheme.len() as int;
    let apart: Seq<u8> = match u.authority {
        None => Seq::empty(),
        Some(a) => spec_authority_text(a),
    };
    let qpart: Seq<u8> = match u.query {
        None => Seq::empty(),
        Some(q) => seq![0x3Fu8] + q,
    };
    let fpart: Seq<u8> = match u.fragment {
        None => Seq::empty(),
        Some(f) => seq![0x23u8] + f,
    };
    assert(t =~= u.scheme + seq![0x3Au8] + apart + u.path + qpart + fpart);
    assert forall|k: int| 0 <= k < n0 implies scheme_p(t[k]) by {
        assert(t[k] == u.scheme[k]);
    }
    assert(t[n0] == 0x3Au8);
    assert(!scheme_p(t[n0]));
    lemma_scan_end_unique(t, 0, scheme_p, n0);
    assert(n0 > 0);
    assert(t[0] == u.scheme[0]);
    assert(spec_is_alpha(t[0]));
    assert(t.subrange(0, n0) =~= u.scheme);
}

#[verifier::rlimit(100)]
proof fn lemma_uri_reparse_no_authority(s: Seq<u8>, e: int, u: UriView)
    requires
        uri_at(s, 0) == Some((e, u)),
        u.authority is None,
    ensures
        uri_at(uri_recomposed(u), 0) == Some((uri_recomposed(u).len() as int, u)),
{
    let path_p = |b: u8| spec_path_segment_character(b);
    let query_p = |b: u8| spec_query_character(b);
    lemma_component_facts(s, e, u);
    let e0 = scheme_chars_end(s, 0);
    let p1 = e0 + 1;
    let p2 = match authority_at(s, p1) {
        None => p1,
        Some((p, _)) => p,
    };

    // The recomposed text, piece by piece.
    let t = uri_recomposed(u);
    let n0 = u.scheme.len() as int;
    let apart: Seq<u8> = match u.authority {
        None => Seq::empty(),
        Some(a) => spec_authority_text(a),
    };
    let alen = apart.len() as int;
    let plen = u.path.len() as int;
    let qpart: Seq<u8> = match u.query {
        None => Seq::empty(),
        Some(q) => seq![0x3Fu8] + q,
    };
    let fpart: Seq<u8> = match u.fragment {
        None => Seq::empty(),
        Some(f) => seq![0x23u8] + f,
    };
    assert(t =~= u.scheme + seq![0x3Au8] + apart + u.path + qpart + fpart);
    let pstart = n0 + 1 + alen;
    let q3 = pstart + plen;
    let q4 = q3 + qpart.len();

    // The scheme run of the recomposed text ends exactly at the colon
    // and begins with the letter the first parse found.
    lemma_scheme_reparse(s, e, u);
    assert(scheme_at(t, 0) == Some((n0 + 1, u.scheme)));

    {

            // An opaque path holds no separator, so no authority is seen.
            if n0 + 1 < t.len() {
                if plen > 0 {
                    assert(t[n0 + 1] == u.path[0]);
                    assert(spec_path_segment_character(u.path[0]));
                    assert(t[n0 + 1] != 0x2Fu8);
                } else if u.query is Some {
                    assert(t[n0 + 1] == 0x3Fu8);
                } else {
                    assert(u.fragment is Some);
                    assert(t[n0 + 1] == 0x23u8);
                }
                assert(!byte_at(t, n0 + 1, 0x2F));
            } else {
                assert(!byte_at(t, n0 + 1, 0x2F));
            }
            assert(authority_at(t, n0 + 1) is None);

            // The path run of the recomposed text is exactly the stored
            // path.
            assert forall|k: int| n0 + 1 <= k < q3 implies path_p(t[k]) by {
                assert(t[k] == u.path[k - (n0 + 1)]);
            }
            if q3 < t.len() {
                if u.query is Some {
                    assert(t[q3] == 0x3Fu8);
                } else {
                    assert(u.fragment is Some);
                    assert(t[q3] == 0x23u8);
                }
                assert(!path_p(t[q3]));
            }
            lemma_scan_end_unique(t, n0 + 1, path_p, q3);
            assert(t.subrange(n0 + 1, q3) =~= u.path);
            }


    // The query is found exactly when one was stored.
    match u.query {
        None => {
            if q3 < t.len() {
                assert(t[q3] == 0x23u8);
            }
            assert(!byte_at(t, q3, 0x3F));
            assert(query_at(t, q3) is None);
        },
        Some(q) => {
            assert(t[q3] == 0x3Fu8);
            assert forall|k: int| q3 + 1 <= k < q4 implies query_p(t[k]) by {
                assert(t[k] == q[k - (q3 + 1)]);
            }
            if q4 < t.len() {
                assert(t[q4] == 0x23u8);
                assert(!query_p(t[q4]));
            }
            lemma_scan_end_unique(t, q3 + 1, query_p, q4);
            assert(query_at(t, q3) == Some((q4, t.subrange(q3 + 1, q4))));
            assert(t.subrange(q3 + 1, q4) =~= q);
        },
    }

    // The fragment is found exactly when one was stored, and consumes the
    // rest of the text.
    match u.fragment {
        None => {
            assert(q4 == t.len());
            assert(!byte_at(t, q4, 0x23));
            assert(fragment_at(t, q4) is None);
        },
        Some(f) => {
            assert(t[q4] == 0x23u8);
            assert forall|k: int| q4 + 1 <= k < t.len() implies query_p(t[k]) by {
                assert(t[k] == f[k - (q4 + 1)]);
            }
            lemma_scan_end_unique(t, q4 + 1, query_p, t.len() as int);
            assert(fragment_at(t, q4) == Some((t.len() as int, t.subrange(q4 + 1, t.len() as int))));
            assert(t.subrange(q4 + 1, t.len() as int) =~= f);
        },
    }

    match uri_at(t, 0) {
        None => {
            assert(false);
        },
        Some((end, v)) => {
            assert(end == t.len());
            assert(v.scheme == u.scheme);
            assert(v.authority == u.authority);
            assert(v.path == u.path);
            assert(v.query == u.query);
            assert(v.fragment == u.fragment);
        },
    }
}

#[verifier::rlimit(100)]
proof fn lemma_uri_reparse_with_authority(s: Seq<u8>, e: int, u: UriView)
    requires
        uri_at(s, 0) == Some((e, u)),
        u.authority is Some,
    ensures
        uri_at(uri_recomposed(u), 0) == Some((uri_recomposed(u).len() as int, u)),
{
    let query_p = |b: u8| spec_query_character(b);
    lemma_component_facts(s, e, u);
    let e0 = scheme_chars_end(s, 0);
    let p1 = e0 + 1;
    let p2 = match authority_at(s, p1) {
        None => p1,
        Some((p, _)) => p,
    };
    let p3 = path_end(s, p2);
    lemma_path_end_bounds(s, p2);

    // The recomposed text, piece by piece.
    let t = uri_recomposed(u);
    let n0 = u.scheme.len() as int;
    let a = u.authority->0;
    let apart = spec_authority_text(a);
    let alen = apart.len() as int;
    let plen = u.path.len() as int;
    let qpart: Seq<u8> = match u.query {
        None => Seq::empty(),
        Some(q) => seq![0x3Fu8] + q,
    };
    let fpart: Seq<u8> = match u.fragment {
        None => Seq::empty(),
        Some(f) => seq![0x23u8] + f,
    };
    assert(t =~= u.scheme + seq![0x3Au8] + apart + u.path + qpart + fpart);
    let pstart = n0 + 1 + alen;
    let q3 = pstart + plen;
    let q4 = q3 + qpart.len();
    assert(plen == p3 - p2);

    // The scheme run of the recomposed text ends exactly at the colon
    // and begins with the letter the first parse found.
    lemma_scheme_reparse(s, e, u);
    assert(scheme_at(t, 0) == Some((n0 + 1, u.scheme)));

    // The authority is recovered from its recomposed text.
    assert(authority_at(t, n0 + 1) == Some((pstart, a))) by {
        assert(t.subrange(n0 + 1, pstart) =~= apart) by {
            assert forall|k: int| 0 <= k < alen implies #[trigger] t.subrange(
                n0 + 1,
                pstart,
            )[k] == apart[k] by {
                assert(t[n0 + 1 + k] == apart[k]);
            }
        }
        assert(pstart < t.len() ==> (t[pstart] == 0x2F || t[pstart] == 0x3F || t[pstart]
            == 0x23)) by {
            if pstart < t.len() {
                if plen > 0 {
                    assert(t[pstart] == u.path[0]);
                } else if u.query is Some {
                    assert(t[pstart] == 0x3Fu8);
                } else {
                    assert(u.fragment is Some);
                    assert(t[pstart] == 0x23u8);
                }
            }
        }
        assert(auth_window_ok(s, p1, p2, a, t, n0 + 1));
        lemma_authority_reparse(s, p1, p2, a, t, n0 + 1);
    }

    // The rooted path is consumed identically.
    assert(path_end(t, pstart) == q3 && t.subrange(pstart, q3) == u.path) by {
        assert(t.subrange(pstart, q3) =~= s.subrange(p2, p3)) by {
            assert forall|k: int| 0 <= k < plen implies #[trigger] t.subrange(pstart, q3)[k]
                == s.subrange(p2, p3)[k] by {
                assert(t[pstart + k] == u.path[k]);
            }
        }
        assert(q3 < t.len() ==> t[q3] != 0x2F && !spec_path_segment_character(t[q3])) by {
            if q3 < t.len() {
                if u.query is Some {
                    assert(t[q3] == 0x3Fu8);
                } else {
                    assert(u.fragment is Some);
                    assert(t[q3] == 0x23u8);
                }
            }
        }
        lemma_path_end_window(s, p2, t, pstart);
        assert(t.subrange(pstart, q3) =~= u.path);
    }

    // The query is found exactly when one was stored.
    assert(match u.query {
        None => query_at(t, q3) is None,
        Some(q) => query_at(t, q3) == Some((q4, q)),
    }) by {
        match u.query {
            None => {
                if q3 < t.len() {
                    assert(t[q3] == 0x23u8);
                }
                assert(!byte_at(t, q3, 0x3F));
            },
            Some(q) => {
                assert(t[q3] == 0x3Fu8);
                assert forall|k: int| q3 + 1 <= k < q4 implies query_p(t[k]) by {
                    assert(t[k] == q[k - (q3 + 1)]);
                }
                if q4 < t.len() {
                    assert(t[q4] == 0x23u8);
                    assert(!query_p(t[q4]));
                }
                lemma_scan_end_unique(t, q3 + 1, query_p, q4);
                assert(t.subrange(q3 + 1, q4) =~= q);
            },
        }
    }

    // The fragment is found exactly when one was stored, and consumes the
    // rest of the text.
    assert(match u.fragment {
        None => q4 == t.len() && fragment_at(t, q4) is None,
        Some(f) => fragment_at(t, q4) == Some((t.len() as int, f)),
    }) by {
        match u.fragment {
            None => {
                assert(q4 == t.len());
                assert(!byte_at(t, q4, 0x23));
            },
            Some(f) => {
                assert(t[q4] == 0x23u8);
                assert forall|k: int| q4 + 1 <= k < t.len() implies query_p(t[k]) by {
                    assert(t[k] == f[k - (q4 + 1)]);
                }
                lemma_scan_end_unique(t, q4 + 1, query_p, t.len() as int);
                assert(t.subrange(q4 + 1, t.len() as int) =~= f);
            },
        }
    }

    match uri_at(t, 0) {
        None => {
            assert(false);
        },
        Some((end, v)) => {
            assert(end == t.len());
            assert(v.scheme == u.scheme);
            assert(v.authority == u.authority);
            assert(v.path == u.path);
            assert(v.query == u.query);
            assert(v.fragment == u.fragment);
        },
    }
}

/// Parsing is idempotent on its structural decomposition: re-serializing
/// the components of a parsed URI and parsing the result yields exactly
/// the same components, with nothing left over.
pub proof fn lemma_uri_reparse(s: Seq<u8>, e: int, u: UriView)
    requires
        uri_at(s, 0) == Some((e, u)),
    ensures
        uri_at(uri_recomposed(u), 0) == Some((uri_recomposed(u).len() as int, u)),
{
    if u.authority is None {
        lemma_uri_reparse_no_authority(s, e, u);
    } else {
        lemma_uri_reparse_with_authority(s, e, u);
    }
}

} // verus!
