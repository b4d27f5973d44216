//! Percent-encoding of text against the WHATWG percent-encode sets.
//!
//! Each set is a predicate over characters; encoding replaces every
//! character in the chosen set by `%`-prefixed uppercase hex pairs of its
//! UTF-8 bytes, or by `+` when space-as-plus substitution is selected.

use vstd::prelude::*;

verus! {

/// A C0 control is a code point in the range U+0000 to U+001F, inclusive.
pub open spec fn spec_is_c0_control(c: char) -> bool {
    (c as u32) <= 0x1F
}

/// The C0 control percent-encode set: the C0 controls and all code points
/// greater than U+007E (`~`).
pub open spec fn spec_is_c0_control_percent_encode(c: char) -> bool {
    spec_is_c0_control(c) || (c as u32) > 0x7E
}

/// The fragment percent-encode set: C0 control set plus space, `"`, `<`,
/// `>`, and backquote.
pub open spec fn spec_is_fragment_percent_encode(c: char) -> bool {
    spec_is_c0_control_percent_encode(c) || c == ' ' || c == '"' || c == '<' || c == '>'
        || c == '`'
}

/// The query percent-encode set: C0 control set plus space, `"`, `#`, `<`,
/// and `>`.
pub open spec fn spec_is_query_percent_encode(c: char) -> bool {
    spec_is_c0_control_percent_encode(c) || c == ' ' || c == '"' || c == '#' || c == '<'
        || c == '>'
}

/// The special-query percent-encode set: the query set plus `'`.
pub open spec fn spec_is_special_query_percent_encode(c: char) -> bool {
    spec_is_query_percent_encode(c) || c == '\''
}

/// The path percent-encode set: the query set plus `?`, backquote, `{`,
/// and `}`.
pub open spec fn spec_is_path_percent_encode(c: char) -> bool {
    spec_is_query_percent_encode(c) || c == '?' || c == '`' || c == '{' || c == '}'
}

/// The userinfo percent-encode set: the path set plus `/`, `:`, `;`, `=`,
/// `@`, `[` to `^` inclusive, and `|`.
pub open spec fn spec_is_userinfo_percent_encode(c: char) -> bool {
    spec_is_path_percent_encode(c) || c == '/' || c == ':' || c == ';' || c == '=' || c == '@'
        || ('[' <= c && c <= '^') || c == '|'
}

/// The component percent-encode set: the userinfo set plus `$` to `&`
/// inclusive, `+`, and `,`.
pub open spec fn spec_is_component_percent_encode(c: char) -> bool {
    spec_is_userinfo_percent_encode(c) || ('$' <= c && c <= '&') || c == '+' || c == ','
}

pub fn is_c0_control(c: char) -> (r: bool)
    ensures
        r == spec_is_c0_control(c),
{
    c <= '\u{1F}'
}

pub fn is_c0_control_percent_encode(c: char) -> (r: bool)
    ensures
        r == spec_is_c0_control_percent_encode(c),
{
    is_c0_control(c) || c > '\u{7E}'
}

pub fn is_fragment_percent_encode(c: char) -> (r: bool)
    ensures
        r == spec_is_fragment_percent_encode(c),
{
    is_c0_control_percent_encode(c) || c == ' ' || c == '"' || c == '<' || c == '>' || c == '`'
}

pub fn is_query_percent_encode(c: char) -> (r: bool)
    ensures
        r == spec_is_query_percent_encode(c),
{
    is_c0_control_percent_encode(c) || c == ' ' || c == '"' || c == '#' || c == '<' || c == '>'
}

pub fn is_special_query_percent_encode(c: char) -> (r: bool)
    ensures
        r == spec_is_special_query_percent_encode(c),
{
    is_query_percent_encode(c) || c == '\''
}

pub fn is_path_percent_encode(c: char) -> (r: bool)
    ensures
        r == spec_is_path_percent_encode(c),
{
    is_query_percent_encode(c) || c == '?' || c == '`' || c == '{' || c == '}'
}

pub fn is_userinfo_percent_encode(c: char) -> (r: bool)
    ensures
        r == spec_is_userinfo_percent_encode(c),
{
    is_path_percent_encode(c) || c == '/' || c == ':' || c == ';' || c == '=' || c == '@' || ('['
        <= c && c <= '^') || c == '|'
}

pub fn is_component_percent_encode(c: char) -> (r: bool)
    ensures
        r == spec_is_component_percent_encode(c),
{
    is_userinfo_percent_encode(c) || ('$' <= c && c <= '&') || c == '+' || c == ','
}

/// A percent-encode set, selecting one of the character predicates above.
#[derive(Clone, Copy, PartialEq, Eq, Structural, Debug)]
pub enum EncodeSet {
    C0Control,
    Fragment,
    Query,
    SpecialQuery,
    Path,
    UserInfo,
    Component,
    /// Every character is encoded.
    All,
}

/// Whether character `c` belongs to the percent-encode set `set`.
pub open spec fn spec_encode_set_contains(set: EncodeSet, c: char) -> bool {
    match set {
        EncodeSet::C0Control => spec_is_c0_control_percent_encode(c),
        EncodeSet::Fragment => spec_is_fragment_percent_encode(c),
        EncodeSet::Query => spec_is_query_percent_encode(c),
        EncodeSet::SpecialQuery => spec_is_special_query_percent_encode(c),
        EncodeSet::Path => spec_is_path_percent_encode(c),
        EncodeSet::UserInfo => spec_is_userinfo_percent_encode(c),
        EncodeSet::Component => spec_is_component_percent_encode(c),
        EncodeSet::All => true,
    }
}

pub fn encode_set_contains(set: EncodeSet, c: char) -> (r: bool)
    ensures
        r == spec_encode_set_contains(set, c),
{
    match set {
        EncodeSet::C0Control => is_c0_control_percent_encode(c),
        EncodeSet::Fragment => is_fragment_percent_encode(c),
        EncodeSet::Query => is_query_percent_encode(c),
        EncodeSet::SpecialQuery => is_special_query_percent_encode(c),
        EncodeSet::Path => is_path_percent_encode(c),
        EncodeSet::UserInfo => is_userinfo_percent_encode(c),
        EncodeSet::Component => is_component_percent_encode(c),
        EncodeSet::All => true,
    }
}

/// The uppercase hexadecimal digit for a value below 16.
pub open spec fn spec_hex_digit(n: u8) -> char {
    if n < 10 {
        (0x30 + n) as char
    } else {
        (0x41 + (n - 10)) as char
    }
}

pub fn u8_to_hex(c: u8) -> (r: char)
    requires
        c < 16,
    ensures
        r == spec_hex_digit(c),
{
    match c {
        0 => '0',
        1 => '1',
        2 => '2',
        3 => '3',
        4 => '4',
        5 => '5',
        6 => '6',
        7 => '7',
        8 => '8',
        9 => '9',
        10 => 'A',
        11 => 'B',
        12 => 'C',
        13 => 'D',
        14 => 'E',
        _ => 'F',
    }
}

pub fn u8_to_hex_pair(c: u8) -> (r: (char, char))
    ensures
        r.0 == spec_hex_digit(c / 16),
        r.1 == spec_hex_digit(c % 16),
{
    let c_high = c >> 4;
    let c_low = c & 0x0F;
    proof {
        assert(c >> 4 == c / 16 && (c & 0x0F) == c % 16 && c / 16 < 16 && c % 16 < 16)
            by (bit_vector);
    }
    (u8_to_hex(c_high), u8_to_hex(c_low))
}

/// The UTF-8 encoding of a single character.
pub open spec fn spec_utf8_bytes(c: char) -> Seq<u8> {
    let u = c as u32;
    if u < 0x80 {
        seq![u as u8]
    } else if u < 0x800 {
        seq![(0xC0u32 | (u >> 6)) as u8, (0x80u32 | (u & 0x3F)) as u8]
    } else if u < 0x10000 {
        seq![
            (0xE0u32 | (u >> 12)) as u8,
            (0x80u32 | ((u >> 6) & 0x3F)) as u8,
            (0x80u32 | (u & 0x3F)) as u8,
        ]
    } else {
        seq![
            (0xF0u32 | (u >> 18)) as u8,
            (0x80u32 | ((u >> 12) & 0x3F)) as u8,
            (0x80u32 | ((u >> 6) & 0x3F)) as u8,
            (0x80u32 | (u & 0x3F)) as u8,
        ]
    }
}

pub fn utf8_bytes(c: char) -> (r: Vec<u8>)
    ensures
        r@ == spec_utf8_bytes(c),
{
    let u = c as u32;
    let mut out: Vec<u8> = Vec::new();
    if u < 0x80 {
        out.push(u as u8);
    } else if u < 0x800 {
        proof {
            assert(u < 0x800 ==> (0xC0u32 | (u >> 6)) < 256 && (0x80u32 | (u & 0x3F)) < 256)
                by (bit_vector);
        }
        out.push((0xC0u32 | (u >> 6)) as u8);
        out.push((0x80u32 | (u & 0x3F)) as u8);
    } else if u < 0x10000 {
        proof {
            assert(u < 0x10000 ==> (0xE0u32 | (u >> 12)) < 256 && (0x80u32 | ((u >> 6) & 0x3F))
                < 256 && (0x80u32 | (u & 0x3F)) < 256) by (bit_vector);
        }
        out.push((0xE0u32 | (u >> 12)) as u8);
        out.push((0x80u32 | ((u >> 6) & 0x3F)) as u8);
        out.push((0x80u32 | (u & 0x3F)) as u8);
    } else {
        proof {
            assert(u <= 0x10FFFF ==> (0xF0u32 | (u >> 18)) < 256 && (0x80u32 | ((u >> 12) & 0x3F))
                < 256 && (0x80u32 | ((u >> 6) & 0x3F)) < 256 && (0x80u32 | (u & 0x3F)) < 256)
                by (bit_vector);
            assert(u <= 0x10FFFF);
        }
        out.push((0xF0u32 | (u >> 18)) as u8);
        out.push((0x80u32 | ((u >> 12) & 0x3F)) as u8);
        out.push((0x80u32 | ((u >> 6) & 0x3F)) as u8);
        out.push((0x80u32 | (u & 0x3F)) as u8);
    }
    proof {
        assert(out@ =~= spec_utf8_bytes(c));
    }
    out
}

/// The `%XX` hex-pair expansion of a byte sequence.
pub open spec fn spec_pct_chars(bs: Seq<u8>) -> Seq<char>
    decreases bs.len(),
{
    if bs.len() == 0 {
        Seq::empty()
    } else {
        seq!['%', spec_hex_digit(bs[0] / 16), spec_hex_digit(bs[0] % 16)] + spec_pct_chars(
            bs.skip(1),
        )
    }
}

/// What percent-encoding one character appends to the output.
pub open spec fn spec_encoded_char(c: char, space_as_plus: bool, set: EncodeSet) -> Seq<char> {
    if !spec_encode_set_contains(set, c) {
        seq![c]
    } else if space_as_plus {
        seq!['+']
    } else {
        spec_pct_chars(spec_utf8_bytes(c))
    }
}

/// What percent-encoding a whole string yields.
pub open spec fn spec_percent_encode(s: Seq<char>, space_as_plus: bool, set: EncodeSet) -> Seq<
    char,
>
    decreases s.len(),
{
    if s.len() == 0 {
        Seq::empty()
    } else {
        spec_encoded_char(s[0], space_as_plus, set) + spec_percent_encode(
            s.skip(1),
            space_as_plus,
            set,
        )
    }
}

/// Percent-encoding leaves a string without set members unchanged.
proof fn lemma_percent_encode_identity(s: Seq<char>, space_as_plus: bool, set: EncodeSet)
    requires
        forall|i: int| 0 <= i < s.len() ==> !spec_encode_set_contains(set, #[trigger] s[i]),
    ensures
        spec_percent_encode(s, space_as_plus, set) == s,
    decreases s.len(),
{
    if s.len() == 0 {
        assert(spec_percent_encode(s, space_as_plus, set) =~= s);
    } else {
        lemma_percent_encode_identity(s.skip(1), space_as_plus, set);
        assert(spec_percent_encode(s, space_as_plus, set) =~= s);
    }
}

/// Percent-encoding distributes over concatenation.
proof fn lemma_percent_encode_concat(a: Seq<char>, b: Seq<char>, space_as_plus: bool, set:
    EncodeSet)
    ensures
        spec_percent_encode(a + b, space_as_plus, set) == spec_percent_encode(
            a,
            space_as_plus,
            set,
        ) + spec_percent_encode(b, space_as_plus, set),
    decreases a.len(),
{
    if a.len() == 0 {
        assert(a + b =~= b);
        assert(spec_percent_encode(a + b, space_as_plus, set) =~= spec_percent_encode(
            a,
            space_as_plus,
            set,
        ) + spec_percent_encode(b, space_as_plus, set));
    } else {
        assert((a + b).skip(1) =~= a.skip(1) + b);
        assert((a + b)[0] == a[0]);
        assert((a + b).len() > 0);
        lemma_percent_encode_concat(a.skip(1), b, space_as_plus, set);
        assert(spec_percent_encode(a + b, space_as_plus, set) =~= spec_percent_encode(
            a,
            space_as_plus,
            set,
        ) + spec_percent_encode(b, space_as_plus, set));
    }
}

/// Appending one encoded character extends the encoding of the prefix.
proof fn lemma_percent_encode_snoc(s: Seq<char>, i: int, space_as_plus: bool, set: EncodeSet)
    requires
        0 <= i < s.len(),
    ensures
        spec_percent_encode(s.subrange(0, i + 1), space_as_plus, set) == spec_percent_encode(
            s.subrange(0, i),
            space_as_plus,
            set,
        ) + spec_encoded_char(s[i], space_as_plus, set),
{
    let pre1 = s.subrange(0, i + 1);
    let pre0 = s.subrange(0, i);
    let one = seq![s[i]];
    assert(pre1 =~= pre0 + one);
    lemma_percent_encode_concat(pre0, one, space_as_plus, set);
    reveal_with_fuel(spec_percent_encode, 2);
    assert(one.skip(1) =~= Seq::<char>::empty());
    assert(spec_percent_encode(one, space_as_plus, set) =~= spec_encoded_char(
        s[i],
        space_as_plus,
        set,
    ));
}

/// Percent-encode one character into `out`, which is taken and returned.
pub fn percent_encode_char(c: char, out: Vec<char>, space_as_plus: bool, set: EncodeSet) -> (r:
    Vec<char>)
    ensures
        r@ == out@ + spec_encoded_char(c, space_as_plus, set),
{
    let mut out = out;
    let ghost base = out@;
    if !encode_set_contains(set, c) {
        out.push(c);
        proof {
            assert(out@ =~= base + spec_encoded_char(c, space_as_plus, set));
        }
        return out;
    }
    if space_as_plus {
        out.push('+');
        proof {
            assert(out@ =~= base + spec_encoded_char(c, space_as_plus, set));
        }
        return out;
    }
    let bytes = utf8_bytes(c);
    let mut i: usize = 0;
    while i < bytes.len()
        invariant
            0 <= i <= bytes@.len(),
            out@ == base + spec_pct_chars(bytes@.subrange(0, i as int)),
            bytes@ == spec_utf8_bytes(c),
        decreases bytes@.len() - i,
    {
        let b = bytes[i];
        out.push('%');
        let (hi, lo) = u8_to_hex_pair(b);
        out.push(hi);
        out.push(lo);
        proof {
            lemma_pct_chars_snoc(bytes@, i as int);
            assert(out@ =~= base + spec_pct_chars(bytes@.subrange(0, i + 1)));
        }
        i = i + 1;
    }
    proof {
        assert(bytes@.subrange(0, bytes@.len() as int) =~= bytes@);
    }
    out
}

/// The hex-pair expansion of one more byte extends the expansion of the
/// byte prefix.
proof fn lemma_pct_chars_concat(a: Seq<u8>, b: Seq<u8>)
    ensures
        spec_pct_chars(a + b) == spec_pct_chars(a) + spec_pct_chars(b),
    decreases a.len(),
{
    if a.len() == 0 {
        assert(a + b =~= b);
        assert(spec_pct_chars(a + b) =~= spec_pct_chars(a) + spec_pct_chars(b));
    } else {
        assert((a + b).skip(1) =~= a.skip(1) + b);
        assert((a + b)[0] == a[0]);
        assert((a + b).len() > 0);
        lemma_pct_chars_concat(a.skip(1), b);
        assert(spec_pct_chars(a + b) =~= spec_pct_chars(a) + spec_pct_chars(b));
    }
}

proof fn lemma_pct_chars_snoc(bs: Seq<u8>, i: int)
    requires
        0 <= i < bs.len(),
    ensures
        spec_pct_chars(bs.subrange(0, i + 1)) == spec_pct_chars(bs.subrange(0, i)) + seq![
            '%',
            spec_hex_digit(bs[i] / 16),
            spec_hex_digit(bs[i] % 16),
        ],
{
    let pre1 = bs.subrange(0, i + 1);
    let pre0 = bs.subrange(0, i);
    let one = seq![bs[i]];
    assert(pre1 =~= pre0 + one);
    lemma_pct_chars_concat(pre0, one);
    reveal_with_fuel(spec_pct_chars, 2);
    assert(one.skip(1) =~= Seq::<u8>::empty());
    assert(spec_pct_chars(one) =~= seq![
        '%',
        spec_hex_digit(bs[i] / 16),
        spec_hex_digit(bs[i] % 16),
    ]);
}

/// Percent-encode a string against the chosen set. Characters outside the
/// set pass through unchanged; with `space_as_plus`, set members become
/// `+`; otherwise each set member becomes the `%XX` pairs of its UTF-8
/// bytes.
pub fn percent_encode(input: &Vec<char>, space_as_plus: bool, set: EncodeSet) -> (r: Vec<char>)
    ensures
        r@ == spec_percent_encode(input@, space_as_plus, set),
{
    // Fast path: nothing needs encoding, so the result is the input itself.
    let mut all_plain = true;
    let mut i: usize = 0;
    while i < input.len()
        invariant
            0 <= i <= input@.len(),
            all_plain == (forall|j: int|
                0 <= j < i ==> !spec_encode_set_contains(set, #[trigger] input@[j])),
        decreases input@.len() - i,
    {
        if encode_set_contains(set, input[i]) {
            all_plain = false;
            i = input.len();
        } else {
            i = i + 1;
        }
    }
    if all_plain {
        proof {
            lemma_percent_encode_identity(input@, space_as_plus, set);
        }
        let copy = crate::chars::sub_chars(input, 0, input.len());
        proof {
            assert(copy@ =~= input@);
        }
        return copy;
    }
    let mut out: Vec<char> = Vec::new();
    let mut i: usize = 0;
    while i < input.len()
        invariant
            0 <= i <= input@.len(),
            out@ == spec_percent_encode(input@.subrange(0, i as int), space_as_plus, set),
        decreases input@.len() - i,
    {
        out = percent_encode_char(input[i], out, space_as_plus, set);
        proof {
            lemma_percent_encode_snoc(input@, i as int, space_as_plus, set);
        }
        i = i + 1;
    }
    proof {
        assert(input@.subrange(0, input@.len() as int) =~= input@);
    }
    out
}

} // verus!
