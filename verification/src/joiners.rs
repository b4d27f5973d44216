//! The ContextJ and other contextual codepoint rules (RFC 5892 appendix
//! A) that label validity checks on non-ASCII labels.
//!
//! Zero-width non-joiner needs a preceding Virama-class codepoint, or a
//! left-or-dual-joining codepoint before it and a right-or-dual-joining
//! codepoint after it, skipping transparent codepoints on each side.
//! Zero-width joiner needs a preceding Virama. Middle dot needs `l` on
//! both sides. Greek lower numeral sign needs a following Greek-script
//! codepoint; Hebrew geresh a preceding Hebrew-script one. Katakana
//! middle dot needs some Hiragana, Katakana, or Han codepoint in the
//! label. Arabic-Indic and Extended Arabic-Indic digits never share a
//! label.

use vstd::prelude::*;

use crate::unicode_data::JoinClass;
use crate::unicode_data::ScriptClass;
use crate::unicode_data::char_script;
use crate::unicode_data::combining_class;
use crate::unicode_data::combining_class_of;
use crate::unicode_data::joining_type;
use crate::unicode_data::joining_type_of;
use crate::unicode_data::script_of;

verus! {

/// The canonical combining class number of the Virama class.
pub const VIRAMA_COMBINING_CLASS: u8 = 9;

/// Whether a codepoint has Virama canonical combining class.
pub open spec fn is_virama(c: char) -> bool {
    combining_class_of(c) == VIRAMA_COMBINING_CLASS
}

/// Whether a codepoint's joining type is transparent.
pub open spec fn is_transparent(c: char) -> bool {
    joining_type_of(c) == JoinClass::Transparent
}

/// Whether a codepoint joins to the left (left- or dual-joining).
pub open spec fn joins_left(c: char) -> bool {
    joining_type_of(c) == JoinClass::LeftJoining || joining_type_of(c) == JoinClass::DualJoining
}

/// Whether a codepoint joins to the right (right- or dual-joining).
pub open spec fn joins_right(c: char) -> bool {
    joining_type_of(c) == JoinClass::RightJoining || joining_type_of(c) == JoinClass::DualJoining
}

/// The nearest non-transparent position strictly before `i`, or -1.
pub open spec fn left_anchor(l: Seq<char>, i: int) -> int
    decreases i,
    when 0 <= i <= l.len()
{
    if i <= 0 {
        -1
    } else if !is_transparent(l[i - 1]) {
        i - 1
    } else {
        left_anchor(l, i - 1)
    }
}

/// The nearest non-transparent position strictly after `i`, or the
/// label's length.
pub open spec fn right_anchor(l: Seq<char>, i: int) -> int
    decreases l.len() - i,
    when 0 <= i <= l.len()
{
    if i + 1 >= l.len() {
        l.len() as int
    } else if !is_transparent(l[i + 1]) {
        i + 1
    } else {
        right_anchor(l, i + 1)
    }
}

/// The rule for zero-width non-joiner at position `i`: a Virama directly
/// before it, or joining context on both sides across transparent
/// codepoints.
pub open spec fn zwnj_ok(l: Seq<char>, i: int) -> bool
    recommends
        0 <= i < l.len(),
{
    (i > 0 && is_virama(l[i - 1])) || {
        let la = left_anchor(l, i);
        let ra = right_anchor(l, i);
        la >= 0 && joins_left(l[la]) && ra < l.len() && joins_right(l[ra])
    }
}

/// Whether a codepoint's script is Hiragana, Katakana, or Han.
pub open spec fn is_cjk_script(c: char) -> bool {
    script_of(c) == ScriptClass::Hiragana || script_of(c) == ScriptClass::Katakana || script_of(c)
        == ScriptClass::Han
}

/// Some codepoint of the label has Hiragana, Katakana, or Han script.
pub open spec fn has_cjk_script(l: Seq<char>) -> bool {
    exists|j: int| 0 <= j < l.len() && is_cjk_script(#[trigger] l[j])
}

/// Some codepoint of the label is an Extended Arabic-Indic digit.
pub open spec fn has_ext_arabic_digit(l: Seq<char>) -> bool {
    exists|j: int| 0 <= j < l.len() && '\u{06F0}' <= #[trigger] l[j] && l[j] <= '\u{06F9}'
}

/// The contextual rules as they constrain the codepoint at position `i`.
pub open spec fn joiner_char_ok(l: Seq<char>, i: int) -> bool
    recommends
        0 <= i < l.len(),
{
    let c = l[i];
    &&& (c == '\u{200C}' ==> zwnj_ok(l, i))
    &&& (c == '\u{200D}' ==> i > 0 && is_virama(l[i - 1]))
    &&& (c == '\u{00B7}' ==> i > 0 && i + 1 < l.len() && l[i - 1] == '\u{006C}' && l[i + 1]
        == '\u{006C}')
    &&& (c == '\u{0375}' ==> i + 1 < l.len() && script_of(l[i + 1]) == ScriptClass::Greek)
    &&& (c == '\u{05F3}' ==> i > 0 && script_of(l[i - 1]) == ScriptClass::Hebrew)
    &&& (c == '\u{30FB}' ==> has_cjk_script(l))
    &&& (('\u{0660}' <= c && c <= '\u{0669}') ==> !has_ext_arabic_digit(l))
}

/// Every codepoint of the label satisfies the contextual rules.
pub open spec fn joiners_ok(l: Seq<char>) -> bool {
    forall|i: int| 0 <= i < l.len() ==> #[trigger] joiner_char_ok(l, i)
}

fn is_virama_exec(c: char) -> (r: bool)
    ensures
        r == is_virama(c),
{
    combining_class(c) == VIRAMA_COMBINING_CLASS
}

fn find_left_anchor(l: &Vec<char>, i: usize) -> (r: Option<usize>)
    requires
        i <= l@.len(),
    ensures
        match r {
            Some(j) => left_anchor(l@, i as int) == j as int && j < i,
            None => left_anchor(l@, i as int) == -1,
        },
    decreases i,
{
    if i == 0 {
        None
    } else {
        let jt = joining_type(l[i - 1]);
        if !(jt == JoinClass::Transparent) {
            Some(i - 1)
        } else {
            find_left_anchor(l, i - 1)
        }
    }
}

fn find_right_anchor(l: &Vec<char>, i: usize) -> (r: Option<usize>)
    requires
        i <= l@.len(),
    ensures
        match r {
            Some(j) => right_anchor(l@, i as int) == j as int && j < l@.len(),
            None => right_anchor(l@, i as int) == l@.len(),
        },
    decreases l@.len() - i,
{
    let n = l.len();
    if n == 0 || i >= n - 1 {
        None
    } else {
        let jt = joining_type(l[i + 1]);
        if !(jt == JoinClass::Transparent) {
            Some(i + 1)
        } else {
            find_right_anchor(l, i + 1)
        }
    }
}

fn zwnj_valid(l: &Vec<char>, i: usize) -> (r: bool)
    requires
        i < l@.len(),
    ensures
        r == zwnj_ok(l@, i as int),
{
    if i > 0 && is_virama_exec(l[i - 1]) {
        return true;
    }
    let la = match find_left_anchor(l, i) {
        None => {
            return false;
        },
        Some(j) => j,
    };
    let jt = joining_type(l[la]);
    if !(jt == JoinClass::LeftJoining || jt == JoinClass::DualJoining) {
        return false;
    }
    let ra = match find_right_anchor(l, i) {
        None => {
            return false;
        },
        Some(j) => j,
    };
    let jt = joining_type(l[ra]);
    jt == JoinClass::RightJoining || jt == JoinClass::DualJoining
}

fn has_cjk(l: &Vec<char>) -> (r: bool)
    ensures
        r == has_cjk_script(l@),
{
    let mut j: usize = 0;
    while j < l.len()
        invariant
            0 <= j <= l@.len(),
            forall|k: int| 0 <= k < j ==> !is_cjk_script(#[trigger] l@[k]),
        decreases l@.len() - j,
    {
        let sc = char_script(l[j]);
        if sc == ScriptClass::Hiragana || sc == ScriptClass::Katakana || sc == ScriptClass::Han {
            return true;
        }
        j = j + 1;
    }
    false
}

fn has_ext_arabic(l: &Vec<char>) -> (r: bool)
    ensures
        r == has_ext_arabic_digit(l@),
{
    let mut j: usize = 0;
    while j < l.len()
        invariant
            0 <= j <= l@.len(),
            forall|k: int| 0 <= k < j ==> !('\u{06F0}' <= #[trigger] l@[k] && l@[k] <= '\u{06F9}'),
        decreases l@.len() - j,
    {
        let c = l[j];
        if '\u{06F0}' <= c && c <= '\u{06F9}' {
            return true;
        }
        j = j + 1;
    }
    false
}

fn joiner_char_valid(l: &Vec<char>, i: usize) -> (r: bool)
    requires
        i < l@.len(),
    ensures
        r == joiner_char_ok(l@, i as int),
{
    let c = l[i];
    if c == '\u{200C}' {
        zwnj_valid(l, i)
    } else if c == '\u{200D}' {
        i > 0 && is_virama_exec(l[i - 1])
    } else if c == '\u{00B7}' {
        let n = l.len();
        i > 0 && i + 1 < n && l[i - 1] == '\u{006C}' && l[i + 1] == '\u{006C}'
    } else if c == '\u{0375}' {
        let n = l.len();
        if i + 1 < n {
            let sc = char_script(l[i + 1]);
            sc == ScriptClass::Greek
        } else {
            false
        }
    } else if c == '\u{05F3}' {
        if i > 0 {
            let sc = char_script(l[i - 1]);
            sc == ScriptClass::Hebrew
        } else {
            false
        }
    } else if c == '\u{30FB}' {
        has_cjk(l)
    } else if '\u{0660}' <= c && c <= '\u{0669}' {
        !has_ext_arabic(l)
    } else {
        true
    }
}

/// Whether every codepoint of the label satisfies the contextual joiner
/// rules of RFC 5892 appendix A.
pub fn label_has_valid_joiners(label: &Vec<char>) -> (r: bool)
    ensures
        r == joiners_ok(label@),
{
    let mut i: usize = 0;
    while i < label.len()
        invariant
            0 <= i <= label@.len(),
            forall|j: int| 0 <= j < i ==> #[trigger] joiner_char_ok(label@, j),
        decreases label@.len() - i,
    {
        if !joiner_char_valid(label, i) {
            return false;
        }
        i = i + 1;
    }
    true
}

/// Joiner rule, positive side: a zero-width non-joiner directly preceded
/// by a Virama-class codepoint satisfies its contextual rule, whatever
/// the joining types around it.
pub proof fn lemma_zwnj_after_virama(l: Seq<char>, i: int)
    requires
        0 < i < l.len(),
        l[i] == '\u{200C}',
        is_virama(l[i - 1]),
    ensures
        joiner_char_ok(l, i),
{
}

/// Joiner rule, negative side: a label that starts with a zero-width
/// non-joiner has no Virama predecessor and no joining context to its
/// left, so the label fails the contextual rules.
pub proof fn lemma_zwnj_at_start(l: Seq<char>)
    requires
        l.len() > 0,
        l[0] == '\u{200C}',
    ensures
        !joiners_ok(l),
{
    assert(left_anchor(l, 0) == -1);
    assert(!zwnj_ok(l, 0));
    assert(!joiner_char_ok(l, 0));
}

} // verus!
