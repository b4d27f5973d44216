//! The Unicode property lookups and the Punycode transcoder that the IDNA
//! pipeline consumes.
//!
//! Every item here is a thin boundary over an outside crate's read-only
//! table or algorithm. Each result that is a pure function of the
//! arguments is given an uninterpreted name, and the contracts of the
//! verified pipeline are stated over those names.

use unic::ucd::BidiClass as UcdBidiClass;
use unic::ucd::CanonicalCombiningClass;
use unic::ucd::CharBidiClass;
use unic::ucd::normal::is_combining_mark;
use unic_idna_mapping::Mapping;
use unicode_joining_type::JoiningType;
use unicode_joining_type::get_joining_type;
use unicode_script::Script;
use unicode_script::UnicodeScript;
use vstd::prelude::*;

verus! {

/// The joining type of a codepoint, as the joiner rules read it.
#[derive(Clone, Copy, PartialEq, Eq, Structural, Debug)]
pub enum JoinClass {
    DualJoining,
    JoinCausing,
    LeftJoining,
    NonJoining,
    RightJoining,
    Transparent,
}

/// The Bidi class of a codepoint, with every class the Bidi label rules
/// do not distinguish collapsed into `Other`.
#[derive(Clone, Copy, PartialEq, Eq, Structural, Debug)]
pub enum BidiCat {
    LeftToRight,
    RightToLeft,
    ArabicLetter,
    ArabicNumber,
    EuropeanNumber,
    EuropeanSeparator,
    CommonSeparator,
    EuropeanTerminator,
    OtherNeutral,
    BoundaryNeutral,
    NonspacingMark,
    Other,
}

/// The script of a codepoint, with every script the contextual rules do
/// not distinguish collapsed into `Other`.
#[derive(Clone, Copy, PartialEq, Eq, Structural, Debug)]
pub enum ScriptClass {
    Greek,
    Hebrew,
    Hiragana,
    Katakana,
    Han,
    Other,
}

/// The TR46 mapping status of a codepoint, with replacement text where
/// the table supplies one.
#[derive(PartialEq, Eq, Debug, Clone)]
pub enum CharMapping {
    Valid,
    Ignored,
    Mapped(Vec<char>),
    Deviation(Vec<char>),
    Disallowed,
    DisallowedStd3Valid,
    DisallowedStd3Mapped(Vec<char>),
}

/// The mathematical value of a `CharMapping`.
pub enum MappingView {
    Valid,
    Ignored,
    Mapped(Seq<char>),
    Deviation(Seq<char>),
    Disallowed,
    DisallowedStd3Valid,
    DisallowedStd3Mapped(Seq<char>),
}

impl View for CharMapping {
    type V = MappingView;

    open spec fn view(&self) -> MappingView {
        match self {
            CharMapping::Valid => MappingView::Valid,
            CharMapping::Ignored => MappingView::Ignored,
            CharMapping::Mapped(t) => MappingView::Mapped(t@),
            CharMapping::Deviation(t) => MappingView::Deviation(t@),
            CharMapping::Disallowed => MappingView::Disallowed,
            CharMapping::DisallowedStd3Valid => MappingView::DisallowedStd3Valid,
            CharMapping::DisallowedStd3Mapped(t) => MappingView::DisallowedStd3Mapped(t@),
        }
    }
}

/// The TR46 IDNA mapping status of a codepoint.
pub uninterp spec fn mapping_of(c: char) -> MappingView;

/// Unicode Normalization Form C of a character sequence.
pub uninterp spec fn nfc_of(s: Seq<char>) -> Seq<char>;

/// The canonical combining class number of a codepoint.
pub uninterp spec fn combining_class_of(c: char) -> u8;

/// The joining type of a codepoint.
pub uninterp spec fn joining_type_of(c: char) -> JoinClass;

/// The Bidi class of a codepoint.
pub uninterp spec fn bidi_class_of(c: char) -> BidiCat;

/// The script of a codepoint.
pub uninterp spec fn script_of(c: char) -> ScriptClass;

/// Whether a codepoint is a combining mark (General_Category=Mark).
pub uninterp spec fn combining_mark(c: char) -> bool;

/// The decoder input length past which the transcoder is not consulted:
/// beyond it, the algorithm's 32-bit counters could leave their range.
pub const PUNY_DECODE_LIMIT: u64 = 4294967294;

/// The encoder input length past which the transcoder is not consulted:
/// beyond it, the algorithm's 32-bit counters could leave their range.
pub const PUNY_ENCODE_LIMIT: u64 = 3000;

/// What Punycode decoding yields on a character sequence, `None` for a
/// malformed encoding.
pub uninterp spec fn puny_decode_of(s: Seq<char>) -> Option<Seq<char>>;

/// What Punycode encoding yields on a character sequence, `None` when
/// the algorithm reports failure.
pub uninterp spec fn puny_encode_of(s: Seq<char>) -> Option<Seq<char>>;

/// Relies on `unic_idna_mapping::Mapping::of`: the TR46 IDNA Mapping
/// Table status of a codepoint, a function of the codepoint alone.
#[verifier::external_body]
pub(crate) fn lookup_mapping(c: char) -> (r: CharMapping)
    ensures
        r@ == mapping_of(c),
{
    match Mapping::of(c) {
        Mapping::Valid => CharMapping::Valid,
        Mapping::Ignored => CharMapping::Ignored,
        Mapping::Mapped(t) => CharMapping::Mapped(t.chars().collect()),
        Mapping::Deviation(t) => CharMapping::Deviation(t.chars().collect()),
        Mapping::Disallowed => CharMapping::Disallowed,
        Mapping::DisallowedStd3Valid => CharMapping::DisallowedStd3Valid,
        Mapping::DisallowedStd3Mapped(t) => CharMapping::DisallowedStd3Mapped(t.chars().collect()),
    }
}

/// Relies on `unic::normal::StrNormalForm::nfc`: Unicode Normalization
/// Form C, a function of the character sequence alone. Applying it to
/// its own output changes nothing: UAX #15 documents every normalization
/// form as idempotent.
#[verifier::external_body]
pub(crate) fn nfc_chars(v: &Vec<char>) -> (r: Vec<char>)
    ensures
        r@ == nfc_of(v@),
        nfc_of(r@) == r@,
{
    let s: String = v.iter().collect();
    unic::normal::StrNormalForm::nfc(s.as_str()).collect()
}

/// Relies on `unic::ucd::CanonicalCombiningClass::of` and its `number`
/// accessor: the canonical combining class of a codepoint as its numeric
/// value.
#[verifier::external_body]
pub(crate) fn combining_class(c: char) -> (r: u8)
    ensures
        r == combining_class_of(c),
{
    CanonicalCombiningClass::of(c).number()
}

/// Relies on `unicode_joining_type::get_joining_type`: the joining type
/// of a codepoint. The source declares its enum non-exhaustive, so an
/// unknown variant reads as non-joining, the value the table itself uses
/// for unassigned codepoints.
#[verifier::external_body]
pub(crate) fn joining_type(c: char) -> (r: JoinClass)
    ensures
        r == joining_type_of(c),
{
    match get_joining_type(c) {
        JoiningType::DualJoining => JoinClass::DualJoining,
        JoiningType::JoinCausing => JoinClass::JoinCausing,
        JoiningType::LeftJoining => JoinClass::LeftJoining,
        JoiningType::NonJoining => JoinClass::NonJoining,
        JoiningType::RightJoining => JoinClass::RightJoining,
        JoiningType::Transparent => JoinClass::Transparent,
        _ => JoinClass::NonJoining,
    }
}

/// Relies on `unic::ucd::CharBidiClass::bidi_class`: the Bidi_Class of a
/// codepoint. Classes the Bidi label rules never name read as `Other`.
#[verifier::external_body]
pub(crate) fn bidi_class(c: char) -> (r: BidiCat)
    ensures
        r == bidi_class_of(c),
{
    match c.bidi_class() {
        UcdBidiClass::LeftToRight => BidiCat::LeftToRight,
        UcdBidiClass::RightToLeft => BidiCat::RightToLeft,
        UcdBidiClass::ArabicLetter => BidiCat::ArabicLetter,
        UcdBidiClass::ArabicNumber => BidiCat::ArabicNumber,
        UcdBidiClass::EuropeanNumber => BidiCat::EuropeanNumber,
        UcdBidiClass::EuropeanSeparator => BidiCat::EuropeanSeparator,
        UcdBidiClass::CommonSeparator => BidiCat::CommonSeparator,
        UcdBidiClass::EuropeanTerminator => BidiCat::EuropeanTerminator,
        UcdBidiClass::OtherNeutral => BidiCat::OtherNeutral,
        UcdBidiClass::BoundaryNeutral => BidiCat::BoundaryNeutral,
        UcdBidiClass::NonspacingMark => BidiCat::NonspacingMark,
        _ => BidiCat::Other,
    }
}

/// Relies on `unicode_script::UnicodeScript::script`: the script of a
/// codepoint. Scripts the contextual rules never name read as `Other`.
#[verifier::external_body]
pub(crate) fn char_script(c: char) -> (r: ScriptClass)
    ensures
        r == script_of(c),
{
    match UnicodeScript::script(&c) {
        Script::Greek => ScriptClass::Greek,
        Script::Hebrew => ScriptClass::Hebrew,
        Script::Hiragana => ScriptClass::Hiragana,
        Script::Katakana => ScriptClass::Katakana,
        Script::Han => ScriptClass::Han,
        _ => ScriptClass::Other,
    }
}

/// Relies on `unic::ucd::normal::is_combining_mark`: whether a codepoint
/// has General_Category=Mark.
#[verifier::external_body]
pub(crate) fn is_mark(c: char) -> (r: bool)
    ensures
        r == combining_mark(c),
{
    is_combining_mark(c)
}

/// Relies on `punycode::decode`: RFC 3492 decoding, a function of the
/// input characters alone; a malformed encoding yields `None`. The length
/// bound keeps the call away from inputs on which the algorithm's 32-bit
/// counters leave their range.
#[verifier::external_body]
pub(crate) fn punycode_decode(label: &Vec<char>) -> (r: Option<Vec<char>>)
    requires
        label@.len() < PUNY_DECODE_LIMIT,
    ensures
        match r {
            Some(v) => puny_decode_of(label@) == Some(v@),
            None => puny_decode_of(label@) is None,
        },
{
    let s: String = label.iter().collect();
    match punycode::decode(&s) {
        Ok(t) => Some(t.chars().collect()),
        Err(()) => None,
    }
}

/// Relies on `punycode::encode`: RFC 3492 encoding, a function of the
/// input characters alone; its result contains only ASCII characters,
/// and a reported failure yields `None`. The length bound keeps the call
/// away from inputs on which the algorithm's 32-bit counters leave their
/// range.
#[verifier::external_body]
pub(crate) fn punycode_encode(label: &Vec<char>) -> (r: Option<Vec<char>>)
    requires
        label@.len() <= PUNY_ENCODE_LIMIT,
    ensures
        match r {
            Some(v) => puny_encode_of(label@) == Some(v@) && crate::chars::seq_ascii(v@),
            None => puny_encode_of(label@) is None,
        },
{
    let s: String = label.iter().collect();
    match punycode::encode(&s) {
        Ok(t) => Some(t.chars().collect()),
        Err(()) => None,
    }
}

} // verus!
