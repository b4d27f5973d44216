use parse::idna::IdnaError;
use parse::idna::idna_ascii_to_unicode;
use parse::idna::idna_unicode_to_ascii;

fn cs(s: &str) -> Vec<char> {
    s.chars().collect()
}

#[test]
fn test_idna_no_alloc() {
    let res = idna_unicode_to_ascii(&cs("example.com"), true, true, true, true, false, true);
    assert!(res.is_ok());
}

#[test]
fn ascii_domains_pass_through() {
    let res = idna_unicode_to_ascii(&cs("example.com"), true, true, true, true, false, true);
    assert_eq!(res.unwrap(), cs("example.com"));

    let res = idna_ascii_to_unicode(&cs("sub.example-1.org"), true, true, true, true, false);
    assert_eq!(res.unwrap(), cs("sub.example-1.org"));

    // A trailing root dot is preserved.
    let res = idna_unicode_to_ascii(&cs("example.com."), true, true, true, true, false, true);
    assert_eq!(res.unwrap(), cs("example.com."));
}

#[test]
fn mapping_lowercases_and_folds() {
    let res = idna_unicode_to_ascii(&cs("ExAmple.COm"), true, true, true, true, false, true);
    assert_eq!(res.unwrap(), cs("example.com"));
}

#[test]
fn punycode_round_trip() {
    // "bücher.de" written with U+00FC.
    let unicode = cs("b\u{FC}cher.de");
    let ascii = idna_unicode_to_ascii(&unicode, true, true, true, true, false, true).unwrap();
    assert_eq!(ascii, cs("xn--bcher-kva.de"));

    let back = idna_ascii_to_unicode(&ascii, true, true, true, true, false).unwrap();
    assert_eq!(back, unicode);

    let same = idna_ascii_to_unicode(&unicode, true, true, true, true, false).unwrap();
    assert_eq!(same, unicode);
}

#[test]
fn transitional_processing_maps_deviations() {
    // U+00DF sharp s is a deviation character: kept nontransitionally,
    // mapped to "ss" transitionally.
    let input = cs("fa\u{DF}.de");
    let nontransitional =
        idna_unicode_to_ascii(&input, true, true, true, true, false, true).unwrap();
    assert_eq!(nontransitional, cs("xn--fa-hia.de"));

    let transitional = idna_unicode_to_ascii(&input, true, true, true, true, true, true).unwrap();
    assert_eq!(transitional, cs("fass.de"));

    let unicode = idna_ascii_to_unicode(&input, true, true, true, true, false).unwrap();
    assert_eq!(unicode, input);
}

#[test]
fn disallowed_character_is_reported() {
    let res = idna_ascii_to_unicode(&cs("a\u{80}b"), true, true, true, true, false);
    assert!(matches!(res, Err(IdnaError::InvalidCharacter('\u{80}'))));
}

#[test]
fn invalid_punycode_is_reported() {
    let res = idna_ascii_to_unicode(&cs("xn--0"), true, true, true, true, false);
    assert!(matches!(res, Err(IdnaError::InvalidPunycode(_))));
}

#[test]
fn empty_and_broken_domains_are_rejected() {
    let res = idna_ascii_to_unicode(&cs(""), true, true, true, true, false);
    assert!(matches!(res, Err(IdnaError::InvalidDomain(_))));

    // An inner empty label makes every later label invalid.
    let res = idna_ascii_to_unicode(&cs("a..b"), true, true, true, true, false);
    assert!(matches!(res, Err(IdnaError::InvalidDomain(_))));

    // Two empty labels are rejected as well.
    let res = idna_ascii_to_unicode(&cs("a.."), true, true, true, true, false);
    assert!(matches!(res, Err(IdnaError::InvalidLabel(_))));
}

#[test]
fn hyphen_rule_scenarios() {
    // `-` in both third and fourth position: rejected when hyphen
    // checking is on, accepted when it is off.
    let res = idna_ascii_to_unicode(&cs("ab--c"), true, true, true, true, false);
    assert!(matches!(res, Err(IdnaError::InvalidLabel(_))));

    let res = idna_ascii_to_unicode(&cs("ab--c"), false, true, true, true, false);
    assert_eq!(res.unwrap(), cs("ab--c"));

    let res = idna_ascii_to_unicode(&cs("-a.com"), true, true, true, true, false);
    assert!(matches!(res, Err(IdnaError::InvalidLabel(_))));

    let res = idna_ascii_to_unicode(&cs("-a.com"), false, true, true, true, false);
    assert_eq!(res.unwrap(), cs("-a.com"));
}

#[test]
fn joiner_rule_scenarios() {
    // U+200C after a Virama-class codepoint (U+094D) is valid.
    let good = cs("\u{915}\u{94D}\u{200C}\u{915}");
    let res = idna_ascii_to_unicode(&good, true, true, true, true, false);
    assert!(res.is_ok());

    // U+200C at the start of a label has no Virama predecessor and no
    // left joining context.
    let bad = cs("\u{200C}\u{915}");
    let res = idna_ascii_to_unicode(&bad, true, true, true, true, false);
    assert!(matches!(res, Err(IdnaError::InvalidLabel(_))));

    // Without joiner checking the same label passes.
    let res = idna_ascii_to_unicode(&bad, true, true, false, true, false);
    assert!(res.is_ok());
}

#[test]
fn bidi_rule_scenarios() {
    // A purely LTR domain is not a Bidi domain: a digit-initial label is
    // fine.
    let res = idna_ascii_to_unicode(&cs("0a.com"), true, true, true, true, false);
    assert_eq!(res.unwrap(), cs("0a.com"));

    // With a Hebrew label present the whole domain is a Bidi domain and
    // the digit-initial LTR label becomes invalid.
    let res = idna_ascii_to_unicode(&cs("0a.\u{5D0}"), true, true, true, true, false);
    assert!(matches!(res, Err(IdnaError::InvalidLabel(_))));

    // A letter-initial LTR label and the Hebrew label both pass.
    let res = idna_ascii_to_unicode(&cs("a0.\u{5D0}"), true, true, true, true, false);
    assert_eq!(res.unwrap(), cs("a0.\u{5D0}"));

    // Without Bidi checking the digit-initial label is accepted.
    let res = idna_ascii_to_unicode(&cs("0a.\u{5D0}"), true, false, true, true, false);
    assert_eq!(res.unwrap(), cs("0a.\u{5D0}"));
}

#[test]
fn dns_length_scenarios() {
    let label64: String = "a".repeat(64);
    let long_label = format!("{}.com", label64);
    let res = idna_unicode_to_ascii(&cs(&long_label), true, true, true, true, false, true);
    assert!(matches!(res, Err(IdnaError::InvalidLabelLength(_))));

    let res = idna_unicode_to_ascii(&cs(&long_label), true, true, true, true, false, false);
    assert_eq!(res.unwrap(), cs(&long_label));

    // 63-character labels are fine.
    let label63: String = "a".repeat(63);
    let ok_label = format!("{}.com", label63);
    let res = idna_unicode_to_ascii(&cs(&ok_label), true, true, true, true, false, true);
    assert!(res.is_ok());

    // A domain longer than 253 characters (root dot excluded) is
    // rejected only when length verification is requested.
    let mut long_domain = String::new();
    for _ in 0..42 {
        long_domain.push_str("abcde.");
    }
    long_domain.push_str("toolong");
    assert!(long_domain.len() > 253);
    let res = idna_unicode_to_ascii(&cs(&long_domain), true, true, true, true, false, true);
    assert!(matches!(res, Err(IdnaError::InvalidDomainLength(_))));

    let res = idna_unicode_to_ascii(&cs(&long_domain), true, true, true, true, false, false);
    assert!(res.is_ok());
}

#[test]
fn nfc_normalization_applies() {
    // "a" followed by U+0301 combining acute composes to U+00E1.
    let res = idna_ascii_to_unicode(&cs("a\u{301}"), true, true, true, true, false);
    assert_eq!(res.unwrap(), cs("\u{E1}"));
}

#[test]
fn leading_combining_mark_is_rejected() {
    let res = idna_ascii_to_unicode(&cs("\u{301}abc"), true, true, true, true, false);
    assert!(matches!(res, Err(IdnaError::InvalidLabel(_))));
}

#[test]
fn zwnj_joining_context() {
    // U+0628 is dual-joining, so U+200C between two of them is valid.
    let res = idna_ascii_to_unicode(&cs("\u{628}\u{200C}\u{628}"), true, true, true, true, false);
    assert!(res.is_ok());

    // A non-joining neighbour gives U+200C no context.
    let res = idna_ascii_to_unicode(&cs("a\u{200C}b"), true, true, true, true, false);
    assert!(matches!(res, Err(IdnaError::InvalidLabel(_))));
}

#[test]
fn greek_numeral_sign_needs_greek_follower() {
    // U+0375 followed by Greek alpha is valid.
    let res = idna_ascii_to_unicode(&cs("\u{375}\u{3B1}"), true, true, true, true, false);
    assert!(res.is_ok());

    // U+0375 followed by a Latin letter is not.
    let res = idna_ascii_to_unicode(&cs("\u{375}a"), true, true, true, true, false);
    assert!(matches!(res, Err(IdnaError::InvalidLabel(_))));
}
