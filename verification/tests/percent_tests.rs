use parse::percent_encode::EncodeSet;
use parse::percent_encode::percent_encode;

fn cs(s: &str) -> Vec<char> {
    s.chars().collect()
}

#[test]
fn test_percent_encode() {
    assert_eq!(
        cs("%23"),
        percent_encode(&cs("\u{23}"), false, EncodeSet::All)
    );

    assert_eq!(
        cs("%7F"),
        percent_encode(&cs("\u{7F}"), false, EncodeSet::All)
    );
    assert_eq!(
        cs("%E2%89%A1"),
        percent_encode(&cs("\u{2261}"), false, EncodeSet::UserInfo)
    );
    assert_eq!(
        cs("%E2%80%BD"),
        percent_encode(&cs("\u{203D}"), false, EncodeSet::UserInfo)
    );
    assert_eq!(
        cs("Say%20what%E2%80%BD"),
        percent_encode(&cs("Say what\u{203D}"), false, EncodeSet::UserInfo)
    );
}

#[test]
fn percent_encode_fast_path() {
    assert_eq!(
        cs("Hello, World!"),
        percent_encode(&cs("Hello, World!"), false, EncodeSet::C0Control)
    );
}

#[test]
fn percent_encode_space_as_plus() {
    assert_eq!(
        cs("a+b"),
        percent_encode(&cs("a b"), true, EncodeSet::UserInfo)
    );
}

#[test]
fn percent_encode_set_members() {
    // The query set encodes `#` but not `'`; the special-query set
    // encodes both; the component set also encodes `+` and `,`.
    assert_eq!(
        cs("%23'"),
        percent_encode(&cs("#'"), false, EncodeSet::Query)
    );
    assert_eq!(
        cs("%23%27"),
        percent_encode(&cs("#'"), false, EncodeSet::SpecialQuery)
    );
    assert_eq!(
        cs("%7B%7D"),
        percent_encode(&cs("{}"), false, EncodeSet::Path)
    );
    assert_eq!(
        cs("%2B%2C"),
        percent_encode(&cs("+,"), false, EncodeSet::Component)
    );
    assert_eq!(
        cs("%20%22%3C%3E%60"),
        percent_encode(&cs(" \"<>`"), false, EncodeSet::Fragment)
    );
}

#[test]
fn percent_encode_four_byte_character() {
    assert_eq!(
        cs("%F0%9D%84%9E"),
        percent_encode(&cs("\u{1D11E}"), false, EncodeSet::All)
    );
}
