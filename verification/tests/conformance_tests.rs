use parse::conformance::split_record_fields;
use parse::idna::idna_ascii_to_unicode;
use parse::idna::idna_unicode_to_ascii;

fn cs(s: &str) -> Vec<char> {
    s.chars().collect()
}

#[test]
fn record_line_splits_into_fields() {
    let line = cs("fa\u{DF}.de; ; ; ; ; fass.de; ");
    let fields = split_record_fields(&line);
    assert_eq!(fields.len(), 7);
    assert_eq!(fields[0], cs("fa\u{DF}.de"));
    assert_eq!(fields[1], cs(""));
    assert_eq!(fields[5], cs("fass.de"));
    assert_eq!(fields[6], cs(""));
}

#[test]
fn record_line_without_separator_is_one_field() {
    let line = cs("# comment line");
    let fields = split_record_fields(&line);
    assert_eq!(fields.len(), 1);
    assert_eq!(fields[0], line);
}

#[test]
fn conformance_style_vectors() {
    // Vectors in the shape of the standard test file: input, expected
    // ToUnicode, expected nontransitional ToASCII, expected transitional
    // ToASCII; empty expectations fall back as in the file format.
    let vectors: Vec<(&str, &str, &str, &str)> = vec![
        ("fass.de", "", "", ""),
        ("fa\u{DF}.de", "", "xn--fa-hia.de", "fass.de"),
        ("xn--fa-hia.de", "fa\u{DF}.de", "xn--fa-hia.de", "xn--fa-hia.de"),
        ("b\u{FC}cher.de", "", "xn--bcher-kva.de", "xn--bcher-kva.de"),
        ("B\u{DC}CHER.de", "b\u{FC}cher.de", "xn--bcher-kva.de", "xn--bcher-kva.de"),
    ];

    for (input, to_unicode, to_ascii_n, to_ascii_t) in vectors {
        let to_unicode_expected = if to_unicode.is_empty() { input } else { to_unicode };
        let to_ascii_n_expected = if to_ascii_n.is_empty() {
            to_unicode_expected.to_string()
        } else {
            to_ascii_n.to_string()
        };
        let to_ascii_t_expected = if to_ascii_t.is_empty() {
            to_ascii_n_expected.clone()
        } else {
            to_ascii_t.to_string()
        };

        let unicode_res =
            idna_ascii_to_unicode(&cs(input), true, true, true, true, false).unwrap();
        assert_eq!(unicode_res, cs(to_unicode_expected));

        let ascii_n_res =
            idna_unicode_to_ascii(&cs(input), true, true, true, true, false, true).unwrap();
        assert_eq!(ascii_n_res, cs(&to_ascii_n_expected));

        let ascii_t_res =
            idna_unicode_to_ascii(&cs(input), true, true, true, true, true, true).unwrap();
        assert_eq!(ascii_t_res, cs(&to_ascii_t_expected));
    }
}
