use parse::ipv4::Ipv4Address;
use parse::ipv4::parse_ipv4;
use parse::ipv4::parse_ipv4_legacy;

#[test]
fn test_parse_ipv4() {
    let test_data: Vec<(Ipv4Address, &'_ str)> = vec![
        (Ipv4Address::new(1, 1, 1, 1), "1.1.1.1"),
        (Ipv4Address::new(8, 8, 8, 8), "010.010.010.010"),
        (Ipv4Address::new(255, 255, 255, 255), "0xFF.0XFF.255.0377"),
        (Ipv4Address::new(1, 0, 1, 0), "1.0.256"),
        (Ipv4Address::new(1, 2, 3, 4), "1.2.3.4."),
        (Ipv4Address::new(1, 253, 2, 255), "1.16581375"),
    ];

    for (expected, input) in test_data {
        assert_eq!(expected, parse_ipv4_legacy(input.as_bytes()).unwrap().1);
    }
}

#[test]
fn test_parse_ipv4_invalid() {
    // Require a trailing slash to stop parsers from only consuming part
    // of the input.
    fn test_parser(i: &[u8]) -> bool {
        match parse_ipv4_legacy(i) {
            Err(_) => false,
            Ok((rest, _)) => rest.first() == Some(&b'/'),
        }
    }

    let test_data: Vec<&'_ str> = vec!["0xAG.1.1.1/", "1.1.1.256/"];

    for input in test_data {
        println!("{:?}", parse_ipv4_legacy(input.as_bytes()));
        assert!(!test_parser(input.as_bytes()));
    }
}

#[test]
fn strict_ipv4_boundaries() {
    let (rest, addr) = parse_ipv4(b"255.255.255.255").unwrap();
    assert!(rest.is_empty());
    assert_eq!(addr, Ipv4Address::new(255, 255, 255, 255));

    assert!(parse_ipv4(b"256.0.0.1").is_err());

    let (rest, addr) = parse_ipv4(b"1.2.3.4.").unwrap();
    assert!(rest.is_empty());
    assert_eq!(addr, Ipv4Address::new(1, 2, 3, 4));
}

#[test]
fn strict_ipv4_rejects_legacy_forms() {
    assert!(parse_ipv4(b"0xFF.0XFF.255.0377").is_err());
    assert!(parse_ipv4(b"010.0.0.1").is_err());
    assert!(parse_ipv4(b"1.16581375").is_err());
    assert!(parse_ipv4(b"1.2.3").is_err());
}
