use parse::ipv6::Ipv6Address;
use parse::ipv6::parse_ipv6;

#[test]
fn test_parse_ipv6() {
    let addrs: Vec<(Ipv6Address, &[u8])> = vec![
        (
            Ipv6Address::new(0xABCD, 0xEF01, 0x2345, 0x6789, 0xABCD, 0xEF01, 0x2345, 0x6789),
            b"ABCD:EF01:2345:6789:ABCD:EF01:2345:6789",
        ),
        (
            Ipv6Address::new(0x2001, 0xDB8, 0x0, 0x0, 0x8, 0x800, 0x200C, 0x417A),
            b"2001:DB8:0:0:8:800:200C:417A",
        ),
        (
            Ipv6Address::new(0xFF01, 0, 0, 0, 0, 0, 0, 0x101),
            b"FF01:0:0:0:0:0:0:101",
        ),
        (Ipv6Address::new(0, 0, 0, 0, 0, 0, 0, 1), b"0:0:0:0:0:0:0:1"),
        (Ipv6Address::new(0, 0, 0, 0, 0, 0, 0, 0), b"0:0:0:0:0:0:0:0"),
        (Ipv6Address::new(0xFF01, 0, 0, 0, 0, 0, 0, 0x101), b"FF01::101"),
        (Ipv6Address::new(0, 0, 0, 0, 0, 0, 0, 1), b"::1"),
        (Ipv6Address::new(0, 0, 0, 0, 0, 0, 0, 0), b"::"),
        (
            Ipv6Address::new(0, 0, 0, 0, 0, 0, 0xD01, 0x4403),
            b"0:0:0:0:0:0:13.1.68.3",
        ),
        (
            Ipv6Address::new(0, 0, 0, 0, 0, 0xFFFF, 0x8190, 0x3426),
            b"0:0:0:0:0:FFFF:129.144.52.38",
        ),
        (
            Ipv6Address::new(0, 0, 0, 0, 0, 0, 0xD01, 0x4403),
            b"::13.1.68.3",
        ),
        (
            Ipv6Address::new(0xF, 0, 0, 0, 0, 0, 0xD01, 0x4403),
            b"F::13.1.68.3",
        ),
        (Ipv6Address::new(0xFF01, 0, 0, 0, 0, 1, 1, 1), b"FF01::1:1:1"),
        (
            Ipv6Address::new(0, 0, 0, 0, 0, 0xFFFF, 0x8190, 0x3426),
            b"::FFFF:129.144.52.38",
        ),
    ];

    for (addr, input) in addrs {
        let (remainder, res) = parse_ipv6(input).unwrap();
        assert!(remainder.is_empty());
        assert_eq!(addr, res);
    }
}

#[test]
fn ipv6_rejects_malformed_literals() {
    assert!(parse_ipv6(b"12345::").is_ok());
    assert!(parse_ipv6(b"zz::1").is_err());
    assert!(parse_ipv6(b".1").is_err());
}
