use x_proxy::host::{ipv4_string_bytes, ipv6_string_bytes, parse_ipv4, parse_ipv6, HostType};

#[test]
fn classify_hosts() {
    assert_eq!(HostType::check("127.0.0.1"), HostType::Ipv4);
    assert_eq!(HostType::check("255.255.255.255"), HostType::Ipv4);
    assert_eq!(HostType::check("2001:0db8:0000:0000:0000:0000:0000:0001"), HostType::Ipv6);
    assert_eq!(HostType::check("example.com"), HostType::Domain);
    assert_eq!(HostType::check(""), HostType::Domain);
    assert_eq!(HostType::check("256.0.0.1"), HostType::Domain);
    assert_eq!(HostType::check("1.2.3"), HostType::Domain);
    assert_eq!(HostType::check("1.2.3.4.5"), HostType::Domain);
}

#[test]
fn ipv4_parse_values() {
    assert_eq!(parse_ipv4(b"10.20.30.40"), Some((10, 20, 30, 40)));
    assert_eq!(parse_ipv4(b"0.0.0.0"), Some((0, 0, 0, 0)));
    assert_eq!(parse_ipv4(b"1.2.3.256"), None);
    assert_eq!(parse_ipv4(b"1.2.3.4x"), None);
    // A superfluous leading zero is not an address octet.
    assert_eq!(parse_ipv4(b"01.2.3.4"), None);
}

#[test]
fn ipv4_format_and_round_trip() {
    let text = ipv4_string_bytes(&[192, 168, 0, 1]);
    assert_eq!(text, b"192.168.0.1".to_vec());
    assert_eq!(parse_ipv4(&text), Some((192, 168, 0, 1)));
}

#[test]
fn ipv6_format_fixed_groups() {
    let groups = [0x2001u16, 0x0db8, 0, 0, 0, 0, 0, 1];
    let text = ipv6_string_bytes(&groups);
    assert_eq!(text, b"2001:0db8:0000:0000:0000:0000:0000:0001".to_vec());
}

#[test]
fn ipv6_parse_and_round_trip() {
    let groups = [0xfe80u16, 0, 0, 0, 0x1234, 0xabcd, 0x00ff, 0x0001];
    let text = ipv6_string_bytes(&groups);
    let parsed = parse_ipv6(&text).unwrap();
    assert_eq!(parsed, groups.to_vec());
    // Short group forms parse too; only the rendering is fixed-width.
    assert_eq!(
        parse_ipv6(b"fe80:0:0:0:1234:abcd:ff:1").unwrap(),
        groups.to_vec()
    );
    assert!(parse_ipv6(b"fe80:0:0:0:1234:abcd:ff").is_none());
    assert!(parse_ipv6(b"fe80:0:0:0:1234:abcd:ff:1:2").is_none());
    assert!(parse_ipv6(b"fe80:0:0:0:1234:abcd:ff:zz").is_none());
}
