use zeronet_tracker::address::PeerAddress;

#[test]
fn test_parse_format_ipv4() {
    let a = PeerAddress::parse("127.0.0.1:4321").unwrap();
    assert_eq!(a.format(), "127.0.0.1:4321");
    assert_eq!(a.get_port(), 4321);
    let b = a.with_port(1234);
    assert_eq!(b.format(), "127.0.0.1:1234");
}

#[test]
fn test_pack_ipv4() {
    let a = PeerAddress::parse("127.0.0.1:4321").expect("could not parse address");
    assert_eq!(a.pack(), vec![127, 0, 0, 1, 225, 16]);
}

#[test]
fn test_pack_onionv2() {
    // the identity decodes to ten bytes; the packed form carries them with
    // the port, least significant byte first
    let a = PeerAddress::parse("ytcnzluhaxidtbf4.onion:4321").expect("could not parse address");
    assert_eq!(
        a.pack(),
        vec![196, 196, 220, 174, 135, 5, 208, 57, 132, 188, 225, 16]
    );
    assert_eq!(a.format(), "ytcnzluhaxidtbf4.onion:4321");
}

#[test]
fn test_parse_format_onionv3() {
    let s = "trackd5xiih3z7xyvvkyz2n65lehqziayjpxzsau3mwccwlelxrdrgid.onion:4321";
    let a = PeerAddress::parse(s).unwrap();
    assert_eq!(a.format(), s);
    assert!(matches!(a, PeerAddress::OnionV3 { .. }));
}

#[test]
fn test_parse_format_ipv6() {
    let a = PeerAddress::Ipv6 {
        octets: vec![
            0x10, 0x01, 0x20, 0x02, 0x30, 0x03, 0x40, 0x04, 0x50, 0x05, 0x60, 0x06, 0x70, 0x07,
            0x80, 0x08,
        ],
        port: 4321,
    };
    let s = a.format();
    assert_eq!(s, "[1001:2002:3003:4004:5005:6006:7007:8008]:4321");
    let b = PeerAddress::parse(&s).unwrap();
    assert_eq!(a, b);
    assert_eq!(
        b.pack(),
        vec![16, 1, 32, 2, 48, 3, 64, 4, 80, 5, 96, 6, 112, 7, 128, 8, 225, 16]
    );
}

#[test]
fn test_parse_rejections() {
    assert!(PeerAddress::parse("").is_err());
    assert!(PeerAddress::parse("127.0.0.1").is_err());
    assert!(PeerAddress::parse("300.0.0.1:80").is_err());
    assert!(PeerAddress::parse("1.2.3:80").is_err());
    assert!(PeerAddress::parse("1.2.3.4.5:80").is_err());
    assert!(PeerAddress::parse("1.2.3.4:99999").is_err());
    assert!(PeerAddress::parse("1.2.3.4:007").is_err());
    assert!(PeerAddress::parse("abc.onion:80").is_err());
    assert!(PeerAddress::parse("AAAAAAAAAAAAAAAA.onion:80").is_err());
    assert!(PeerAddress::parse("[::1]:80").is_err());
    assert!(PeerAddress::parse("[1001:2002]:80").is_err());
}

#[test]
fn test_parse_onion_lengths() {
    assert!(PeerAddress::parse("aaaaaaaaaaaaaaaa.onion:15441").is_ok());
    assert!(PeerAddress::parse("aaaaaaaaaaaaaaa.onion:15441").is_err());
    let a = PeerAddress::parse("aaaaaaaaaaaaaaaa.onion:15441").unwrap();
    assert!(matches!(a, PeerAddress::OnionV2 { .. }));
}

#[test]
fn test_is_local_range() {
    assert!(PeerAddress::parse("127.0.0.1:80").unwrap().is_local_range());
    assert!(PeerAddress::parse("192.168.1.13:80").unwrap().is_local_range());
    // the rule is textual: any formatted address beginning with `127.0.0.1`
    // counts, so this one is suppressed too
    assert!(PeerAddress::parse("127.0.0.18:80").unwrap().is_local_range());
    assert!(!PeerAddress::parse("126.0.0.1:80").unwrap().is_local_range());
    assert!(!PeerAddress::parse("1.2.3.4:80").unwrap().is_local_range());
    assert!(!PeerAddress::parse("aaaaaaaaaaaaaaaa.onion:80").unwrap().is_local_range());
}

#[test]
fn test_addr_eq() {
    let a = PeerAddress::parse("1.2.3.4:80").unwrap();
    let b = PeerAddress::parse("1.2.3.4:80").unwrap();
    let c = PeerAddress::parse("1.2.3.4:81").unwrap();
    assert!(a.addr_eq(&b));
    assert!(!a.addr_eq(&c));
}

#[test]
fn test_is_u16() {
    // accepted exactly where Rust's u16 parsing accepts: an optional
    // leading plus, digits with leading zeros allowed, value in range
    assert!(zeronet_tracker::args::is_u16("0").is_ok());
    assert!(zeronet_tracker::args::is_u16("15441").is_ok());
    assert!(zeronet_tracker::args::is_u16("65535").is_ok());
    assert!(zeronet_tracker::args::is_u16("007").is_ok());
    assert!(zeronet_tracker::args::is_u16("+50").is_ok());
    assert!(zeronet_tracker::args::is_u16("0000065535").is_ok());
    assert!(zeronet_tracker::args::is_u16("65536").is_err());
    assert!(zeronet_tracker::args::is_u16("0000065536").is_err());
    assert!(zeronet_tracker::args::is_u16("").is_err());
    assert!(zeronet_tracker::args::is_u16("+").is_err());
    assert!(zeronet_tracker::args::is_u16("-1").is_err());
    assert!(zeronet_tracker::args::is_u16("abc").is_err());
    assert_eq!(
        zeronet_tracker::args::is_u16("x").unwrap_err(),
        "'x' cannot be parsed to u16."
    );
}
