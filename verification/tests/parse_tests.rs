use udp_relay::addr::Endpoint;
use udp_relay::addr::HostAddr;
use udp_relay::addr::parse_endpoint;
use udp_relay::relay::Forwarder;
use udp_relay::relay::RelayError;

fn v4(o1: u8, o2: u8, o3: u8, o4: u8, port: u16) -> Endpoint {
    Endpoint { host: HostAddr::V4 { o1, o2, o3, o4 }, port }
}

fn v6(g: [u16; 8], scope: u32, port: u16) -> Endpoint {
    Endpoint {
        host: HostAddr::V6 {
            g0: g[0],
            g1: g[1],
            g2: g[2],
            g3: g[3],
            g4: g[4],
            g5: g[5],
            g6: g[6],
            g7: g[7],
            scope,
        },
        port,
    }
}

#[test]
fn parses_loopback_endpoint() {
    let ep = parse_endpoint("127.0.0.1:9000").unwrap();
    assert_eq!(ep, v4(127, 0, 0, 1, 9000));
}

#[test]
fn parses_extreme_values() {
    let ep = parse_endpoint("255.255.255.255:65535").unwrap();
    assert_eq!(ep, v4(255, 255, 255, 255, 65535));
    let ep = parse_endpoint("0.0.0.0:0").unwrap();
    assert_eq!(ep, v4(0, 0, 0, 0, 0));
}

#[test]
fn accepts_leading_zeros_in_port() {
    let ep = parse_endpoint("1.2.3.4:0080").unwrap();
    assert_eq!(ep.port, 80);
}

#[test]
fn rejects_missing_port() {
    assert!(parse_endpoint("127.0.0.1").is_none());
    assert!(parse_endpoint("127.0.0.1:").is_none());
}

#[test]
fn rejects_invalid_characters() {
    assert!(parse_endpoint("localhost:80").is_none());
    assert!(parse_endpoint("1.2.3.x:80").is_none());
    assert!(parse_endpoint("1.2.3.4:8a").is_none());
    assert!(parse_endpoint(" 1.2.3.4:80").is_none());
    assert!(parse_endpoint("1.2.3.4:80 ").is_none());
    assert!(parse_endpoint("").is_none());
}

#[test]
fn rejects_wrong_shape() {
    assert!(parse_endpoint("1.2.3:80").is_none());
    assert!(parse_endpoint("1.2.3.4.5:80").is_none());
    assert!(parse_endpoint("1..3.4:80").is_none());
    assert!(parse_endpoint(".2.3.4:80").is_none());
    assert!(parse_endpoint("1.2.3.4:80:81").is_none());
}

#[test]
fn rejects_out_of_range_values() {
    assert!(parse_endpoint("256.0.0.1:80").is_none());
    assert!(parse_endpoint("1.2.3.4:65536").is_none());
    assert!(parse_endpoint("1.2.3.4:99999999").is_none());
}

#[test]
fn rejects_leading_zero_octets() {
    assert!(parse_endpoint("01.2.3.4:80").is_none());
    assert!(parse_endpoint("1.2.3.004:80").is_none());
}

#[test]
fn parses_bracketed_loopback() {
    let ep = parse_endpoint("[::1]:80").unwrap();
    assert_eq!(ep, v6([0, 0, 0, 0, 0, 0, 0, 1], 0, 80));
}

#[test]
fn parses_full_group_form() {
    let ep = parse_endpoint("[1:2:3:4:5:6:7:8]:9").unwrap();
    assert_eq!(ep, v6([1, 2, 3, 4, 5, 6, 7, 8], 0, 9));
}

#[test]
fn parses_elided_zero_groups() {
    let ep = parse_endpoint("[2001:db8::1]:8080").unwrap();
    assert_eq!(ep, v6([0x2001, 0xdb8, 0, 0, 0, 0, 0, 1], 0, 8080));
    let ep = parse_endpoint("[1:2:3:4:5:6:7::]:80").unwrap();
    assert_eq!(ep, v6([1, 2, 3, 4, 5, 6, 7, 0], 0, 80));
    let ep = parse_endpoint("[::]:0").unwrap();
    assert_eq!(ep, v6([0, 0, 0, 0, 0, 0, 0, 0], 0, 0));
}

#[test]
fn parses_embedded_ipv4_groups() {
    let ep = parse_endpoint("[::ffff:1.2.3.4]:80").unwrap();
    assert_eq!(ep, v6([0, 0, 0, 0, 0, 0xffff, 0x0102, 0x0304], 0, 80));
}

#[test]
fn parses_group_case_and_leading_zeros() {
    let ep = parse_endpoint("[ABCD::ef01]:80").unwrap();
    assert_eq!(ep, v6([0xabcd, 0, 0, 0, 0, 0, 0, 0xef01], 0, 80));
    let ep = parse_endpoint("[0001::]:80").unwrap();
    assert_eq!(ep, v6([1, 0, 0, 0, 0, 0, 0, 0], 0, 80));
}

#[test]
fn parses_scope_id() {
    let ep = parse_endpoint("[fe80::1%5]:80").unwrap();
    assert_eq!(ep, v6([0xfe80, 0, 0, 0, 0, 0, 0, 1], 5, 80));
    let ep = parse_endpoint("[fe80::1%007]:80").unwrap();
    assert_eq!(ep, v6([0xfe80, 0, 0, 0, 0, 0, 0, 1], 7, 80));
}

#[test]
fn rejects_malformed_bracketed_forms() {
    assert!(parse_endpoint("[::1]80").is_none());
    assert!(parse_endpoint("[::1]:").is_none());
    assert!(parse_endpoint("[::1]").is_none());
    assert!(parse_endpoint("[]:80").is_none());
    assert!(parse_endpoint("[:::1]:80").is_none());
    assert!(parse_endpoint("[1::2::3]:80").is_none());
    assert!(parse_endpoint("[1:2:3:4:5:6:7:8:9]:80").is_none());
    assert!(parse_endpoint("[1:2:3:4:5:6:7]:80").is_none());
    assert!(parse_endpoint("[12345::]:80").is_none());
    assert!(parse_endpoint("[::00001]:80").is_none());
    assert!(parse_endpoint("[1.2.3.4]:80").is_none());
    assert!(parse_endpoint("[::1%]:80").is_none());
    assert!(parse_endpoint("[::1%4294967296]:80").is_none());
    assert!(parse_endpoint("[::1]:65536").is_none());
}

#[test]
fn construction_succeeds_on_well_formed_pairs() {
    let f = Forwarder::new("0.0.0.0:5000", "192.168.1.100:6000", 4096).unwrap();
    assert_eq!(f.listen_addr, v4(0, 0, 0, 0, 5000));
    assert_eq!(f.target_addr, v4(192, 168, 1, 100, 6000));
    assert_eq!(f.buffer_size, 4096);
}

#[test]
fn construction_succeeds_across_families() {
    let f = Forwarder::new("[::1]:9000", "127.0.0.1:9001", 2048).unwrap();
    assert_eq!(f.listen_addr, v6([0, 0, 0, 0, 0, 0, 0, 1], 0, 9000));
    assert_eq!(f.target_addr, v4(127, 0, 0, 1, 9001));
}

#[test]
fn construction_fails_on_malformed_listen_address() {
    let r = Forwarder::new("not-an-address", "1.2.3.4:80", 4096);
    assert!(matches!(r, Err(RelayError::InvalidAddress)));
}

#[test]
fn construction_fails_on_malformed_target_address() {
    let r = Forwarder::new("1.2.3.4:80", "1.2.3.4:999999", 4096);
    assert!(matches!(r, Err(RelayError::InvalidAddress)));
}

#[test]
fn buffer_size_is_taken_as_given() {
    let f = Forwarder::new("1.2.3.4:80", "5.6.7.8:90", 1).unwrap();
    assert_eq!(f.buffer_size, 1);
}
