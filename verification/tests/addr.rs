use streaming_quotes::addr::{addr_to_string, parse_addr};
use streaming_quotes::ClientAddr;

fn v6(groups: [u16; 8], port: u16, scope_id: u32) -> ClientAddr {
    let mut ip: u128 = 0;
    for g in groups {
        ip = (ip << 16) | g as u128;
    }
    ClientAddr::V6 { ip, port, flowinfo: 0, scope_id }
}

fn v4(a: u8, b: u8, c: u8, d: u8, port: u16) -> ClientAddr {
    ClientAddr::V4 { ip: u32::from_be_bytes([a, b, c, d]), port }
}

#[test]
fn ipv4_socket_addresses() {
    assert_eq!(parse_addr("127.0.0.1:9999"), Some(v4(127, 0, 0, 1, 9999)));
    assert_eq!(parse_addr("0.0.0.0:0"), Some(v4(0, 0, 0, 0, 0)));
    assert_eq!(parse_addr("255.255.255.255:65535"), Some(v4(255, 255, 255, 255, 65535)));
    assert_eq!(parse_addr("1.2.3.4:0080"), Some(v4(1, 2, 3, 4, 80)));
    for bad in [
        "123.0.0", "1.2.3.4", "1.2.3.4:", "1.2.3.4:65536", "256.1.1.1:1", "01.2.3.4:5", "1.2.3.4:5x",
        "1.2.3:4", "1.2.3.4.5:6", " 1.2.3.4:5", "1.2.3.4 :5", "1234.1.1.1:1", "", "a:1",
    ] {
        assert_eq!(parse_addr(bad), None, "{:?}", bad);
    }
}

#[test]
fn ipv6_socket_addresses() {
    assert_eq!(parse_addr("[::1]:80"), Some(v6([0, 0, 0, 0, 0, 0, 0, 1], 80, 0)));
    assert_eq!(parse_addr("[::]:1"), Some(v6([0; 8], 1, 0)));
    assert_eq!(parse_addr("[1:2:3:4:5:6:7:8]:9"), Some(v6([1, 2, 3, 4, 5, 6, 7, 8], 9, 0)));
    assert_eq!(parse_addr("[fe80::1%3]:443"), Some(v6([0xfe80, 0, 0, 0, 0, 0, 0, 1], 443, 3)));
    assert_eq!(parse_addr("[::ffff:1.2.3.4]:7"), Some(v6([0, 0, 0, 0, 0, 0xffff, 0x102, 0x304], 7, 0)));
    assert_eq!(parse_addr("[1:2:3:4:5:6:7::]:7"), Some(v6([1, 2, 3, 4, 5, 6, 7, 0], 7, 0)));
    assert_eq!(parse_addr("[ABCD::Ef]:7"), Some(v6([0xabcd, 0, 0, 0, 0, 0, 0, 0xef], 7, 0)));
    assert_eq!(parse_addr("[1:2:3:4:5:6:1.2.3.4]:7"), Some(v6([1, 2, 3, 4, 5, 6, 0x102, 0x304], 7, 0)));
    for bad in [
        "[::1]", "::1:80", "[::1]:", "[1::2::3]:4", "[12345::]:1", "[1.2.3.4::]:5", "[::1%]:5",
        "[1:2:3:4:5:6:7:8:9]:1", "[:1]:2", "[::g]:1", "[::1]:65536",
    ] {
        assert_eq!(parse_addr(bad), None, "{:?}", bad);
    }
}

#[test]
fn socket_address_text() {
    assert_eq!(addr_to_string(&v4(127, 0, 0, 1, 9999)), "127.0.0.1:9999");
    assert_eq!(addr_to_string(&v6([0, 0, 0, 0, 0, 0, 0, 1], 80, 0)), "[::1]:80");
    assert_eq!(addr_to_string(&v6([0; 8], 80, 0)), "[::]:80");
    assert_eq!(addr_to_string(&v6([0xfe80, 0, 0, 0, 0, 0, 0, 1], 443, 3)), "[fe80::1%3]:443");
    assert_eq!(addr_to_string(&v6([0, 0, 0, 0, 0, 0xffff, 0x102, 0x304], 7, 0)), "[::ffff:1.2.3.4]:7");
    assert_eq!(addr_to_string(&v6([1, 0, 2, 0, 0, 3, 0, 0], 1, 0)), "[1:0:2::3:0:0]:1");
    assert_eq!(addr_to_string(&v6([1, 0, 0, 2, 0, 0, 3, 4], 1, 0)), "[1::2:0:0:3:4]:1");
    assert_eq!(addr_to_string(&v6([1, 0, 2, 3, 4, 5, 6, 7], 1, 0)), "[1:0:2:3:4:5:6:7]:1");
    assert_eq!(addr_to_string(&v6([0xabcd, 0xef, 0, 0, 0, 0, 0, 0], 1, 0)), "[abcd:ef::]:1");
    assert_eq!(
        addr_to_string(&ClientAddr::V6 { ip: 1, port: 2, flowinfo: 9, scope_id: 0 }),
        "[::1]:2"
    );
}

#[test]
fn text_reads_back() {
    for a in [
        v4(10, 0, 255, 1, 0),
        v6([0x2001, 0xdb8, 0, 0, 1, 0, 0, 1], 5, 0),
        v6([0, 0, 0, 0, 0, 0xffff, 0xc0a8, 1], 5, 12),
        v6([1, 2, 3, 4, 5, 6, 7, 8], 65535, 4294967295),
    ] {
        assert_eq!(parse_addr(&addr_to_string(&a)), Some(a));
    }
}
