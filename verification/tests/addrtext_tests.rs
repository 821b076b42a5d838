use rweb::addrtext::{format_addr, parse_addr};
use rweb::codec::NetAddr;

#[test]
fn format_v4() {
    let a = NetAddr::V4 { ip: [192, 0, 2, 11], port: 443 };
    assert_eq!(format_addr(&a), b"192.0.2.11:443".to_vec());
    let z = NetAddr::V4 { ip: [0, 0, 0, 0], port: 0 };
    assert_eq!(format_addr(&z), b"0.0.0.0:0".to_vec());
}

#[test]
fn format_v6() {
    let ip = [0x20, 0x01, 0x0d, 0xb8, 0, 0, 0, 0, 0, 0, 0, 0, 0, 0, 0, 1];
    let a = NetAddr::V6 { ip, port: 5677 };
    assert_eq!(format_addr(&a), b"[2001:db8:0:0:0:0:0:1]:5677".to_vec());
}

#[test]
fn addr_parse_format_round_trip() {
    let samples = [
        NetAddr::V4 { ip: [0, 0, 0, 0], port: 0 },
        NetAddr::V4 { ip: [203, 0, 113, 7], port: 65535 },
        NetAddr::V6 { ip: [0xfe, 0x80, 0, 0, 0, 0, 0, 0, 0, 0, 0, 0, 0, 0, 0, 9], port: 1 },
    ];
    for a in samples {
        let text = format_addr(&a);
        let back = parse_addr(&text).unwrap();
        assert!(back.same(&a));
        assert_eq!(format_addr(&back), text);
    }
}

#[test]
fn parse_accepts_canonical_text() {
    let a = parse_addr(b"10.1.2.3:8080").unwrap();
    assert!(a.same(&NetAddr::V4 { ip: [10, 1, 2, 3], port: 8080 }));
    let b = parse_addr(b"[0:0:0:0:0:0:0:1]:443").unwrap();
    let mut ip = [0u8; 16];
    ip[15] = 1;
    assert!(b.same(&NetAddr::V6 { ip, port: 443 }));
}

#[test]
fn parse_rejects_non_canonical_or_malformed() {
    assert!(parse_addr(b"").is_none());
    assert!(parse_addr(b"1.2.3.4").is_none());
    assert!(parse_addr(b"01.2.3.4:5").is_none());
    assert!(parse_addr(b"1.2.3.4:").is_none());
    assert!(parse_addr(b"1.2.3:5").is_none());
    assert!(parse_addr(b"256.2.3.4:5").is_none());
    assert!(parse_addr(b"1.2.3.4:70000").is_none());
    assert!(parse_addr(b"[0:0:0:0:0:0:1]:5").is_none());
    assert!(parse_addr(b"[g:0:0:0:0:0:0:1]:5").is_none());
    assert!(parse_addr(b"[0:0:0:0:0:0:0:1]5").is_none());
}
