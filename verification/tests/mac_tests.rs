use rweb::mac::Mac;

#[test]
fn parse_canonical_text() {
    let m = Mac::from_text(b"aabbccddeeff").unwrap();
    assert_eq!(m.bytes(), [0xaa, 0xbb, 0xcc, 0xdd, 0xee, 0xff]);
}

#[test]
fn parse_accepts_separators_and_case() {
    let m = Mac::from_text(b"AA:BB-CC dd ee ff").unwrap();
    assert_eq!(m.bytes(), [0xaa, 0xbb, 0xcc, 0xdd, 0xee, 0xff]);
    let m2 = Mac::from_text(b" aa bb cc dd ee 01 ").unwrap();
    assert_eq!(m2.bytes(), [0xaa, 0xbb, 0xcc, 0xdd, 0xee, 0x01]);
}

#[test]
fn format_normalizes_to_lower_hex() {
    let m = Mac::from_text(b"AA:BB:CC:DD:EE:FF").unwrap();
    assert_eq!(m.format(), b"aabbccddeeff".to_vec());
}

#[test]
fn parse_format_round_trip() {
    for bytes in [
        [0u8, 0, 0, 0, 0, 0],
        [0xaa, 0xbb, 0xcc, 0xdd, 0xee, 0xff],
        [1, 2, 3, 4, 5, 6],
        [255, 0, 127, 128, 16, 9],
    ] {
        let m = Mac::from_bytes(bytes);
        let text = m.format();
        let back = Mac::from_text(&text).unwrap();
        assert_eq!(back.bytes(), bytes);
    }
}

#[test]
fn wrong_length_is_rejected() {
    let e = Mac::from_text(b"aabbccddee").unwrap_err();
    assert_eq!(e.code, 50001);
    let e2 = Mac::from_text(b"aabbccddeeff00").unwrap_err();
    assert_eq!(e2.code, 50001);
    let e3 = Mac::from_text(b"").unwrap_err();
    assert_eq!(e3.code, 50001);
}

#[test]
fn non_hex_is_rejected() {
    let e = Mac::from_text(b"aabbccddeefg").unwrap_err();
    assert_eq!(e.code, 50002);
}

#[test]
fn none_identifier_is_all_zero() {
    let m = Mac::from_none();
    assert_eq!(m.bytes(), [0u8; 6]);
    assert_eq!(m.format(), b"000000000000".to_vec());
}

#[test]
fn byte_equality() {
    let a = Mac::from_text(b"aabbccddeeff").unwrap();
    let b = Mac::from_text(b"AA-BB-CC-DD-EE-FF").unwrap();
    let c = Mac::from_text(b"aabbccddee00").unwrap();
    assert!(a.same(&b));
    assert!(!a.same(&c));
}
