use rweb::header::Header;

#[test]
fn parse_simple_request() {
    let buf = b"GET /index HTTP/1.1\r\nHost: example.com\r\n\r\n";
    let h = Header::parse(buf).unwrap();
    assert_eq!(h.method, b"GET".to_vec());
    assert_eq!(h.uri, b"/index".to_vec());
    assert_eq!(h.version, b"HTTP/1.1".to_vec());
    assert_eq!(h.get(b"Host"), Some(&b"example.com".to_vec()));
}

#[test]
fn parse_echoes_first_line_into_mapping() {
    let h = Header::parse(b"GET /p HTTP/1.1\r\n\r\n").unwrap();
    assert_eq!(h.get(b"GET"), Some(&b"/p".to_vec()));
}

#[test]
fn parse_drops_header_named_like_method() {
    let h = Header::parse(b"GET /p HTTP/1.1\r\nGET: spoofed\r\n\r\n").unwrap();
    assert_eq!(h.get(b"GET"), Some(&b"/p".to_vec()));
}

#[test]
fn parse_trims_keys_and_values() {
    let h = Header::parse(b"GET / HTTP/1.1\r\n  Host  :   a.example.com \r\n\r\n").unwrap();
    assert_eq!(h.get(b"Host"), Some(&b"a.example.com".to_vec()));
}

#[test]
fn parse_splits_value_at_first_colon_only() {
    let h = Header::parse(b"GET / HTTP/1.1\r\nReferer: http://x/y\r\n\r\n").unwrap();
    assert_eq!(h.get(b"Referer"), Some(&b"http://x/y".to_vec()));
}

#[test]
fn parse_skips_leading_blank_lines() {
    let h = Header::parse(b"\r\nGET / HTTP/1.1\r\n\r\n").unwrap();
    assert_eq!(h.method, b"GET".to_vec());
}

#[test]
fn parse_fails_on_missing_tokens() {
    let e = Header::parse(b"GET /\r\n\r\n").unwrap_err();
    assert_eq!(e.code, 2400);
    let e2 = Header::parse(b" / HTTP/1.1\r\n\r\n").unwrap_err();
    assert_eq!(e2.code, 2400);
    let e3 = Header::parse(b"GET  HTTP/1.1\r\n\r\n").unwrap_err();
    assert_eq!(e3.code, 2400);
    let e4 = Header::parse(b"\r\n\r\n").unwrap_err();
    assert_eq!(e4.code, 2400);
}

#[test]
fn serialize_then_parse_keeps_first_line() {
    let mut h = Header::new(b"POST".to_vec(), b"/submit".to_vec(), b"HTTP/1.1".to_vec());
    h.set(b"Host".to_vec(), b"example.com".to_vec());
    h.set(b"Content-Length".to_vec(), b"0".to_vec());
    let wire = h.serialize();
    let back = Header::parse(&wire).unwrap();
    assert_eq!(back.method, b"POST".to_vec());
    assert_eq!(back.uri, b"/submit".to_vec());
    assert_eq!(back.version, b"HTTP/1.1".to_vec());
    assert_eq!(back.get(b"Host"), Some(&b"example.com".to_vec()));
    assert_eq!(back.get(b"Content-Length"), Some(&b"0".to_vec()));
}

#[test]
fn serialize_wire_form() {
    let mut h = Header::new(b"GET".to_vec(), b"/".to_vec(), b"HTTP/1.1".to_vec());
    h.set(b"Host".to_vec(), b"h".to_vec());
    assert_eq!(h.serialize(), b"GET / HTTP/1.1\r\nHost: h\r\n\r\n".to_vec());
}

#[test]
fn set_replaces_and_remove_drops() {
    let mut h = Header::new(b"GET".to_vec(), b"/".to_vec(), b"HTTP/1.1".to_vec());
    h.set(b"K".to_vec(), b"1".to_vec());
    h.set(b"K".to_vec(), b"2".to_vec());
    assert_eq!(h.get(b"K"), Some(&b"2".to_vec()));
    let removed = h.remove(b"K");
    assert_eq!(removed, Some(b"2".to_vec()));
    assert_eq!(h.get(b"K"), None);
    assert_eq!(h.remove(b"K"), None);
}

#[test]
fn insert_behaves_like_set() {
    let mut h = Header::new(b"GET".to_vec(), b"/".to_vec(), b"HTTP/1.1".to_vec());
    h.insert(b"A".to_vec(), b"x".to_vec());
    h.insert(b"B".to_vec(), b"y".to_vec());
    h.insert(b"A".to_vec(), b"z".to_vec());
    assert_eq!(h.get(b"A"), Some(&b"z".to_vec()));
    assert_eq!(h.get(b"B"), Some(&b"y".to_vec()));
}
