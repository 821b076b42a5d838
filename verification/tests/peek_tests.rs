use rweb::header::Header;
use rweb::peek::{PeekPoll, PeekableStream};

#[test]
fn reads_drain_buffer_in_order() {
    let mut ps = PeekableStream::new();
    for b in b"hello world" {
        ps.feed(*b);
    }
    assert_eq!(ps.buffered(), 11);
    let first = ps.read_into(5);
    assert_eq!(first, b"hello".to_vec());
    let second = ps.read_into(100);
    assert_eq!(second, b" world".to_vec());
    assert_eq!(ps.buffered(), 0);
    assert_eq!(ps.read_into(4), Vec::<u8>::new());
}

#[test]
fn peek_does_not_consume() {
    let mut ps = PeekableStream::new();
    ps.feed(1);
    ps.feed(2);
    ps.feed(3);
    assert_eq!(ps.peek(2), vec![1, 2]);
    assert_eq!(ps.peek(10), vec![1, 2, 3]);
    assert_eq!(ps.buffered(), 3);
}

#[test]
fn reset_header_is_read_first() {
    let mut ps = PeekableStream::new();
    for b in b"old bytes" {
        ps.feed(*b);
    }
    let mut h = Header::new(b"GET".to_vec(), b"/x".to_vec(), b"HTTP/1.1".to_vec());
    h.set(b"Connection".to_vec(), b"close".to_vec());
    ps.reset_header(&h);
    let wire = h.serialize();
    let observed = ps.read_into(wire.len());
    assert_eq!(observed, wire);
    assert_eq!(ps.buffered(), 0);
}

#[test]
fn peek_remove_clears_everything() {
    let mut ps = PeekableStream::new();
    for b in b"CONNECT 192.0.2.11:443 HTTP/1.1\r\n\r\n" {
        ps.feed(*b);
    }
    ps.peek_remove();
    assert_eq!(ps.buffered(), 0);
    assert_eq!(ps.read_into(16), Vec::<u8>::new());
}

#[test]
fn scan_asks_until_terminator() {
    let mut ps = PeekableStream::new();
    for b in b"GET / HTTP/1.1\r\n\r" {
        ps.feed(*b);
        assert!(matches!(ps.peek_header_poll(), PeekPoll::NeedMore));
    }
    ps.feed(b'\n');
    assert!(matches!(ps.peek_header_poll(), PeekPoll::Done));
    let h = ps.parse_buffer().unwrap();
    assert_eq!(h.method, b"GET".to_vec());
    // the preamble stays buffered for the upstream side
    assert_eq!(ps.buffered(), 18);
}

#[test]
fn scan_fails_once_past_the_limit() {
    let mut ps = PeekableStream::new();
    for _ in 0..65537 {
        ps.feed(b'a');
    }
    match ps.peek_header_poll() {
        PeekPoll::Fail(e) => {
            assert_eq!(e.code, 500);
            assert_eq!(e.msg, "header too long");
        },
        _ => panic!("expected the scan to fail"),
    }
}

#[test]
fn at_the_limit_still_asks_for_more() {
    let mut ps = PeekableStream::new();
    for _ in 0..65536 {
        ps.feed(b'a');
    }
    assert!(matches!(ps.peek_header_poll(), PeekPoll::NeedMore));
}

#[test]
fn buffered_rewrite_sets_and_removes() {
    let mut ps = PeekableStream::new();
    for b in b"GET / HTTP/1.1\r\nProxy-Connection: keep-alive\r\n\r\n" {
        ps.feed(*b);
    }
    ps.peek_header_remove(b"Proxy-Connection").unwrap();
    ps.peek_header_set(b"Connection".to_vec(), b"close".to_vec()).unwrap();
    let h = ps.parse_buffer().unwrap();
    assert_eq!(h.get(b"Proxy-Connection"), None);
    assert_eq!(h.get(b"Connection"), Some(&b"close".to_vec()));
}

#[test]
fn buffered_rewrite_fails_on_garbage() {
    let mut ps = PeekableStream::new();
    ps.feed(b'\r');
    ps.feed(b'\n');
    let e = ps.peek_header_set(b"A".to_vec(), b"b".to_vec()).unwrap_err();
    assert_eq!(e.code, 2400);
}
