use rweb::gateway::{host_label_bytes, is_tls_hello, route_request, RouteDecision};
use rweb::header::Header;
use rweb::mac::Mac;
use rweb::registry::Registry;
use rweb::resp::{resp_connect_plain_reject, resp_device_offline};

#[test]
fn first_byte_sniffing() {
    assert!(is_tls_hello(0x16));
    assert!(!is_tls_hello(b'G'));
}

#[test]
fn leftmost_label() {
    assert_eq!(host_label_bytes(b"aabbccddeeff.example.com"), b"aabbccddeeff".to_vec());
    assert_eq!(host_label_bytes(b"nodots"), b"nodots".to_vec());
    assert_eq!(host_label_bytes(b".x"), b"".to_vec());
}

// A plain request is steered by the leftmost label of its Host header.
#[test]
fn steer_by_host_header() {
    let wire = b"GET / HTTP/1.1\r\nHost: aabbccddeeff.example.com\r\n\r\n";
    let h = Header::parse(wire).unwrap();
    match route_request(&h, None, false).unwrap() {
        RouteDecision::Steer(m) => assert_eq!(m.format(), b"aabbccddeeff".to_vec()),
        _ => panic!("expected a steer decision"),
    }
}

// Over TLS the server name wins over the Host header.
#[test]
fn steer_by_server_name() {
    let wire = b"GET / HTTP/1.1\r\nHost: other.example.com\r\n\r\n";
    let h = Header::parse(wire).unwrap();
    let sni = b"010203040506.example.com".to_vec();
    match route_request(&h, Some(&sni), true).unwrap() {
        RouteDecision::Steer(m) => assert_eq!(m.format(), b"010203040506".to_vec()),
        _ => panic!("expected a steer decision"),
    }
}

// Tunneling over the plain listener is refused with the fixed reply.
#[test]
fn connect_over_plain_listener_is_refused() {
    let h = Header::parse(b"CONNECT 192.0.2.11:443 HTTP/1.1\r\n\r\n").unwrap();
    assert!(matches!(
        route_request(&h, None, false).unwrap(),
        RouteDecision::RejectConnect
    ));
    assert_eq!(
        resp_connect_plain_reject(),
        b"HTTP/1.1 400 Bad Request\r\nConnection: close\r\n\r\n".to_vec()
    );
}

// Over the TLS listener the same request is steered like any other.
#[test]
fn connect_over_tls_is_steered() {
    let h = Header::parse(b"CONNECT 192.0.2.11:443 HTTP/1.1\r\n\r\n").unwrap();
    let sni = b"aabbccddeeff.example.com".to_vec();
    match route_request(&h, Some(&sni), true).unwrap() {
        RouteDecision::Steer(m) => assert_eq!(m.format(), b"aabbccddeeff".to_vec()),
        _ => panic!("expected a steer decision"),
    }
}

// The streaming-protocol path takes the identifier from the uri's host.
#[test]
fn rtsp_options_routes_by_uri_host() {
    let wire = b"OPTIONS rtsp://aabbccddeeff.example.com:554/stream RTSP/1.0\r\nCSeq: 1\r\n\r\n";
    let h = Header::parse(wire).unwrap();
    match route_request(&h, None, false).unwrap() {
        RouteDecision::Rtsp(m) => assert_eq!(m.format(), b"aabbccddeeff".to_vec()),
        _ => panic!("expected the streaming path"),
    }
}

#[test]
fn rtsp_options_with_hostless_uri_fails() {
    let h = Header::parse(b"OPTIONS not_a_url RTSP/1.0\r\n\r\n").unwrap();
    assert_eq!(route_request(&h, None, false).unwrap_err().code, 2405);
}

#[test]
fn missing_host_header_fails() {
    let h = Header::parse(b"GET / HTTP/1.1\r\n\r\n").unwrap();
    assert_eq!(route_request(&h, None, false).unwrap_err().code, 2406);
}

#[test]
fn bad_label_fails_like_an_identifier() {
    let wire = b"GET / HTTP/1.1\r\nHost: www.example.com\r\n\r\n";
    let h = Header::parse(wire).unwrap();
    let e = route_request(&h, None, false).unwrap_err();
    assert_eq!(e.code, 50001);
}

// A steered identifier nobody registered gets the fixed offline notice.
#[test]
fn unregistered_identifier_gets_offline_notice() {
    let reg = Registry::new();
    let mac = Mac::from_text(b"aabbccddeeff").unwrap();
    assert_eq!(reg.lookup(&mac), None);
    let notice = resp_device_offline();
    assert!(notice.starts_with(
        b"HTTP/1.1 200 OK\r\nContent-Type: text/plain; charset=utf-8\r\nContent-Length: 15\r\n\r\n"
    ));
    assert_eq!(notice.len(), 80 + 15);
}
