//! The literal end-to-end situations, walked through the library's
//! decisions in order: what the gateway decides, what the registry says,
//! and what the node engine does with the stream.

use rweb::codec::NetAddr;
use rweb::gateway::{route_request, RouteDecision};
use rweb::header::Header;
use rweb::mac::Mac;
use rweb::node::{classify_request, NodeAction, ProxyList, ProxyStringList, Scheme};
use rweb::peek::PeekableStream;
use rweb::registry::Registry;
use rweb::resp::{resp_connect_established, resp_device_offline, resp_loop_detected};
use rweb::urlwrap::parse_url;

fn steer(h: &Header, sni: Option<&Vec<u8>>, tls: bool) -> Mac {
    match route_request(h, sni, tls).unwrap() {
        RouteDecision::Steer(m) => m,
        other => panic!("expected a steer decision, got {:?}", other),
    }
}

// A registered node serves a plain request, with the preamble forwarded
// verbatim: no rewrite happens on this path.
#[test]
fn plain_get_reaches_the_configured_upstream() {
    let mut reg = Registry::new();
    let mac = Mac::from_text(b"aabbccddeeff").unwrap();
    assert!(reg.register_all(&vec![mac], 1));

    let wire = b"GET / HTTP/1.1\r\nHost: aabbccddeeff.example.com\r\n\r\n";
    let h = Header::parse(wire).unwrap();
    let routed = steer(&h, None, false);
    assert_eq!(reg.lookup(&routed), Some(1));

    // node side: the stream opens with the identifier, then the verbatim bytes
    let table = ProxyStringList::new(
        vec![ProxyList {
            mac,
            scheme: Scheme::Http,
            host: b"192.0.2.10".to_vec(),
            port: Some(80),
        }],
        NetAddr::V4 { ip: [198, 51, 100, 1], port: 5677 },
    );
    let mut ps = PeekableStream::new();
    for b in wire {
        ps.feed(*b);
    }
    let node_h = ps.parse_buffer().unwrap();
    assert_eq!(classify_request(&node_h), NodeAction::Forward);
    let plan = table.forward_plan(&routed).unwrap();
    assert_eq!(plan.host, b"192.0.2.10".to_vec());
    assert_eq!(plan.port, 80);
    assert!(!plan.tls);
    // the buffered preamble is exactly what came in
    assert_eq!(ps.read_into(wire.len()), wire.to_vec());
}

// A tunnel request over TLS: steered to the node, which drops the
// preamble, connects to the uri's address, and acknowledges.
#[test]
fn connect_over_tls_tunnels_opaquely() {
    let wire = b"CONNECT 192.0.2.11:443 HTTP/1.1\r\n\r\n";
    let h = Header::parse(wire).unwrap();
    let sni = b"aabbccddeeff.example.com".to_vec();
    let routed = steer(&h, Some(&sni), true);
    assert_eq!(routed.format(), b"aabbccddeeff".to_vec());

    let mut ps = PeekableStream::new();
    for b in wire {
        ps.feed(*b);
    }
    let node_h = ps.parse_buffer().unwrap();
    assert_eq!(classify_request(&node_h), NodeAction::Connect);
    assert_eq!(node_h.uri, b"192.0.2.11:443".to_vec());
    ps.peek_remove();
    assert_eq!(ps.buffered(), 0);
    assert_eq!(
        resp_connect_established(),
        b"HTTP/1.1 200 Connection Established\r\n\r\n".to_vec()
    );
}

// An old-style proxy request: the upstream sees a rewritten preamble with
// the marker and the echo gone and the connection marked to close.
#[test]
fn old_style_proxy_request_is_rewritten() {
    let wire = b"GET http://192.0.2.12/path HTTP/1.1\r\nProxy-Connection: keep-alive\r\nHost: aabbccddeeff.example.com\r\n\r\n";
    let mut ps = PeekableStream::new();
    for b in wire {
        ps.feed(*b);
    }
    let mut h = ps.parse_buffer().unwrap();
    assert_eq!(classify_request(&h), NodeAction::OldProxy);
    let parts = parse_url(&h.uri).unwrap();
    let (host, port) = rweb::node::old_proxy_target(&parts);
    assert_eq!((host, port), (b"192.0.2.12".to_vec(), 80));
    rweb::node::rewrite_old_proxy(&mut h, &parts);
    ps.reset_header(&h);
    let forwarded = ps.read_into(4096);
    assert_eq!(
        forwarded,
        b"GET /path HTTP/1.1\r\nHost: aabbccddeeff.example.com\r\nConnection: close\r\n\r\n"
            .to_vec()
    );
}

// A second node trying to register a live identifier is closed out whole
// and the first registration stands untouched.
#[test]
fn second_registration_of_a_live_identifier_is_refused() {
    let mut reg = Registry::new();
    let mac = Mac::from_text(b"aabbccddeeff").unwrap();
    assert!(reg.register_all(&vec![mac], 1));
    assert!(!reg.register_all(&vec![mac], 2));
    assert_eq!(reg.lookup(&mac), Some(1));
}

// A forwarding table that points back at the gateway produces the loop
// reply and no upstream connection.
#[test]
fn forwarding_to_the_gateway_is_a_loop() {
    let gateway = NetAddr::V4 { ip: [198, 51, 100, 1], port: 5677 };
    let mac = Mac::from_text(b"aabbccddeeff").unwrap();
    let table = ProxyStringList::new(
        vec![ProxyList {
            mac,
            scheme: Scheme::Http,
            host: b"198.51.100.1".to_vec(),
            port: Some(5677),
        }],
        gateway,
    );
    let plan = table.forward_plan(&mac).unwrap();
    // the host resolves to the gateway itself
    let resolved = NetAddr::V4 { ip: [198, 51, 100, 1], port: plan.port };
    assert_eq!(table.check_loop(&resolved).unwrap_err().code, 5026);
    assert!(resp_loop_detected().starts_with(b"HTTP/1.1 508 Loop Detected\r\n"));
}

// A TLS client names an identifier nobody registered: the fixed offline
// notice with its fifteen-byte body comes back.
#[test]
fn unregistered_server_name_gets_the_offline_notice() {
    let reg = Registry::new();
    let h = Header::parse(b"GET / HTTP/1.1\r\nHost: whatever\r\n\r\n").unwrap();
    let sni = b"aabbccddeeff.example.com".to_vec();
    let routed = steer(&h, Some(&sni), true);
    assert_eq!(reg.lookup(&routed), None);
    let notice = resp_device_offline();
    let body = "设备未连接".as_bytes();
    assert_eq!(body.len(), 15);
    assert!(notice.ends_with(body));
    assert!(notice.starts_with(
        b"HTTP/1.1 200 OK\r\nContent-Type: text/plain; charset=utf-8\r\nContent-Length: 15\r\n\r\n"
    ));
}
