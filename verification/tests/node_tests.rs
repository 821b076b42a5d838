use rweb::codec::NetAddr;
use rweb::header::Header;
use rweb::mac::Mac;
use rweb::node::{
    classify_request, default_port, find_p2p_cell, old_proxy_target, rewrite_old_proxy,
    NodeAction, P2pCell, ProxyList, ProxyStringList, Scheme,
};
use rweb::resp::{
    resp_bad_request, resp_connect_established, resp_device_offline, resp_loop_detected,
};
use rweb::urlwrap::{parse_url, UrlParts};

fn table() -> ProxyStringList {
    let gateway = NetAddr::V4 { ip: [198, 51, 100, 1], port: 5677 };
    let list = vec![
        ProxyList {
            mac: Mac::from_text(b"aabbccddeeff").unwrap(),
            scheme: Scheme::Http,
            host: b"192.0.2.10".to_vec(),
            port: None,
        },
        ProxyList {
            mac: Mac::from_text(b"010203040506").unwrap(),
            scheme: Scheme::Https,
            host: b"secure.example.com".to_vec(),
            port: Some(8443),
        },
        ProxyList {
            mac: Mac::from_text(b"0a0b0c0d0e0f").unwrap(),
            scheme: Scheme::Rtsp,
            host: b"camera.local".to_vec(),
            port: None,
        },
    ];
    ProxyStringList::new(list, gateway)
}

#[test]
fn classify_by_method_and_marker() {
    let connect = Header::new(b"CONNECT".to_vec(), b"h:443".to_vec(), b"HTTP/1.1".to_vec());
    assert_eq!(classify_request(&connect), NodeAction::Connect);
    let p2p = Header::new(b"P2P".to_vec(), b"/p2p".to_vec(), b"HTTP/1.1".to_vec());
    assert_eq!(classify_request(&p2p), NodeAction::P2p);
    let mut old = Header::new(b"GET".to_vec(), b"http://x/".to_vec(), b"HTTP/1.1".to_vec());
    old.set(b"Proxy-Connection".to_vec(), b"keep-alive".to_vec());
    assert_eq!(classify_request(&old), NodeAction::OldProxy);
    let plain = Header::new(b"GET".to_vec(), b"/".to_vec(), b"HTTP/1.1".to_vec());
    assert_eq!(classify_request(&plain), NodeAction::Forward);
}

// Old-style proxy request: the marker and the first-line echo go, the
// connection is marked to close, and the uri keeps only the path.
#[test]
fn rewrite_old_proxy_request() {
    let wire = b"GET http://192.0.2.12/path HTTP/1.1\r\nProxy-Connection: keep-alive\r\nHost: aabbccddeeff.example.com\r\n\r\n";
    let mut h = Header::parse(wire).unwrap();
    let parts = parse_url(&h.uri).unwrap();
    assert_eq!(parts.scheme, b"http".to_vec());
    assert_eq!(parts.host, b"192.0.2.12".to_vec());
    assert_eq!(parts.port, None);
    let (host, port) = old_proxy_target(&parts);
    assert_eq!(host, b"192.0.2.12".to_vec());
    assert_eq!(port, 80);
    rewrite_old_proxy(&mut h, &parts);
    assert_eq!(h.uri, b"/path".to_vec());
    assert_eq!(h.get(b"Proxy-Connection"), None);
    assert_eq!(h.get(b"GET"), None);
    assert_eq!(h.get(b"Connection"), Some(&b"close".to_vec()));
    let forwarded = h.serialize();
    assert_eq!(
        forwarded,
        b"GET /path HTTP/1.1\r\nHost: aabbccddeeff.example.com\r\nConnection: close\r\n\r\n"
            .to_vec()
    );
}

#[test]
fn rewrite_substitutes_root_for_empty_path() {
    let mut h = Header::parse(b"GET http://h:81 HTTP/1.1\r\nProxy-Connection: x\r\n\r\n").unwrap();
    let parts = UrlParts { scheme: b"http".to_vec(), host: b"h".to_vec(), port: Some(81) };
    rewrite_old_proxy(&mut h, &parts);
    assert_eq!(h.uri, b"/".to_vec());
}

#[test]
fn old_proxy_target_default_ports() {
    let https = UrlParts { scheme: b"https".to_vec(), host: b"h".to_vec(), port: None };
    assert_eq!(old_proxy_target(&https).1, 443);
    let explicit = UrlParts { scheme: b"http".to_vec(), host: b"h".to_vec(), port: Some(8080) };
    assert_eq!(old_proxy_target(&explicit).1, 8080);
}

// A plain forwarded request reaches its configured upstream with the
// scheme's default port and no preamble rewriting.
#[test]
fn forward_plan_by_identifier() {
    let t = table();
    let plan = t.forward_plan(&Mac::from_text(b"aabbccddeeff").unwrap()).unwrap();
    assert_eq!(plan.host, b"192.0.2.10".to_vec());
    assert_eq!(plan.port, 80);
    assert!(!plan.tls);
    let tls_plan = t.forward_plan(&Mac::from_text(b"010203040506").unwrap()).unwrap();
    assert_eq!(tls_plan.host, b"secure.example.com".to_vec());
    assert_eq!(tls_plan.port, 8443);
    assert!(tls_plan.tls);
    let rtsp_plan = t.forward_plan(&Mac::from_text(b"0a0b0c0d0e0f").unwrap()).unwrap();
    assert_eq!(rtsp_plan.port, 554);
    assert!(!rtsp_plan.tls);
}

#[test]
fn forward_plan_unknown_identifier() {
    let t = table();
    let e = t.forward_plan(&Mac::from_text(b"ffffffffffff").unwrap()).unwrap_err();
    assert_eq!(e.code, 5024);
}

#[test]
fn default_ports() {
    assert_eq!(default_port(&Scheme::Http), 80);
    assert_eq!(default_port(&Scheme::Https), 443);
    assert_eq!(default_port(&Scheme::Rtsp), 554);
}

// An upstream that resolves to the gateway itself is refused and the
// client sees the fixed loop reply; no connection is attempted.
#[test]
fn loop_detection() {
    let t = table();
    let gateway = NetAddr::V4 { ip: [198, 51, 100, 1], port: 5677 };
    let elsewhere = NetAddr::V4 { ip: [192, 0, 2, 10], port: 80 };
    assert_eq!(t.check_loop(&gateway).unwrap_err().code, 5026);
    assert!(t.check_loop(&elsewhere).is_ok());
    assert_eq!(t.check_direct(&gateway).unwrap_err().code, 5023);
    assert!(t.check_direct(&elsewhere).is_ok());
    let reply = resp_loop_detected();
    assert_eq!(
        reply,
        b"HTTP/1.1 508 Loop Detected\r\nContent-Type: text/plain; charset=utf-8\r\nContent-Length: 28\r\n\r\nError: Request loop detected".to_vec()
    );
}

#[test]
fn mac_list_mirrors_the_table() {
    let t = table();
    let macs = t.mac_list();
    assert_eq!(macs.len(), 3);
    assert_eq!(macs[0].format(), b"aabbccddeeff".to_vec());
    assert_eq!(macs[2].format(), b"0a0b0c0d0e0f".to_vec());
}

#[test]
fn p2p_cell_by_port() {
    let list = vec![
        P2pCell { mac: Mac::from_text(b"aabbccddeeff").unwrap(), port: 8080 },
        P2pCell { mac: Mac::from_text(b"010203040506").unwrap(), port: 9090 },
    ];
    let c = find_p2p_cell(&list, 9090).unwrap();
    assert_eq!(c.mac.format(), b"010203040506".to_vec());
    assert_eq!(find_p2p_cell(&list, 7).unwrap_err().code, 54);
}

#[test]
fn canned_node_replies() {
    assert_eq!(
        resp_bad_request(),
        b"HTTP/1.1 400 Bad Request\r\nContent-Type: text/plain; charset=utf-8\r\nContent-Length: 23\r\n\r\nError: Bad Request".to_vec()
    );
    assert_eq!(
        resp_connect_established(),
        b"HTTP/1.1 200 Connection Established\r\n\r\n".to_vec()
    );
    let offline = resp_device_offline();
    let body = "设备未连接".as_bytes();
    assert_eq!(body.len(), 15);
    assert!(offline.ends_with(body));
    assert!(offline.starts_with(b"HTTP/1.1 200 OK\r\n"));
}

// Tunneling: the preamble is dropped, the target comes straight from the
// uri, and the fixed acknowledgement is sent once the upstream stands.
#[test]
fn connect_tunnel_decisions() {
    let h = Header::parse(b"CONNECT 192.0.2.11:443 HTTP/1.1\r\n\r\n").unwrap();
    assert_eq!(classify_request(&h), NodeAction::Connect);
    assert_eq!(h.uri, b"192.0.2.11:443".to_vec());
    assert_eq!(
        resp_connect_established(),
        b"HTTP/1.1 200 Connection Established\r\n\r\n".to_vec()
    );
}
