use rweb::codec::NetAddr;
use rweb::header::Header;
use rweb::mac::Mac;
use rweb::p2p::{nat_type_for, port_candidates, predict_port, sweep_width, NatType};

#[test]
fn predict_port_advances_within_band() {
    assert_eq!(predict_port(80, 3), 83);
    assert_eq!(predict_port(5000, 1), 5001);
    assert_eq!(predict_port(20000, 999), 20999);
    assert_eq!(predict_port(40000, 10), 40010);
    assert_eq!(predict_port(50000, 0), 50000);
}

#[test]
fn predict_port_wraps_to_band_base() {
    // highest band: 49152..=65535 wraps at 65535 back to the band base
    assert_eq!(predict_port(65530, 10), 65530 - 49152 + 10);
    // family band: 16384..=32767 wraps at 32767
    assert_eq!(predict_port(32760, 10), 32760 - 16384 + 10);
}

#[test]
fn port_candidates_enumerate_the_sweep() {
    let cs = port_candidates(5000, 4);
    assert_eq!(cs, vec![5000, 5001, 5002, 5003]);
    let one = port_candidates(60000, 1);
    assert_eq!(one, vec![60000]);
    let wide = port_candidates(20000, 1000);
    assert_eq!(wide.len(), 1000);
    assert_eq!(wide[999], predict_port(20000, 999));
}

#[test]
fn sweep_width_by_classification() {
    assert_eq!(sweep_width(&Some(NatType::Symmetric)), 1000);
    assert_eq!(sweep_width(&Some(NatType::FullCone)), 1);
    assert_eq!(sweep_width(&None), 1);
}

#[test]
fn nat_classification() {
    let observed = NetAddr::V4 { ip: [198, 51, 100, 1], port: 40000 };
    let same = NetAddr::V4 { ip: [198, 51, 100, 1], port: 40000 };
    let other = NetAddr::V4 { ip: [198, 51, 100, 1], port: 40001 };
    assert_eq!(nat_type_for(&observed, None), None);
    assert_eq!(nat_type_for(&observed, Some(&same)), Some(NatType::FullCone));
    assert_eq!(nat_type_for(&observed, Some(&other)), Some(NatType::Symmetric));
}

#[test]
fn p2p_preamble_round_trip() {
    let mac = Mac::from_text(b"aabbccddeeff").unwrap();
    let addr = NetAddr::V4 { ip: [0, 0, 0, 0], port: 0 };
    let mine = NetAddr::V4 { ip: [203, 0, 113, 9], port: 41000 };
    let h = Header::new_p2p(mac, &addr, Some(&mine));
    assert_eq!(h.method, b"P2P".to_vec());
    assert_eq!(h.uri, b"/p2p".to_vec());
    assert_eq!(h.get(b"mac"), Some(&b"aabbccddeeff".to_vec()));
    assert_eq!(h.get(b"addr"), Some(&b"0.0.0.0:0".to_vec()));
    assert_eq!(h.get(b"self_addr"), Some(&b"203.0.113.9:41000".to_vec()));
    let (m2, a2, s2) = h.parse_p2p().unwrap();
    assert!(m2.same(&mac));
    assert!(a2.same(&addr));
    assert!(s2.unwrap().same(&mine));
}

#[test]
fn p2p_preamble_survives_the_wire() {
    let mac = Mac::from_text(b"010203040506").unwrap();
    let addr = NetAddr::V4 { ip: [198, 51, 100, 20], port: 3478 };
    let h = Header::new_p2ptest(mac, &addr, None);
    assert_eq!(h.uri, b"/p2ptest".to_vec());
    let wire = h.serialize();
    let back = Header::parse(&wire).unwrap();
    let (m2, a2, s2) = back.parse_p2p().unwrap();
    assert!(m2.same(&mac));
    assert!(a2.same(&addr));
    assert!(s2.is_none());
}

#[test]
fn parse_p2p_error_codes() {
    let h = Header::new(b"P2P".to_vec(), b"/p2p".to_vec(), b"HTTP/1.1".to_vec());
    assert_eq!(h.parse_p2p().unwrap_err().code, 2401);
    let mut h2 = Header::new(b"P2P".to_vec(), b"/p2p".to_vec(), b"HTTP/1.1".to_vec());
    h2.set(b"mac".to_vec(), b"nonsense".to_vec());
    assert_eq!(h2.parse_p2p().unwrap_err().code, 2402);
    let mut h3 = Header::new(b"P2P".to_vec(), b"/p2p".to_vec(), b"HTTP/1.1".to_vec());
    h3.set(b"mac".to_vec(), b"aabbccddeeff".to_vec());
    assert_eq!(h3.parse_p2p().unwrap_err().code, 2403);
    let mut h4 = Header::new(b"P2P".to_vec(), b"/p2p".to_vec(), b"HTTP/1.1".to_vec());
    h4.set(b"mac".to_vec(), b"aabbccddeeff".to_vec());
    h4.set(b"addr".to_vec(), b"not an address".to_vec());
    assert_eq!(h4.parse_p2p().unwrap_err().code, 61);
    let mut h5 = Header::new(b"P2P".to_vec(), b"/p2p".to_vec(), b"HTTP/1.1".to_vec());
    h5.set(b"mac".to_vec(), b"aabbccddeeff".to_vec());
    h5.set(b"addr".to_vec(), b"1.2.3.4:5".to_vec());
    h5.set(b"self_addr".to_vec(), b"broken".to_vec());
    assert_eq!(h5.parse_p2p().unwrap_err().code, 62);
}

#[test]
fn gateway_annotates_nat_type() {
    let mac = Mac::from_text(b"aabbccddeeff").unwrap();
    let observed = NetAddr::V4 { ip: [198, 51, 100, 1], port: 40000 };
    let reported = NetAddr::V4 { ip: [198, 51, 100, 1], port: 40007 };
    let mut h = Header::new_p2p(mac, &observed, Some(&reported));
    h.annotate_nat_type(&observed, Some(&reported));
    assert_eq!(h.get(b"Nat-Type"), Some(&b"Symmetric".to_vec()));
    assert_eq!(h.sweep_width_of(), 1000);

    let mut h2 = Header::new_p2p(mac, &observed, Some(&observed));
    h2.annotate_nat_type(&observed, Some(&observed));
    assert_eq!(h2.get(b"Nat-Type"), Some(&b"FullCone".to_vec()));
    assert_eq!(h2.sweep_width_of(), 1);

    let mut h3 = Header::new_p2p(mac, &observed, None);
    h3.annotate_nat_type(&observed, None);
    assert_eq!(h3.get(b"Nat-Type"), None);
    assert_eq!(h3.sweep_width_of(), 1);
}
