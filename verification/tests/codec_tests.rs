use rweb::codec::{decode_mac_list, encode_mac_list, NetAddr, UniCommand};
use rweb::mac::Mac;

#[test]
fn addr_codec_round_trip_v4() {
    let a = NetAddr::V4 { ip: [192, 0, 2, 1], port: 443 };
    let wire = a.encode();
    assert_eq!(wire, vec![4, 192, 0, 2, 1, 1, 187]);
    let (back, used) = NetAddr::decode(&wire).unwrap();
    assert_eq!(used, 7);
    assert!(back.same(&a));
}

#[test]
fn addr_codec_round_trip_v6() {
    let ip = [0x20, 0x01, 0x0d, 0xb8, 0, 0, 0, 0, 0, 0, 0, 0, 0, 0, 0, 1];
    let a = NetAddr::V6 { ip, port: 5677 };
    let wire = a.encode();
    assert_eq!(wire.len(), 19);
    assert_eq!(wire[0], 6);
    assert_eq!(&wire[1..17], &ip);
    assert_eq!(wire[17], (5677u16 / 256) as u8);
    assert_eq!(wire[18], (5677u16 % 256) as u8);
    let (back, used) = NetAddr::decode(&wire).unwrap();
    assert_eq!(used, 19);
    assert!(back.same(&a));
}

#[test]
fn addr_decode_errors() {
    assert_eq!(NetAddr::decode(b"").unwrap_err().code, 500);
    assert_eq!(NetAddr::decode(&[9, 1, 2, 3]).unwrap_err().code, 505);
    assert_eq!(NetAddr::decode(&[4, 1, 2]).unwrap_err().code, 501);
    assert_eq!(NetAddr::decode(&[4, 1, 2, 3, 4, 5]).unwrap_err().code, 502);
    assert_eq!(NetAddr::decode(&[6, 0, 0, 0, 0, 0, 0, 0, 0]).unwrap_err().code, 503);
    let mut seventeen = vec![6u8];
    seventeen.extend_from_slice(&[0u8; 16]);
    assert_eq!(NetAddr::decode(&seventeen).unwrap_err().code, 504);
}

#[test]
fn addr_with_port_and_port() {
    let a = NetAddr::V4 { ip: [10, 0, 0, 1], port: 80 };
    assert_eq!(a.port(), 80);
    let b = a.with_port(8080);
    assert_eq!(b.port(), 8080);
    assert!(!a.same(&b));
}

#[test]
fn mac_list_round_trip_small() {
    for count in [0usize, 1, 2] {
        let mut macs: Vec<Mac> = Vec::new();
        for k in 0..count {
            macs.push(Mac::from_bytes([k as u8, 1, 2, 3, 4, 5]));
        }
        let wire = encode_mac_list(&macs);
        assert_eq!(wire.len(), 2 + 6 * count);
        assert_eq!(wire[0] as usize * 256 + wire[1] as usize, count);
        let (back, used) = decode_mac_list(&wire).unwrap();
        assert_eq!(used, wire.len());
        assert_eq!(back.len(), count);
        for k in 0..count {
            assert!(back[k].same(&macs[k]));
        }
    }
}

#[test]
fn mac_list_round_trip_largest() {
    let mut macs: Vec<Mac> = Vec::new();
    for k in 0..65535usize {
        macs.push(Mac::from_bytes([
            (k / 256) as u8,
            (k % 256) as u8,
            0,
            0,
            0,
            0,
        ]));
    }
    let wire = encode_mac_list(&macs);
    assert_eq!(wire.len(), 2 + 6 * 65535);
    let (back, used) = decode_mac_list(&wire).unwrap();
    assert_eq!(used, wire.len());
    assert_eq!(back.len(), 65535);
    assert!(back[0].same(&macs[0]));
    assert!(back[65534].same(&macs[65534]));
}

#[test]
fn mac_list_decode_errors() {
    assert_eq!(decode_mac_list(b"").unwrap_err().code, 500);
    assert_eq!(decode_mac_list(&[0]).unwrap_err().code, 500);
    // count says one identifier but only five bytes follow
    assert_eq!(decode_mac_list(&[0, 1, 1, 2, 3, 4, 5]).unwrap_err().code, 500);
}

#[test]
fn uni_command_bytes() {
    assert_eq!(UniCommand::MacList.to_byte(), 0);
    assert_eq!(UniCommand::Addr.to_byte(), 1);
    assert_eq!(UniCommand::from_byte(0).unwrap(), UniCommand::MacList);
    assert_eq!(UniCommand::from_byte(1).unwrap(), UniCommand::Addr);
    assert_eq!(UniCommand::from_byte(7).unwrap_err().code, 2404);
}
