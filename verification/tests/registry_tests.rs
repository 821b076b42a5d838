use rweb::mac::Mac;
use rweb::registry::Registry;

fn mac(text: &[u8]) -> Mac {
    Mac::from_text(text).unwrap()
}

#[test]
fn register_then_lookup() {
    let mut reg = Registry::new();
    let macs = vec![mac(b"aabbccddeeff"), mac(b"010203040506")];
    assert!(reg.register_all(&macs, 7));
    assert_eq!(reg.lookup(&macs[0]), Some(7));
    assert_eq!(reg.lookup(&macs[1]), Some(7));
    assert_eq!(reg.lookup(&mac(b"0a0b0c0d0e0f")), None);
}

// A second connection that tries to register a live identifier is turned
// away whole, and the first owner keeps every entry.
#[test]
fn duplicate_registration_is_rejected_atomically() {
    let mut reg = Registry::new();
    assert!(reg.register_all(&vec![mac(b"aabbccddeeff")], 1));
    let second = vec![mac(b"0a0b0c0d0e0f"), mac(b"aabbccddeeff")];
    assert!(!reg.register_all(&second, 2));
    assert_eq!(reg.lookup(&mac(b"aabbccddeeff")), Some(1));
    // nothing of the rejected batch went in
    assert_eq!(reg.lookup(&mac(b"0a0b0c0d0e0f")), None);
}

// Once a connection closes, none of its identifiers stays registered.
#[test]
fn close_removes_every_owned_identifier() {
    let mut reg = Registry::new();
    let first = vec![mac(b"aabbccddeeff"), mac(b"010203040506")];
    let second = vec![mac(b"0a0b0c0d0e0f")];
    assert!(reg.register_all(&first, 1));
    assert!(reg.register_all(&second, 2));
    reg.remove_all(&first);
    assert_eq!(reg.lookup(&first[0]), None);
    assert_eq!(reg.lookup(&first[1]), None);
    assert_eq!(reg.lookup(&second[0]), Some(2));
}

#[test]
fn identifier_can_be_reused_after_removal() {
    let mut reg = Registry::new();
    let macs = vec![mac(b"aabbccddeeff")];
    assert!(reg.register_all(&macs, 1));
    reg.remove_all(&macs);
    assert!(reg.register_all(&macs, 2));
    assert_eq!(reg.lookup(&macs[0]), Some(2));
}

#[test]
fn removing_unregistered_identifiers_is_harmless() {
    let mut reg = Registry::new();
    let macs = vec![mac(b"aabbccddeeff")];
    reg.remove_all(&macs);
    assert_eq!(reg.lookup(&macs[0]), None);
    assert!(reg.register_all(&macs, 3));
    assert_eq!(reg.lookup(&macs[0]), Some(3));
}
