use rweb::pem::extract_full_pem_certificates;

#[test]
fn extracts_each_certificate_block() {
    let pem = b"junk before\n-----BEGIN CERTIFICATE-----\nAAAA\nBBBB\n-----END CERTIFICATE-----\ntrailing\n-----BEGIN CERTIFICATE-----\nCCCC\n-----END CERTIFICATE-----\n";
    let certs = extract_full_pem_certificates(pem);
    assert_eq!(certs.len(), 2);
    assert_eq!(
        certs[0],
        b"-----BEGIN CERTIFICATE-----\nAAAA\nBBBB\n-----END CERTIFICATE-----".to_vec()
    );
    assert_eq!(
        certs[1],
        b"-----BEGIN CERTIFICATE-----\nCCCC\n-----END CERTIFICATE-----".to_vec()
    );
}

#[test]
fn handles_crlf_line_endings() {
    let pem = b"-----BEGIN CERTIFICATE-----\r\nAAAA\r\n-----END CERTIFICATE-----\r\n";
    let certs = extract_full_pem_certificates(pem);
    assert_eq!(certs.len(), 1);
    assert_eq!(
        certs[0],
        b"-----BEGIN CERTIFICATE-----\nAAAA\n-----END CERTIFICATE-----".to_vec()
    );
}

#[test]
fn no_markers_no_blocks() {
    assert_eq!(extract_full_pem_certificates(b"").len(), 0);
    assert_eq!(extract_full_pem_certificates(b"some\nrandom\ntext\n").len(), 0);
}

#[test]
fn unterminated_block_is_not_emitted() {
    let pem = b"-----BEGIN CERTIFICATE-----\nAAAA\n";
    assert_eq!(extract_full_pem_certificates(pem).len(), 0);
}

#[test]
fn end_without_begin_is_ignored() {
    let pem = b"-----END CERTIFICATE-----\n";
    assert_eq!(extract_full_pem_certificates(pem).len(), 0);
}
