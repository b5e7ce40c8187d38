use lokal::crypto::KdfParams;
use lokal::format::{build_header, build_prefix, parse_header, Header, HEADER_LEN};
use lokal::Error;

fn header() -> Header {
    Header {
        kdf: KdfParams { m_cost: 0x01020304, t_cost: 0xfffefdfc, p_cost: 7 },
        salt: [1; 16],
        wrap_nonce: [2; 24],
        wrapped_key: [3; 48],
        data_nonce: [4; 24],
    }
}

#[test]
fn headers_read_back() {
    let mut bytes = build_header(&header());
    assert_eq!(bytes.len(), HEADER_LEN);
    assert_eq!(&bytes[..20], b"LOKAL1\x01\x01\x04\x03\x02\x01\xfc\xfd\xfe\xff\x07\x00\x00\x00");
    bytes.push(99);
    let h = parse_header(&bytes).unwrap_or_else(|e| panic!("{}", e.message()));
    assert_eq!(h.kdf, header().kdf);
    assert_eq!(h.salt, [1; 16]);
    assert_eq!(h.wrap_nonce, [2; 24]);
    assert_eq!(h.wrapped_key, [3; 48]);
    assert_eq!(h.data_nonce, [4; 24]);
    assert_eq!(&build_prefix(header().kdf, &[1; 16])[..], &bytes[..36]);
}

#[test]
fn the_checks_come_in_order() {
    let bytes = build_header(&header());
    assert!(matches!(parse_header(&bytes[..131]), Err(Error::Truncated)));
    assert!(matches!(parse_header(&[]), Err(Error::Truncated)));
    let mut all_wrong = bytes.clone();
    all_wrong[5] = b'2';
    all_wrong[6] = 2;
    all_wrong[7] = 0;
    assert!(matches!(parse_header(&all_wrong), Err(Error::BadMagic)));
    all_wrong[5] = b'1';
    assert!(matches!(
        parse_header(&all_wrong),
        Err(Error::UnsupportedVersion { found: 2, supported: 1 })
    ));
    all_wrong[6] = 1;
    match parse_header(&all_wrong) {
        Err(Error::BadKdfParams(t)) => assert_eq!(t, "未知 KDF 标识 0"),
        _ => panic!("the key derivation is not known"),
    }
}
