use wol_registry::wol::{build_wol_datagram, magic_packet, parse_mac, WolError};

#[test]
fn mac_parses_to_bytes() {
    let bytes = parse_mac("AA:BB:CC:DD:EE:FF").unwrap();
    assert_eq!(bytes, vec![0xAA, 0xBB, 0xCC, 0xDD, 0xEE, 0xFF]);
}

#[test]
fn mac_parses_lowercase_and_mixed() {
    let bytes = parse_mac("aa:bb:cc:dd:ee:ff").unwrap();
    assert_eq!(bytes, vec![0xAA, 0xBB, 0xCC, 0xDD, 0xEE, 0xFF]);
    let bytes = parse_mac("0a:1B:2c:3D:4e:5F").unwrap();
    assert_eq!(bytes, vec![0x0A, 0x1B, 0x2C, 0x3D, 0x4E, 0x5F]);
}

#[test]
fn payload_is_ff_header_then_sixteen_macs() {
    let bytes = parse_mac("AA:BB:CC:DD:EE:FF").unwrap();
    let payload = magic_packet(&bytes);
    assert_eq!(payload.len(), 102);
    for i in 0..6 {
        assert_eq!(payload[i], 0xFF);
    }
    for rep in 0..16 {
        for j in 0..6 {
            assert_eq!(payload[6 + 6 * rep + j], bytes[j]);
        }
    }
}

#[test]
fn too_few_groups_is_invalid_mac() {
    let r = parse_mac("AA:BB");
    assert!(matches!(r, Err(WolError::InvalidMacFormat { .. })));
    let r = build_wol_datagram("AA:BB", None, None);
    assert!(matches!(r, Err(WolError::InvalidMacFormat { .. })));
}

#[test]
fn non_hex_digit_is_invalid_mac() {
    let r = parse_mac("ZZ:BB:CC:DD:EE:FF");
    match r {
        Err(WolError::InvalidMacFormat { input }) => {
            assert_eq!(input, "ZZ:BB:CC:DD:EE:FF");
        },
        _ => panic!("expected InvalidMacFormat"),
    }
}

#[test]
fn wrong_delimiter_and_shapes_are_invalid() {
    assert!(parse_mac("AA-BB-CC-DD-EE-FF").is_err());
    assert!(parse_mac("AA:BB:CC:DD:EE:FF:00").is_err());
    assert!(parse_mac("").is_err());
    assert!(parse_mac("AABBCCDDEEFF").is_err());
    assert!(parse_mac("AA:BB:CC:DD:EE:F").is_err());
}

#[test]
fn defaults_are_broadcast_and_port_nine() {
    let d = build_wol_datagram("AA:BB:CC:DD:EE:FF", None, None).unwrap();
    assert_eq!(d.target, "255.255.255.255");
    assert_eq!(d.port, 9);
    assert_eq!(d.payload.len(), 102);
}

#[test]
fn explicit_target_and_port_are_used_verbatim() {
    let d = build_wol_datagram(
        "01:02:03:04:05:06",
        Some(String::from("192.168.1.42")),
        Some(7),
    )
    .unwrap();
    assert_eq!(d.target, "192.168.1.42");
    assert_eq!(d.port, 7);
    assert_eq!(&d.payload[0..6], &[0xFF; 6]);
    assert_eq!(&d.payload[6..12], &[1, 2, 3, 4, 5, 6]);
}
