use mac_addr::{MacAddr, MacAddr8, ParseMacAddrError};

#[test]
fn text_round_trip_both_widths() {
    let samples6 = [[0u8, 0, 0, 0, 0, 0], [0xff; 6], [1, 0x23, 0x45, 0x67, 0x89, 0xab]];
    for b in samples6 {
        let m = MacAddr::from_octets(b);
        assert_eq!(m.octets(), b);
        assert_eq!(MacAddr::parse(&m.address()), Ok(m));
        assert_eq!(MacAddr::parse(&m.to_upper_hex()), Ok(m));
    }
    let samples8 = [[0u8; 8], [0xff; 8], [0xfe, 0xdc, 0xba, 0x98, 0x76, 0x54, 0x32, 0x10]];
    for b in samples8 {
        let m = MacAddr8::from_octets(b);
        assert_eq!(m.octets(), b);
        assert_eq!(MacAddr8::parse(&m.address()), Ok(m));
        assert_eq!(MacAddr8::parse(&m.to_upper_hex()), Ok(m));
    }
}

#[test]
fn upper_hex_form() {
    let m = MacAddr::new(0x0a, 0x0b, 0x0c, 0xfd, 0xfe, 0xff);
    assert_eq!(m.to_upper_hex(), "0A:0B:0C:FD:FE:FF");
    let m8 = MacAddr8::new(0xab, 0, 0, 0, 0, 0, 0, 0xcd);
    assert_eq!(m8.to_upper_hex(), "AB:00:00:00:00:00:00:CD");
}

#[test]
fn classification_is_complementary() {
    for first in [0u8, 1, 2, 3, 0xfc, 0xfd, 0xfe, 0xff] {
        let m = MacAddr::new(first, 9, 9, 9, 9, 9);
        assert_ne!(m.is_multicast(), m.is_unicast());
        assert_ne!(m.is_locally_administered(), m.is_universal());
        assert_eq!(m.is_multicast(), first & 1 == 1);
        assert_eq!(m.is_locally_administered(), first & 2 == 2);
        let m8 = MacAddr8::new(first, 9, 9, 9, 9, 9, 9, 9);
        assert_ne!(m8.is_multicast(), m8.is_unicast());
        assert_ne!(m8.is_locally_administered(), m8.is_universal());
        assert_eq!(m8.is_locally_administered(), first & 2 == 2);
    }
}

#[test]
fn eui48_round_trip_and_rejection() {
    let m = MacAddr::new(0x02, 0x00, 0x5e, 0x10, 0x20, 0x30);
    let e = MacAddr8::from_eui48(m);
    assert_eq!(e.octets(), [0x02, 0x00, 0x5e, 0xff, 0xfe, 0x10, 0x20, 0x30]);
    assert_eq!(e.to_eui48(), Some(m));
    assert_eq!(MacAddr8::new(1, 2, 3, 0xff, 0xff, 4, 5, 6).to_eui48(), None);
    assert_eq!(MacAddr8::new(1, 2, 3, 0xfe, 0xfe, 4, 5, 6).to_eui48(), None);
    let pattern = MacAddr8::new(9, 8, 7, 0xff, 0xfe, 6, 5, 4);
    assert_eq!(pattern.to_eui48(), Some(MacAddr::new(9, 8, 7, 6, 5, 4)));
}

#[test]
fn strict_parse_precedence_and_fields() {
    assert_eq!(
        MacAddr::parse("00:GG:22:33:44:55:66"),
        Err(ParseMacAddrError::InvalidComponent)
    );
    assert_eq!(
        MacAddr::parse("00:11:22:33:44:55:"),
        Err(ParseMacAddrError::TooManyComponents)
    );
    assert_eq!(MacAddr::parse("00:11:22:33:44:GG:66"), Err(ParseMacAddrError::InvalidComponent));
    assert_eq!(MacAddr::parse(""), Err(ParseMacAddrError::InvalidComponent));
    assert_eq!(MacAddr::parse("00::22:33:44:55"), Err(ParseMacAddrError::InvalidComponent));
    assert_eq!(MacAddr::parse("100:11:22:33:44:55"), Err(ParseMacAddrError::InvalidComponent));
    assert_eq!(MacAddr::parse(" 00:11:22:33:44:55"), Err(ParseMacAddrError::InvalidComponent));
    assert_eq!(MacAddr::parse("00:11:22:33:44:5é"), Err(ParseMacAddrError::InvalidComponent));
    assert_eq!(MacAddr::parse("1:2:3:a:B:0ff"), Ok(MacAddr::new(1, 2, 3, 0xa, 0xb, 0xff)));
    assert_eq!(MacAddr::parse("+1:2:3:4:5:6"), Ok(MacAddr::new(1, 2, 3, 4, 5, 6)));
    assert_eq!(MacAddr::parse("+:2:3:4:5:6"), Err(ParseMacAddrError::InvalidComponent));
    assert_eq!(MacAddr::parse("-1:2:3:4:5:6"), Err(ParseMacAddrError::InvalidComponent));
    assert_eq!(MacAddr8::parse("00:11:22:33:44:55"), Err(ParseMacAddrError::TooFewComponents));
}

#[test]
fn legacy_parse_tolerance() {
    assert_eq!(MacAddr::from_hex_format("00:11").octets(), [0; 6]);
    assert_eq!(MacAddr::from_hex_format("").octets(), [0; 6]);
    assert_eq!(
        MacAddr::from_hex_format("00:ZZ:22:33:44:55").octets(),
        [0x00, 0x00, 0x22, 0x33, 0x44, 0x55]
    );
    assert_eq!(
        MacAddr::from_hex_format("AA:BB:CC:DD:EE:FF").octets(),
        [0xaa, 0xbb, 0xcc, 0xdd, 0xee, 0xff]
    );
    assert_eq!(
        MacAddr::from_hex_format("0011:22:33:44:555").octets(),
        [0x11, 0x22, 0x33, 0x44, 0, 0]
    );
}

#[test]
fn binary_form_length() {
    let m = MacAddr::new(1, 2, 3, 4, 5, 6);
    assert_eq!(m.octets().len(), 6);
    let bytes = m.octets();
    assert_eq!(MacAddr::try_from(&bytes[..]), Ok(m));
    assert_eq!(MacAddr::try_from(&bytes[..5]), Err(()));
    assert_eq!(MacAddr::try_from(&[1u8, 2, 3, 4, 5, 6, 7][..]), Err(()));

    let m8 = MacAddr8::new(1, 2, 3, 4, 5, 6, 7, 8);
    assert_eq!(m8.octets().len(), 8);
    let bytes8 = m8.octets();
    assert_eq!(MacAddr8::try_from(&bytes8[..]), Ok(m8));
    assert_eq!(MacAddr8::try_from(&bytes8[..6]), Err(()));
}

#[test]
fn ordering_is_lexicographic() {
    assert!(MacAddr::new(0, 0xff, 0xff, 0xff, 0xff, 0xff) < MacAddr::new(1, 0, 0, 0, 0, 0));
    assert!(MacAddr::new(1, 2, 3, 4, 5, 6) < MacAddr::new(1, 2, 3, 4, 5, 7));
    assert!(MacAddr::new(1, 2, 3, 4, 5, 6) <= MacAddr::new(1, 2, 3, 4, 5, 6));
    assert_eq!(
        MacAddr::new(9, 0, 0, 0, 0, 0).partial_cmp(&MacAddr::new(8, 0xff, 0, 0, 0, 0)),
        Some(core::cmp::Ordering::Greater)
    );
    assert!(MacAddr8::new(0, 0, 0, 0, 0, 0, 0, 1) > MacAddr8::new(0, 0, 0, 0, 0, 0, 0, 0));
    assert_eq!(
        MacAddr8::new(3, 3, 3, 3, 3, 3, 3, 3).cmp(&MacAddr8::new(3, 3, 3, 3, 3, 3, 3, 3)),
        core::cmp::Ordering::Equal
    );
}

#[test]
fn defaults_are_zero() {
    assert_eq!(MacAddr::default(), MacAddr::zero());
    assert_eq!(MacAddr8::default().octets(), [0; 8]);
    assert_eq!(MacAddr8::broadcast().octets(), [0xff; 8]);
}

#[test]
fn error_messages() {
    assert_eq!(
        ParseMacAddrError::TooManyComponents.message(),
        "Too many components in a MAC address string"
    );
    assert_eq!(
        ParseMacAddrError::TooFewComponents.message(),
        "Too few components in a MAC address string"
    );
    assert_eq!(
        ParseMacAddrError::InvalidComponent.message(),
        "Invalid component in a MAC address string"
    );
}
