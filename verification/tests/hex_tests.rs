use fnt4_tool::hex::{format_hex, parse_hex};

#[test]
fn codes_are_written_with_four_digits_at_least() {
    assert_eq!(format_hex(0), b"0000".to_vec());
    assert_eq!(format_hex(0x41), b"0041".to_vec());
    assert_eq!(format_hex(0xABC), b"0ABC".to_vec());
    assert_eq!(format_hex(0x82A0), b"82A0".to_vec());
    assert_eq!(format_hex(0x10FFFF), b"10FFFF".to_vec());
    assert_eq!(format_hex(u32::MAX), b"FFFFFFFF".to_vec());
    assert_eq!(format_hex(0x12345), b"12345".to_vec());
}

#[test]
fn codes_are_read_with_or_without_prefix() {
    assert_eq!(parse_hex(b"0041"), Some(0x41));
    assert_eq!(parse_hex(b"0x0041"), Some(0x41));
    assert_eq!(parse_hex(b"82a0"), Some(0x82A0));
    assert_eq!(parse_hex(b"0x82A0"), Some(0x82A0));
    assert_eq!(parse_hex(b"+1f"), Some(0x1F));
    assert_eq!(parse_hex(b"0x+1f"), Some(0x1F));
    assert_eq!(parse_hex(b"FFFFFFFF"), Some(u32::MAX));
    assert_eq!(parse_hex(b"0000000000000001"), Some(1));
    assert_eq!(parse_hex(b"0"), Some(0));
}

#[test]
fn malformed_codes_are_not_read() {
    assert_eq!(parse_hex(b""), None);
    assert_eq!(parse_hex(b"0x"), None);
    assert_eq!(parse_hex(b"+"), None);
    assert_eq!(parse_hex(b"-1"), None);
    assert_eq!(parse_hex(b"12G4"), None);
    assert_eq!(parse_hex(b" 12"), None);
    assert_eq!(parse_hex(b"12 "), None);
    assert_eq!(parse_hex(b"100000000"), None);
    assert_eq!(parse_hex(b"0X41"), None);
    assert_eq!(parse_hex(b"++1"), None);
    assert_eq!(parse_hex(b"0x0x1"), None);
}

#[test]
fn written_codes_read_back() {
    for value in [0u32, 1, 9, 10, 15, 16, 0xFF, 0x100, 0xFFFF, 0x10000, 0x82A0, 0x10FFFF, u32::MAX] {
        assert_eq!(parse_hex(&format_hex(value)), Some(value));
        let by_std = format!("{:04X}", value);
        assert_eq!(format_hex(value), by_std.as_bytes().to_vec());
    }
}
