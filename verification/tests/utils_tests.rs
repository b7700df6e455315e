use fnt4_tool::utils::{decode_sjis_u32, first_char_unless_malformed, generate_sjis_map};

#[test]
fn sjis_map_has_the_four_ranges() {
    let map = generate_sjis_map();
    assert_eq!(map.len(), 96 + 64 + 31 * 188 + 15 * 188);
    assert_eq!(map[0], 0x20);
    assert_eq!(map[95], 0x7F);
    assert_eq!(map[96], 0xA0);
    assert_eq!(map[159], 0xDF);
    assert_eq!(map[160], 0x8140);
    assert_eq!(map[160 + 62], 0x817E);
    assert_eq!(map[160 + 63], 0x8180);
    assert_eq!(map[160 + 187], 0x81FC);
    assert_eq!(map[160 + 188], 0x8240);
    assert_eq!(map[160 + 31 * 188 - 1], 0x9FFC);
    assert_eq!(map[160 + 31 * 188], 0xE040);
    assert_eq!(map[map.len() - 1], 0xEEFC);
}

#[test]
fn sjis_map_skips_the_trail_byte_7f() {
    let map = generate_sjis_map();
    assert!(map[160..].iter().all(|code| code & 0xFF != 0x7F));
    assert!(map.windows(2).all(|pair| pair[0] < pair[1] || pair[0] == 0xDF || pair[0] == 0x7F));
}

#[test]
fn sjis_codes_decode_to_characters() {
    assert_eq!(decode_sjis_u32(0x41), Some('A'));
    assert_eq!(decode_sjis_u32(0x20), Some(' '));
    assert_eq!(decode_sjis_u32(0xB1), Some('\u{FF71}'));
    assert_eq!(decode_sjis_u32(0x82A0), Some('\u{3042}'));
    assert_eq!(decode_sjis_u32(0x8140), Some('\u{3000}'));
    assert_eq!(decode_sjis_u32(0x88EA), Some('\u{4E00}'));
}

#[test]
fn malformed_sjis_codes_decode_to_nothing() {
    assert_eq!(decode_sjis_u32(0xFF), None);
    assert_eq!(decode_sjis_u32(0x81), None);
    assert_eq!(decode_sjis_u32(0x8120), None);
    assert_eq!(decode_sjis_u32(0xA0), None);
}

#[test]
fn sjis_codes_above_two_bytes_use_the_low_two() {
    assert_eq!(decode_sjis_u32(0x0001_82A0), Some('\u{3042}'));
}

#[test]
fn first_character_of_decoded_text() {
    assert_eq!(first_char_unless_malformed(&vec!['x', 'y'], false), Some('x'));
    assert_eq!(first_char_unless_malformed(&vec!['x', 'y'], true), None);
    assert_eq!(first_char_unless_malformed(&vec![], false), None);
}
