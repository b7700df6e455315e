use fnt4_tool::glyph::{GlyphData, GlyphInfo, LazyGlyph, RenderedGlyph};
use fnt4_tool::lz77::decompress;
use fnt4_tool::metadata::{CodeType, GlyphMetadata};
use fnt4_tool::fnt::Fnt;
use fnt4_tool::glyph::ProcessedGlyph;
use fnt4_tool::metadata::{FntMetadata, FntVersion};
use fnt4_tool::rebuild::{
    apply_letter_spacing, assemble_glyph, auto_font_size, auto_texture_padding, check_restore,
    fits_texture, restore_empty_glyphs, restore_glyph, target_char,
};
use std::collections::BTreeMap;

fn some_metadata() -> GlyphMetadata {
    GlyphMetadata { char_code: 0x41, code_type: CodeType::Unicode, bearing_x: 9, bearing_y: 9, advance: 9 }
}

fn some_info() -> GlyphInfo {
    GlyphInfo {
        bearing_x: -4,
        bearing_y: 20,
        advance: 30,
        actual_width: 10,
        actual_height: 12,
        texture_width: 16,
        texture_height: 16,
        char_code: 0x41,
    }
}

fn rendered(w: u8, h: u8) -> RenderedGlyph {
    let mut pixels = Vec::new();
    for i in 0..(w as usize * h as usize) {
        pixels.push(1 + (i % 200) as u8);
    }
    RenderedGlyph { bearing_x: 2, bearing_y: 15, advance: 18, actual_width: w, actual_height: h, raw_pixels: pixels }
}

#[test]
fn font_size_is_the_line_height() {
    assert_eq!(auto_font_size(28, 6), 34);
    assert_eq!(auto_font_size(0, 0), 0);
    assert_eq!(auto_font_size(10, 0xFFFE), 8);
    assert_eq!(auto_font_size(0xFFF0, 4), 12);
    assert_eq!(auto_font_size(0x8000, 0), 0x8000);
    assert_eq!(auto_font_size(0x7FFF, 0), 0x7FFF);
}

#[test]
fn padding_follows_the_mip_levels() {
    assert_eq!(auto_texture_padding(0), 4);
    assert_eq!(auto_texture_padding(1), 4);
    assert_eq!(auto_texture_padding(3), 4);
    assert_eq!(auto_texture_padding(4), 8);
    assert_eq!(auto_texture_padding(5), 16);
    assert_eq!(auto_texture_padding(8), 128);
}

#[test]
fn letter_spacing_moves_the_advance_within_a_byte() {
    assert_eq!(apply_letter_spacing(10, 3), 13);
    assert_eq!(apply_letter_spacing(10, -3), 7);
    assert_eq!(apply_letter_spacing(2, -3), 0);
    assert_eq!(apply_letter_spacing(250, 10), 255);
    assert_eq!(apply_letter_spacing(255, 0), 255);
    assert_eq!(apply_letter_spacing(0, -128), 0);
}

#[test]
fn target_character_is_replaced_or_decoded() {
    let mut replace = BTreeMap::new();
    replace.insert(0x41u32, 'Z');
    assert_eq!(target_char(0x41, CodeType::Unicode, &replace), Some('Z'));
    assert_eq!(target_char(0x41, CodeType::Sjis, &replace), Some('Z'));
    assert_eq!(target_char(0x42, CodeType::Unicode, &replace), Some('B'));
    assert_eq!(target_char(0x3042, CodeType::Unicode, &replace), Some('\u{3042}'));
    assert_eq!(target_char(0xD800, CodeType::Unicode, &replace), None);
    assert_eq!(target_char(0x110000, CodeType::Unicode, &replace), None);
    assert_eq!(target_char(0x10FFFF, CodeType::Unicode, &replace), Some('\u{10FFFF}'));
    assert_eq!(target_char(0x82A0, CodeType::Sjis, &replace), Some('\u{3042}'));
    assert_eq!(target_char(0xFF, CodeType::Sjis, &replace), Some('\0'));
}

#[test]
fn sides_must_stay_within_128() {
    assert!(fits_texture(10, 12, 4, 4));
    assert!(fits_texture(112, 112, 8, 4));
    assert!(!fits_texture(113, 10, 8, 4));
    assert!(!fits_texture(10, 129, 0, 1));
    assert!(fits_texture(128, 128, 0, 7));
    assert!(!fits_texture(1, 1, 0, 8));
    assert!(fits_texture(125, 1, 0, 2));
    assert!(!fits_texture(255, 255, 255, 2));
}

#[test]
fn nothing_rendered_keeps_the_metrics_it_had() {
    let glyph = assemble_glyph(&some_metadata(), &some_info(), None, 4, 8, 2);
    assert_eq!((glyph.actual_width, glyph.actual_height), (0, 0));
    assert_eq!((glyph.texture_width, glyph.texture_height), (0, 0));
    assert!(glyph.data.is_empty());
    assert_eq!(glyph.compressed_size, 0);
    assert_eq!(glyph.glyph_info.char_code, 0x41);
    assert_eq!(glyph.glyph_info.code_type, CodeType::Unicode);
    assert_eq!((glyph.glyph_info.bearing_x, glyph.glyph_info.bearing_y), (-4, 20));
    assert_eq!(glyph.glyph_info.advance, 32);
}

#[test]
fn empty_rendering_keeps_its_own_metrics() {
    let glyph = assemble_glyph(&some_metadata(), &some_info(), Some(rendered(0, 5)), 4, 8, -1);
    assert_eq!((glyph.actual_width, glyph.actual_height), (0, 0));
    assert!(glyph.data.is_empty());
    assert_eq!((glyph.glyph_info.bearing_x, glyph.glyph_info.bearing_y), (2, 15));
    assert_eq!(glyph.glyph_info.advance, 17);
}

#[test]
fn rendering_is_padded_and_aligned() {
    let glyph = assemble_glyph(&some_metadata(), &some_info(), Some(rendered(3, 2)), 1, 1, 0);
    // 3 + 2 and 2 + 2, each rounded up to a multiple of four
    assert_eq!((glyph.actual_width, glyph.actual_height), (8, 4));
    assert_eq!((glyph.texture_width, glyph.texture_height), (8, 4));
    assert_eq!((glyph.glyph_info.bearing_x, glyph.glyph_info.bearing_y), (1, 16));
    assert_eq!(glyph.glyph_info.advance, 18);
    let raw = if glyph.compressed_size == 0 {
        glyph.data.clone()
    } else {
        assert_eq!(glyph.compressed_size as usize, glyph.data.len());
        decompress(&glyph.data, 10, 2)
    };
    let mut expected = vec![0u8; 32];
    expected[9] = 1;
    expected[10] = 2;
    expected[11] = 3;
    expected[17] = 4;
    expected[18] = 5;
    expected[19] = 6;
    assert_eq!(raw, expected);
}

#[test]
fn rendering_without_padding_is_only_aligned() {
    let glyph = assemble_glyph(&some_metadata(), &some_info(), Some(rendered(5, 4)), 3, 0, 0);
    // aligned to multiples of eight for three mip levels
    assert_eq!((glyph.actual_width, glyph.actual_height), (8, 8));
    assert_eq!((glyph.glyph_info.bearing_x, glyph.glyph_info.bearing_y), (2, 15));
    let raw = if glyph.compressed_size == 0 { glyph.data.clone() } else { decompress(&glyph.data, 10, 2) };
    assert_eq!(raw.len(), 64 + 16 + 4);
    assert_eq!(&raw[..8], &[1, 2, 3, 4, 5, 0, 0, 0]);
    assert_eq!(&raw[8..16], &[6, 7, 8, 9, 10, 0, 0, 0]);
    assert_eq!(&raw[32..40], &[0; 8]);
}

#[test]
fn bearings_move_out_by_the_padding_and_saturate() {
    let mut r = rendered(4, 4);
    r.bearing_x = -126;
    r.bearing_y = 125;
    let glyph = assemble_glyph(&some_metadata(), &some_info(), Some(r), 2, 4, 0);
    assert_eq!((glyph.glyph_info.bearing_x, glyph.glyph_info.bearing_y), (-128, 127));
    assert_eq!((glyph.actual_width, glyph.actual_height), (12, 12));
    assert_eq!((glyph.texture_width, glyph.texture_height), (16, 16));
}

#[test]
fn stored_glyph_is_restored_as_it_is() {
    let first = LazyGlyph {
        info: some_info(),
        texture_size: (16, 16),
        glyph_data: GlyphData { data: vec![2, 0, 240, 0], is_compressed: true },
    };
    let glyph = restore_glyph(&first, &some_metadata());
    assert_eq!(glyph.glyph_info, some_metadata());
    assert_eq!((glyph.actual_width, glyph.actual_height), (10, 12));
    assert_eq!((glyph.texture_width, glyph.texture_height), (16, 16));
    assert_eq!(glyph.data, vec![2, 0, 240, 0]);
    assert_eq!(glyph.compressed_size, 4);
    let raw = LazyGlyph {
        info: some_info(),
        texture_size: (16, 16),
        glyph_data: GlyphData { data: vec![7; 340], is_compressed: false },
    };
    let kept = restore_glyph(&raw, &some_metadata());
    assert_eq!(kept.compressed_size, 0);
    assert_eq!(kept.data.len(), 340);
}

fn stored(width: u8, fill: u8) -> ProcessedGlyph {
    ProcessedGlyph {
        glyph_info: GlyphMetadata {
            char_code: fill as u32,
            code_type: CodeType::Unicode,
            bearing_x: 1,
            bearing_y: 2,
            advance: 3,
        },
        actual_width: width,
        actual_height: width,
        texture_width: width,
        texture_height: width,
        data: vec![fill; width as usize * width as usize],
        compressed_size: 0,
    }
}

fn font_of_three() -> Fnt {
    let mut glyphs = BTreeMap::new();
    let mut described = BTreeMap::new();
    for id in [1u32, 2, 5] {
        let glyph = stored(2, 10 + id as u8);
        described.insert(id, glyph.glyph_info);
        glyphs.insert(id, glyph);
    }
    let metadata = FntMetadata {
        version: FntVersion::V1,
        mipmap_level: 1,
        ascent: 10,
        descent: 2,
        characters: BTreeMap::new(),
        glyphs: described,
    };
    Fnt::from_processed_glyphs(metadata, glyphs)
}

#[test]
fn empty_glyphs_are_restored_from_the_font() {
    let fnt = font_of_three();
    let mut fresh = BTreeMap::new();
    fresh.insert(1u32, stored(4, 77));
    fresh.insert(2u32, stored(0, 78));
    fresh.insert(5u32, stored(0, 79));
    fresh.insert(9u32, stored(0, 80));
    assert!(check_restore(&fresh, &fnt));
    let restored = restore_empty_glyphs(&mut fresh, &fnt);
    assert_eq!(restored, vec![2, 5]);
    assert_eq!(fresh.len(), 4);
    assert_eq!(fresh[&1].data, vec![77; 16]);
    assert_eq!(fresh[&2].data, vec![12; 4]);
    assert_eq!((fresh[&2].actual_width, fresh[&2].texture_width), (2, 2));
    assert_eq!(fresh[&2].glyph_info.char_code, 12);
    assert_eq!(fresh[&5].data, vec![15; 4]);
    assert_eq!(fresh[&9].actual_width, 0);
    assert!(fresh[&9].data.is_empty());
}

#[test]
fn restoring_needs_metadata_and_a_payload_that_fits() {
    let mut fnt = font_of_three();
    let mut fresh = BTreeMap::new();
    fresh.insert(2u32, stored(0, 78));
    assert!(check_restore(&fresh, &fnt));
    fnt.metadata.glyphs.remove(&2);
    assert!(!check_restore(&fresh, &fnt));
    let mut long = font_of_three();
    let glyph = long.lazy_glyphs.get_mut(&2).unwrap();
    glyph.glyph_data.data = vec![0; 0x10000];
    assert!(check_restore(&fresh, &long));
    let glyph = long.lazy_glyphs.get_mut(&2).unwrap();
    glyph.glyph_data.is_compressed = true;
    assert!(!check_restore(&fresh, &long));
    fresh.insert(2u32, stored(3, 78));
    assert!(check_restore(&fresh, &long));
}
