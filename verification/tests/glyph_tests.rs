use fnt4_tool::error::FntError;
use fnt4_tool::glyph::{
    count_levels, Glyph, GlyphData, GlyphHeader, GlyphInfo, LazyGlyph,
};
use fnt4_tool::metadata::{detect_mipmap_level, FntVersion};
use std::collections::BTreeMap;

fn sample_header() -> GlyphHeader {
    GlyphHeader {
        bearing_x: -3,
        bearing_y: 17,
        actual_width: 5,
        actual_height: 6,
        advance: 9,
        unused: 0,
        texture_width: 8,
        texture_height: 8,
        compressed_size: 0x1234,
    }
}

fn plain_glyph(tw: u8, th: u8, data: Vec<u8>, compressed: bool) -> LazyGlyph {
    LazyGlyph {
        info: GlyphInfo {
            bearing_x: 1,
            bearing_y: 2,
            advance: 3,
            actual_width: tw,
            actual_height: th,
            texture_width: tw,
            texture_height: th,
            char_code: 0x41,
        },
        texture_size: (tw, th),
        glyph_data: GlyphData { data, is_compressed: compressed },
    }
}

#[test]
fn version_numbers() {
    assert_eq!(FntVersion::from_u32(0), Some(FntVersion::V0));
    assert_eq!(FntVersion::from_u32(1), Some(FntVersion::V1));
    assert_eq!(FntVersion::from_u32(2), None);
    assert_eq!(FntVersion::from_u32(u32::MAX), None);
}

#[test]
fn glyph_header_bytes_textured() {
    let bytes = sample_header().to_bytes_v1();
    assert_eq!(bytes, vec![0xFD, 17, 5, 6, 9, 0, 8, 8, 0x34, 0x12]);
    assert_eq!(GlyphHeader::parse(&bytes, 0, FntVersion::V1), Ok(sample_header()));
}

#[test]
fn glyph_header_sizes() {
    let h = sample_header();
    assert_eq!(h.size(FntVersion::V0), 8);
    assert_eq!(h.size(FntVersion::V1), 10);
}

#[test]
fn glyph_header_parse_at_offset() {
    let mut data = vec![0xEE, 0xEE, 0xEE];
    data.extend_from_slice(&sample_header().to_bytes_v1());
    assert_eq!(GlyphHeader::parse(&data, 3, FntVersion::V1), Ok(sample_header()));
}

#[test]
fn glyph_header_parse_legacy() {
    let data = [0x80, 0x7F, 4, 5, 6, 7, 0x02, 0x01];
    let h = GlyphHeader::parse(&data, 0, FntVersion::V0).unwrap();
    assert_eq!(h.bearing_x, -128);
    assert_eq!(h.bearing_y, 127);
    assert_eq!((h.actual_width, h.actual_height, h.advance, h.unused), (4, 5, 6, 7));
    assert_eq!((h.texture_width, h.texture_height), (0, 0));
    assert_eq!(h.compressed_size, 0x0102);
}

#[test]
fn glyph_header_truncated() {
    let bytes = sample_header().to_bytes_v1();
    assert_eq!(GlyphHeader::parse(&bytes[..9], 0, FntVersion::V1), Err(FntError::TruncatedRecord));
    assert_eq!(GlyphHeader::parse(&bytes, 1, FntVersion::V1), Err(FntError::TruncatedRecord));
    assert_eq!(GlyphHeader::parse(&bytes[..7], 0, FntVersion::V0), Err(FntError::TruncatedRecord));
    assert_eq!(GlyphHeader::parse(&bytes, usize::MAX, FntVersion::V0), Err(FntError::TruncatedRecord));
    assert!(GlyphHeader::parse(&bytes, 2, FntVersion::V0).is_ok());
}

#[test]
fn glyph_info_from_header() {
    let h = sample_header();
    let textured = GlyphInfo::from_header(&h, 0x3042, FntVersion::V1);
    assert_eq!(textured.texture_size(), (8, 8));
    assert_eq!(textured.actual_size(), (5, 6));
    assert_eq!((textured.bearing_x, textured.bearing_y, textured.advance), (-3, 17, 9));
    assert_eq!(textured.char_code, 0x3042);
    let legacy = GlyphInfo::from_header(&h, 0x82A0, FntVersion::V0);
    assert_eq!(legacy.texture_size(), (5, 6));
    assert_eq!(legacy.actual_size(), (5, 6));
}

#[test]
fn lazy_glyph_raw_textured() {
    // 2 by 2: levels of 4 and 1 byte
    let mut data = vec![0xAA; 4];
    data.extend_from_slice(&[1, 2, 2, 2, 7, 0, 2, 2, 0, 0]);
    data.extend_from_slice(&[10, 20, 30, 40, 25, 99]);
    let g = LazyGlyph::from_data(&data, 4, 0x41, FntVersion::V1).unwrap();
    assert_eq!(g.glyph_data.data, vec![10, 20, 30, 40, 25]);
    assert!(!g.glyph_data.is_compressed);
    assert_eq!(g.texture_size, (2, 2));
    assert_eq!(g.info.char_code, 0x41);
    assert_eq!(g.info.advance, 7);
}

#[test]
fn lazy_glyph_raw_size_counts_four_levels() {
    // 16 by 8: 128 + 32 + 8 + 2
    let mut data = vec![0, 0, 16, 8, 0, 0, 16, 8, 0, 0];
    data.extend_from_slice(&vec![3u8; 170]);
    let g = LazyGlyph::from_data(&data, 0, 0, FntVersion::V1).unwrap();
    assert_eq!(g.glyph_data.data.len(), 170);
    assert_eq!(LazyGlyph::from_data(&data[..179], 0, 0, FntVersion::V1).err(), Some(FntError::TruncatedRecord));
    // 64 by 2: the levels below the second have an empty side
    let mut thin = vec![0, 0, 64, 2, 0, 0, 64, 2, 0, 0];
    thin.extend_from_slice(&vec![3u8; 200]);
    let t = LazyGlyph::from_data(&thin, 0, 0, FntVersion::V1).unwrap();
    assert_eq!(t.glyph_data.data.len(), 128 + 32);
}

#[test]
fn lazy_glyph_compressed() {
    let mut data = vec![0, 0, 8, 8, 0, 0, 8, 8, 4, 0];
    data.extend_from_slice(&[2, 0, 240, 0, 77]);
    let g = LazyGlyph::from_data(&data, 0, 5, FntVersion::V1).unwrap();
    assert!(g.glyph_data.is_compressed);
    assert_eq!(g.glyph_data.data, vec![2, 0, 240, 0]);
    assert_eq!(g.glyph_data.decompress(10, 2), vec![0u8; 64]);
    assert_eq!(LazyGlyph::from_data(&data[..13], 0, 5, FntVersion::V1).err(), Some(FntError::TruncatedRecord));
}

#[test]
fn lazy_glyph_legacy_size() {
    // 5 by 3 at four bits: rows of 3 bytes
    let mut data = vec![0, 0, 5, 3, 0, 0, 0, 0];
    data.extend_from_slice(&[1, 2, 3, 4, 5, 6, 7, 8, 9, 10]);
    let g = LazyGlyph::from_data(&data, 0, 0x82A0, FntVersion::V0).unwrap();
    assert_eq!(g.glyph_data.data, vec![1, 2, 3, 4, 5, 6, 7, 8, 9]);
    assert_eq!(g.texture_size, (5, 3));
    assert_eq!(LazyGlyph::from_data(&data[..16], 0, 0, FntVersion::V0).err(), Some(FntError::TruncatedRecord));
}

#[test]
fn lazy_glyph_clone_keeps_everything() {
    let g = plain_glyph(2, 2, vec![1, 2, 3, 4, 5], false);
    let c = g.clone();
    assert_eq!(c.glyph_data.data, g.glyph_data.data);
    assert_eq!(c.info, g.info);
    assert_eq!(c.texture_size, g.texture_size);
    assert_eq!(c.glyph_data.is_compressed, g.glyph_data.is_compressed);
}

#[test]
fn glyph_data_raw_passes_through() {
    let d = GlyphData { data: vec![2, 0, 240, 0], is_compressed: false };
    assert_eq!(d.decompress(10, 2), vec![2, 0, 240, 0]);
    let c = GlyphData { data: vec![2, 0, 240, 0], is_compressed: true };
    assert_eq!(c.decompress(10, 2), vec![0u8; 64]);
}

#[test]
fn four_bit_pixels_expand_to_the_high_end() {
    let g = plain_glyph(2, 1, vec![0xAB], false);
    let glyph = Glyph::from_lazy_glyph(&g, FntVersion::V0);
    assert_eq!(glyph.mipmap.len(), 1);
    assert_eq!(glyph.mipmap[&0], vec![0xA0, 0xB0]);
}

#[test]
fn legacy_rows_start_on_byte_boundaries() {
    let g = plain_glyph(3, 2, vec![0x12, 0x3F, 0x45, 0x60], false);
    let glyph = Glyph::from_lazy_glyph(&g, FntVersion::V0);
    assert_eq!(glyph.mipmap[&0], vec![0x10, 0x20, 0x30, 0x40, 0x50, 0x60]);
    assert_eq!((glyph.width, glyph.height), (3, 2));
    assert_eq!(glyph.info, g.info);
}

#[test]
fn legacy_short_payload_gives_fewer_pixels() {
    let g = plain_glyph(4, 2, vec![0x12, 0x34, 0x56], false);
    let glyph = Glyph::from_lazy_glyph(&g, FntVersion::V0);
    assert_eq!(glyph.mipmap[&0], vec![0x10, 0x20, 0x30, 0x40, 0x50, 0x60]);
}

#[test]
fn legacy_payload_is_decompressed_with_the_legacy_profile() {
    // literal 0xAB, then a reference of length 3 at offset 1
    let g = plain_glyph(4, 2, vec![2, 0xAB, 0x01], true);
    let glyph = Glyph::from_lazy_glyph(&g, FntVersion::V0);
    assert_eq!(glyph.mipmap[&0], vec![0xA0, 0xB0, 0xA0, 0xB0, 0xA0, 0xB0, 0xA0, 0xB0]);
}

#[test]
fn textured_levels_are_cut_in_order() {
    let data: Vec<u8> = (0..21).collect();
    let g = plain_glyph(4, 4, data, false);
    let glyph = Glyph::from_lazy_glyph(&g, FntVersion::V1);
    assert_eq!(glyph.mipmap.len(), 3);
    assert_eq!(glyph.mipmap[&0], (0..16).collect::<Vec<u8>>());
    assert_eq!(glyph.mipmap[&1], vec![16, 17, 18, 19]);
    assert_eq!(glyph.mipmap[&2], vec![20]);
}

#[test]
fn textured_short_payload_gives_fewer_levels() {
    let data: Vec<u8> = (0..19).collect();
    let g = plain_glyph(4, 4, data, false);
    let glyph = Glyph::from_lazy_glyph(&g, FntVersion::V1);
    assert_eq!(glyph.mipmap.len(), 1);
    assert_eq!(glyph.mipmap[&0].len(), 16);
    let none = Glyph::from_lazy_glyph(&plain_glyph(4, 4, vec![1; 15], false), FntVersion::V1);
    assert!(none.mipmap.is_empty());
    let empty = Glyph::from_lazy_glyph(&plain_glyph(0, 0, vec![], false), FntVersion::V1);
    assert!(empty.mipmap.is_empty());
}

#[test]
fn count_levels_by_length() {
    assert_eq!(count_levels(2048 + 512 + 128 + 32, 64, 32), 4);
    assert_eq!(count_levels(2048 + 512 + 128 + 31, 64, 32), 3);
    assert_eq!(count_levels(2048, 64, 32), 1);
    assert_eq!(count_levels(2047, 64, 32), 0);
    assert_eq!(count_levels(1000, 0, 32), 0);
    assert_eq!(count_levels(5, 2, 2), 2);
    assert_eq!(count_levels(500, 2, 2), 2);
}

#[test]
fn mipmap_level_is_the_most_among_the_first_ten() {
    let mut glyphs: BTreeMap<u32, LazyGlyph> = BTreeMap::new();
    assert_eq!(detect_mipmap_level(&glyphs), 1);
    glyphs.insert(3, plain_glyph(0, 0, vec![], false));
    assert_eq!(detect_mipmap_level(&glyphs), 1);
    glyphs.insert(5, plain_glyph(4, 4, vec![0; 20], false));
    assert_eq!(detect_mipmap_level(&glyphs), 2);
    glyphs.insert(7, plain_glyph(8, 8, vec![2, 0, 240, 0], true));
    assert_eq!(detect_mipmap_level(&glyphs), 2);
    for id in 10..17 {
        glyphs.insert(id, plain_glyph(0, 0, vec![], false));
    }
    // the eleventh glyph is not looked at
    glyphs.insert(100, plain_glyph(8, 8, vec![0; 85], false));
    assert_eq!(detect_mipmap_level(&glyphs), 2);
    glyphs.remove(&16);
    assert_eq!(detect_mipmap_level(&glyphs), 4);
}
