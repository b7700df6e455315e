use fnt4_tool::error::FntError;
use fnt4_tool::fnt::{Fnt, FntHeader};
use fnt4_tool::glyph::{encode_glyph_texture, Glyph, ProcessedGlyph};
use fnt4_tool::metadata::{CodeType, FntMetadata, FntVersion, GlyphMetadata};
use std::collections::BTreeMap;

fn textured_header(file_size: u32, ascent: u16, descent: u16) -> Vec<u8> {
    let mut out = b"FNT4".to_vec();
    out.extend_from_slice(&1u32.to_le_bytes());
    out.extend_from_slice(&file_size.to_le_bytes());
    out.extend_from_slice(&ascent.to_le_bytes());
    out.extend_from_slice(&descent.to_le_bytes());
    out
}

fn raw_record(bearing_x: i8, advance: u8, fill: u8) -> Vec<u8> {
    // a texture of 2 by 2 stored raw: levels of 4 and 1 byte
    let mut out = vec![bearing_x as u8, 4, 2, 2, advance, 0, 2, 2, 0, 0];
    out.extend_from_slice(&[fill; 5]);
    out
}

/// Ten slots and two records: slots 0, 5 and 9 show the first record, the
/// other slots the second.
fn shared_offsets_sample() -> Vec<u8> {
    let first: u32 = 16 + 40;
    let second: u32 = first + 15;
    let mut out = textured_header(second + 15, 30, 8);
    for slot in 0..10 {
        let offset = if slot == 0 || slot == 5 || slot == 9 { first } else { second };
        out.extend_from_slice(&offset.to_le_bytes());
    }
    out.extend_from_slice(&raw_record(-1, 11, 0x10));
    out.extend_from_slice(&raw_record(2, 12, 0x20));
    out
}

fn striped_bitmap(w: u8, h: u8, seed: u8) -> Vec<u8> {
    let mut out = Vec::new();
    for y in 0..h {
        for x in 0..w {
            out.push(if (x / 2 + y / 2) % 2 == 0 { seed } else { 0 });
        }
    }
    out
}

fn processed(id: u32, w: u8, h: u8, levels: usize) -> ProcessedGlyph {
    let bitmap = striped_bitmap(w, h, 40 + id as u8);
    let texture = encode_glyph_texture(&bitmap, w, h, levels);
    ProcessedGlyph {
        glyph_info: GlyphMetadata {
            char_code: id,
            code_type: CodeType::Unicode,
            bearing_x: id as i8 - 2,
            bearing_y: 10 + id as i8,
            advance: 20 + id as u8,
        },
        actual_width: w,
        actual_height: h,
        texture_width: texture.texture_width,
        texture_height: texture.texture_height,
        data: texture.data,
        compressed_size: texture.compressed_size,
    }
}

fn sample_font(levels: usize) -> Fnt {
    let sizes: [(u8, u8); 4] = [(8, 8), (13, 7), (16, 16), (5, 12)];
    let mut glyphs = BTreeMap::new();
    let mut described = BTreeMap::new();
    let mut characters = BTreeMap::new();
    for (id, (w, h)) in sizes.iter().enumerate() {
        let glyph = processed(id as u32, *w, *h, levels);
        described.insert(id as u32, glyph.glyph_info);
        characters.insert(id as u32, id as u32);
        glyphs.insert(id as u32, glyph);
    }
    characters.insert(0x3042, 2);
    let metadata = FntMetadata {
        version: FntVersion::V1,
        mipmap_level: levels,
        ascent: 28,
        descent: 6,
        characters,
        glyphs: described,
    };
    Fnt::from_processed_glyphs(metadata, glyphs)
}

#[test]
fn header_of_the_textured_revision() {
    let bytes = textured_header(0x0102_0304, 30, 8);
    let header = FntHeader::parse(&bytes).unwrap();
    assert_eq!(&header.magic, b"FNT4");
    assert_eq!(header.version, FntVersion::V1);
    assert_eq!(header.file_size, 0x0102_0304);
    assert_eq!((header.ascent, header.descent), (30, 8));
    assert_eq!(header.size(), 16);
    assert_eq!(header.to_bytes(), bytes);
}

#[test]
fn header_of_the_legacy_revision() {
    let bytes = [b'F', b'N', b'T', b'4', 0x40, 0x01, 0, 0, 24, 0, 5, 0, 0, 0, 0, 0];
    let header = FntHeader::parse(&bytes).unwrap();
    assert_eq!(header.version, FntVersion::V0);
    assert_eq!(header.file_size, 0x140);
    assert_eq!((header.ascent, header.descent), (24, 5));
    assert_eq!(header.to_bytes(), bytes.to_vec());
    assert_eq!(header.size(), 16);
}

#[test]
fn header_without_the_tag_is_invalid() {
    assert_eq!(FntHeader::parse(b"FNT4").err(), Some(FntError::InvalidHeader));
    assert_eq!(FntHeader::parse(&[]).err(), Some(FntError::InvalidHeader));
    let mut bytes = textured_header(16, 1, 1);
    bytes[3] = b'5';
    assert_eq!(FntHeader::parse(&bytes).err(), Some(FntError::InvalidHeader));
    assert_eq!(FntHeader::parse(&textured_header(16, 1, 1)[..15]).err(), Some(FntError::InvalidHeader));
}

#[test]
fn header_of_neither_layout_is_unknown() {
    let bytes = [b'F', b'N', b'T', b'4', 2, 0, 0, 0, 16, 0, 0, 0, 1, 0, 0, 0];
    assert_eq!(FntHeader::parse(&bytes).err(), Some(FntError::UnknownVersion));
    assert_eq!(Fnt::from_data(&bytes).err(), Some(FntError::UnknownVersion));
}

#[test]
fn shared_offsets_share_a_glyph() {
    let fnt = Fnt::from_data(&shared_offsets_sample()).unwrap();
    assert_eq!(fnt.lazy_glyphs.len(), 2);
    assert_eq!(fnt.metadata.glyphs.len(), 2);
    assert_eq!(fnt.metadata.characters.len(), 10);
    assert_eq!(fnt.metadata.characters[&0], 0);
    assert_eq!(fnt.metadata.characters[&5], 0);
    assert_eq!(fnt.metadata.characters[&9], 0);
    assert_eq!(fnt.metadata.characters[&1], 1);
    assert_eq!(fnt.metadata.characters[&8], 1);
    assert_eq!(fnt.glyph_offsets, vec![56, 71, 71, 71, 71, 56, 71, 71, 71, 56]);
    assert_eq!(fnt.lazy_glyphs[&0].glyph_data.data, vec![0x10; 5]);
    assert_eq!(fnt.lazy_glyphs[&1].glyph_data.data, vec![0x20; 5]);
    assert_eq!(fnt.lazy_glyphs[&0].info.char_code, 0);
    assert_eq!(fnt.lazy_glyphs[&1].info.char_code, 1);
}

#[test]
fn parsed_font_carries_its_metadata() {
    let fnt = Fnt::from_data(&shared_offsets_sample()).unwrap();
    assert_eq!(fnt.metadata.version, FntVersion::V1);
    assert_eq!((fnt.metadata.ascent, fnt.metadata.descent), (30, 8));
    assert_eq!(fnt.metadata.mipmap_level, 2);
    let first = &fnt.metadata.glyphs[&0];
    assert_eq!(first.code_type, CodeType::Unicode);
    assert_eq!((first.char_code, first.bearing_x, first.bearing_y, first.advance), (0, -1, 4, 11));
    let second = &fnt.metadata.glyphs[&1];
    assert_eq!((second.char_code, second.bearing_x, second.bearing_y, second.advance), (1, 2, 4, 12));
}

#[test]
fn wrong_declared_size_is_refused() {
    let good = shared_offsets_sample();
    assert!(Fnt::from_data(&good).is_ok());
    for which in 8..12 {
        for change in [1u8, 2, 0x80, 0xFF] {
            let mut bad = good.clone();
            bad[which] = bad[which].wrapping_add(change);
            assert_eq!(Fnt::from_data(&bad).err(), Some(FntError::SizeMismatch));
        }
    }
    let mut longer = good.clone();
    longer.push(0);
    assert_eq!(Fnt::from_data(&longer).err(), Some(FntError::SizeMismatch));
    assert_eq!(Fnt::from_data(&good[..good.len() - 1]).err(), Some(FntError::SizeMismatch));
}

#[test]
fn table_past_the_end_is_refused() {
    // header alone: no room for the table's first entry
    assert_eq!(Fnt::from_data(&textured_header(16, 1, 1)).err(), Some(FntError::TruncatedRecord));
    // the first entry points before the table
    let mut early = textured_header(20, 1, 1);
    early.extend_from_slice(&8u32.to_le_bytes());
    assert_eq!(Fnt::from_data(&early).err(), Some(FntError::TruncatedRecord));
    // the first entry asks for more slots than the buffer holds
    let mut far = textured_header(24, 1, 1);
    far.extend_from_slice(&1000u32.to_le_bytes());
    far.extend_from_slice(&0u32.to_le_bytes());
    assert_eq!(Fnt::from_data(&far).err(), Some(FntError::TruncatedRecord));
}

#[test]
fn record_past_the_end_is_refused() {
    let mut bytes = shared_offsets_sample();
    let len = bytes.len() - 1;
    bytes.truncate(len);
    bytes[8..12].copy_from_slice(&(len as u32).to_le_bytes());
    assert_eq!(Fnt::from_data(&bytes).err(), Some(FntError::TruncatedRecord));
    let mut beyond = shared_offsets_sample();
    beyond[16 + 4 * 3..16 + 4 * 4].copy_from_slice(&5000u32.to_le_bytes());
    assert_eq!(Fnt::from_data(&beyond).err(), Some(FntError::TruncatedRecord));
}

#[test]
fn empty_table_is_an_empty_font() {
    let mut bytes = textured_header(20, 3, 4);
    bytes.extend_from_slice(&16u32.to_le_bytes());
    let fnt = Fnt::from_data(&bytes).unwrap();
    assert!(fnt.lazy_glyphs.is_empty());
    assert!(fnt.metadata.characters.is_empty());
    assert!(fnt.glyph_offsets.is_empty());
    assert_eq!(fnt.metadata.mipmap_level, 1);
}

#[test]
fn legacy_font_is_read_with_its_codes() {
    // two slots, one record of 3 by 2 at four bits
    let mut bytes = vec![b'F', b'N', b'T', b'4', 0, 0, 0, 0, 20, 0, 4, 0, 0, 0, 0, 0];
    bytes.extend_from_slice(&24u32.to_le_bytes());
    bytes.extend_from_slice(&24u32.to_le_bytes());
    bytes.extend_from_slice(&[0xFF, 3, 3, 2, 6, 0, 0, 0]);
    bytes.extend_from_slice(&[0x12, 0x30, 0x45, 0x60]);
    let len = bytes.len() as u32;
    bytes[4..8].copy_from_slice(&len.to_le_bytes());
    let fnt = Fnt::from_data(&bytes).unwrap();
    assert_eq!(fnt.metadata.version, FntVersion::V0);
    assert_eq!((fnt.metadata.ascent, fnt.metadata.descent), (20, 4));
    assert_eq!(fnt.lazy_glyphs.len(), 1);
    let glyph = &fnt.lazy_glyphs[&0];
    assert_eq!(glyph.info.char_code, 0x20);
    assert_eq!(glyph.info.bearing_x, -1);
    assert_eq!(glyph.texture_size, (3, 2));
    assert_eq!(fnt.metadata.glyphs[&0].code_type, CodeType::Sjis);
    let pixels = Glyph::from_lazy_glyph(glyph, FntVersion::V0);
    assert_eq!(pixels.mipmap[&0], vec![0x10, 0x20, 0x30, 0x40, 0x50, 0x60]);
    assert_eq!(fnt.write().err(), Some(FntError::UnsupportedOperation));
}

#[test]
fn processed_glyphs_become_records() {
    let fnt = sample_font(4);
    assert_eq!(fnt.lazy_glyphs.len(), 4);
    assert!(fnt.glyph_offsets.is_empty());
    let glyph = &fnt.lazy_glyphs[&1];
    assert_eq!((glyph.info.actual_width, glyph.info.actual_height), (13, 7));
    assert_eq!(glyph.texture_size, (16, 8));
    assert_eq!((glyph.info.texture_width, glyph.info.texture_height), (16, 8));
    assert_eq!((glyph.info.bearing_x, glyph.info.bearing_y, glyph.info.advance), (-1, 11, 21));
    assert_eq!(glyph.info.char_code, 1);
    assert!(glyph.glyph_data.is_compressed);
    assert_eq!(fnt.metadata.mipmap_level, 4);
}

#[test]
fn written_font_has_header_table_and_records() {
    let fnt = sample_font(4);
    let bytes = fnt.write().unwrap();
    let region = 16 + 65536 * 4;
    let header = FntHeader::parse(&bytes).unwrap();
    assert_eq!(header.version, FntVersion::V1);
    assert_eq!(header.file_size as usize, bytes.len());
    assert_eq!((header.ascent, header.descent), (28, 6));
    let mut lengths = 0;
    for glyph in fnt.lazy_glyphs.values() {
        lengths += 10 + glyph.glyph_data.data.len();
    }
    assert_eq!(bytes.len(), region + lengths);
    let entry = |slot: usize| {
        u32::from_le_bytes([
            bytes[16 + 4 * slot],
            bytes[17 + 4 * slot],
            bytes[18 + 4 * slot],
            bytes[19 + 4 * slot],
        ]) as usize
    };
    let first_len = 10 + fnt.lazy_glyphs[&0].glyph_data.data.len();
    let second_len = 10 + fnt.lazy_glyphs[&1].glyph_data.data.len();
    assert_eq!(entry(0), region);
    assert_eq!(entry(1), region + first_len);
    assert_eq!(entry(2), region + first_len + second_len);
    assert_eq!(entry(0x3042), entry(2));
    assert_eq!(entry(4), region);
    assert_eq!(entry(65535), region);
    let record = &bytes[region..region + first_len];
    assert_eq!(&record[..8], &[0xFE, 10, 8, 8, 20, 0, 8, 8]);
    assert_eq!(&record[10..], &fnt.lazy_glyphs[&0].glyph_data.data[..]);
}

#[test]
fn written_font_without_glyphs() {
    let metadata = FntMetadata {
        version: FntVersion::V1,
        mipmap_level: 1,
        ascent: 1,
        descent: 2,
        characters: BTreeMap::new(),
        glyphs: BTreeMap::new(),
    };
    let fnt = Fnt::from_processed_glyphs(metadata, BTreeMap::new());
    let bytes = fnt.write().unwrap();
    assert_eq!(bytes.len(), 16 + 65536 * 4);
    assert_eq!(&bytes[16..20], &(16u32 + 65536 * 4).to_le_bytes());
    assert_eq!(&bytes[bytes.len() - 4..], &(16u32 + 65536 * 4).to_le_bytes());
}

#[test]
fn slot_with_an_unknown_glyph_id_shows_the_first_glyph() {
    let mut fnt = sample_font(4);
    fnt.metadata.characters.insert(7, 999);
    let bytes = fnt.write().unwrap();
    assert_eq!(&bytes[16 + 28..16 + 32], &(16u32 + 65536 * 4).to_le_bytes());
}

#[test]
fn legacy_font_cannot_be_written() {
    let mut fnt = sample_font(4);
    fnt.metadata.version = FntVersion::V0;
    assert_eq!(fnt.write().err(), Some(FntError::UnsupportedOperation));
}

#[test]
fn oversized_compressed_payload_cannot_be_written() {
    let mut fnt = sample_font(4);
    let glyph = fnt.lazy_glyphs.get_mut(&2).unwrap();
    glyph.glyph_data.data = vec![0; 0x10000];
    glyph.glyph_data.is_compressed = true;
    assert_eq!(fnt.write().err(), Some(FntError::SizeMismatch));
    let glyph = fnt.lazy_glyphs.get_mut(&2).unwrap();
    glyph.glyph_data.data = vec![0; 0xFFFF];
    assert!(fnt.write().is_ok());
}

#[test]
fn written_font_reads_back() {
    let fnt = sample_font(4);
    let bytes = fnt.write().unwrap();
    let again = Fnt::from_data(&bytes).unwrap();
    assert_eq!(again.lazy_glyphs.len(), 4);
    assert_eq!(again.metadata.characters.len(), 65536);
    assert_eq!(again.metadata.characters[&0x3042], 2);
    assert_eq!(again.metadata.characters[&12345], 0);
    assert_eq!(again.metadata.mipmap_level, 4);
    for id in 0..4u32 {
        let before = &fnt.lazy_glyphs[&id];
        let after = &again.lazy_glyphs[&id];
        assert_eq!(after.glyph_data.data, before.glyph_data.data);
        assert_eq!(after.glyph_data.is_compressed, before.glyph_data.is_compressed);
        assert_eq!(after.info, before.info);
        assert_eq!(after.texture_size, before.texture_size);
    }
}

#[test]
fn reencoded_font_keeps_count_and_metrics() {
    for levels in [1usize, 3, 4] {
        let first = Fnt::from_data(&sample_font(levels).write().unwrap()).unwrap();
        assert_eq!(first.metadata.mipmap_level, levels);
        let mut glyphs = BTreeMap::new();
        for (id, lazy) in &first.lazy_glyphs {
            let glyph = Glyph::from_lazy_glyph(lazy, first.metadata.version);
            let (aw, ah) = lazy.info.actual_size();
            let plane = &glyph.mipmap[&0];
            let mut bitmap = Vec::new();
            for y in 0..ah as usize {
                for x in 0..aw as usize {
                    bitmap.push(plane[y * glyph.width as usize + x]);
                }
            }
            let texture = encode_glyph_texture(&bitmap, aw, ah, first.metadata.mipmap_level);
            glyphs.insert(
                *id,
                ProcessedGlyph {
                    glyph_info: first.metadata.glyphs[id],
                    actual_width: aw,
                    actual_height: ah,
                    texture_width: texture.texture_width,
                    texture_height: texture.texture_height,
                    data: texture.data,
                    compressed_size: texture.compressed_size,
                },
            );
        }
        let rebuilt = Fnt::from_processed_glyphs(first.metadata.clone(), glyphs);
        let reread = Fnt::from_data(&rebuilt.write().unwrap()).unwrap();
        assert_eq!(reread.lazy_glyphs.len(), first.lazy_glyphs.len());
        for (id, before) in &first.lazy_glyphs {
            let after = &reread.lazy_glyphs[id];
            assert_eq!(after.info.actual_size(), before.info.actual_size());
            assert_eq!(after.info.bearing_x, before.info.bearing_x);
            assert_eq!(after.info.bearing_y, before.info.bearing_y);
            assert_eq!(after.info.advance, before.info.advance);
            let planes_before = Glyph::from_lazy_glyph(before, FntVersion::V1).mipmap;
            let planes_after = Glyph::from_lazy_glyph(after, FntVersion::V1).mipmap;
            assert_eq!(planes_after, planes_before);
        }
    }
}

#[test]
fn read_written_and_read_again_shows_the_same_glyphs() {
    let first = Fnt::from_data(&shared_offsets_sample()).unwrap();
    let written = first.write().unwrap();
    let second = Fnt::from_data(&written).unwrap();
    assert_eq!(second.lazy_glyphs.len(), first.lazy_glyphs.len());
    assert_eq!(second.metadata.characters.len(), 65536);
    for slot in 0..10u32 {
        let before = &first.lazy_glyphs[&first.metadata.characters[&slot]];
        let after = &second.lazy_glyphs[&second.metadata.characters[&slot]];
        assert_eq!(after.glyph_data.data, before.glyph_data.data);
        assert_eq!(after.glyph_data.is_compressed, before.glyph_data.is_compressed);
        assert_eq!(after.texture_size, before.texture_size);
        assert_eq!(after.info.actual_size(), before.info.actual_size());
        assert_eq!(after.info.bearing_x, before.info.bearing_x);
        assert_eq!(after.info.bearing_y, before.info.bearing_y);
        assert_eq!(after.info.advance, before.info.advance);
    }
    assert_eq!(second.metadata.characters[&10], 0);
    assert_eq!(second.metadata.characters[&65535], 0);
    assert_eq!((second.metadata.ascent, second.metadata.descent), (30, 8));
}
