//! What holds of the bytes of a written font.

use crate::bytes::{
    le_u16, le_u32, lemma_le_u16_at, lemma_le_u32_at, u16_le_bytes, u32_le_bytes,
};
use crate::fnt::{
    character_table, characters_of, first_slot, glyph_ids, glyph_records, glyph_region_start,
    has_magic, header_bytes_of, holds_font, id_taken, lemma_ids_count, lemma_ids_cover,
    lemma_ids_one_to_one, lemma_offsets_rise, lemma_records_by_offset, lemma_slot_shows_record,
    magic_bytes, offset_at, parse_failure, record_bytes, record_len, record_offsets,
    records_bytes, serialized, slot_code, slot_offset, stored_header, table_bytes, table_fits,
    table_len, version_of, write_failure, written_len, Fnt,
};
use crate::glyph::{
    lemma_glyph_header_read_back, lemma_sizes_bounded, record_at, record_fits, stored_size,
    GlyphHeader, GlyphInfo, LazyGlyph, StoredGlyph,
};
use crate::metadata::FntVersion;
use crate::ordered::{lemma_ordered_ids, ordered_ids};
use vstd::prelude::*;
use vstd::relations::injective_on;
use vstd::set_lib::lemma_map_size;

verus! {

/// The first `upto` table entries take four bytes each.
pub proof fn lemma_table_len(characters: Map<u32, u32>, offsets: Map<u32, u32>, upto: int)
    requires
        0 <= upto,
    ensures
        table_bytes(characters, offsets, upto).len() == 4 * upto,
    decreases upto,
{
    if upto > 0 {
        lemma_table_len(characters, offsets, upto - 1);
    }
}

/// Entry `slot` of the table lies at four times `slot`.
pub proof fn lemma_table_entry(
    characters: Map<u32, u32>,
    offsets: Map<u32, u32>,
    upto: int,
    slot: int,
)
    requires
        0 <= slot < upto,
    ensures
        table_bytes(characters, offsets, upto).subrange(4 * slot, 4 * slot + 4) == u32_le_bytes(
            slot_offset(characters, offsets, slot as u32),
        ),
    decreases upto,
{
    let before = table_bytes(characters, offsets, upto - 1);
    let last = u32_le_bytes(slot_offset(characters, offsets, (upto - 1) as u32));
    let all = table_bytes(characters, offsets, upto);
    lemma_table_len(characters, offsets, upto - 1);
    assert(all == before + last);
    if slot < upto - 1 {
        lemma_table_entry(characters, offsets, upto - 1, slot);
        assert(all.subrange(4 * slot, 4 * slot + 4) =~= before.subrange(4 * slot, 4 * slot + 4));
    } else {
        assert(all.subrange(4 * slot, 4 * slot + 4) =~= last);
    }
}

/// A glyph's record is as long as its header and payload.
pub proof fn lemma_record_len(glyph: LazyGlyph)
    ensures
        record_bytes(glyph).len() == record_len(glyph),
        stored_header(glyph).bytes_v1().len() == 10,
{
}

/// The records end where the next would start.
pub proof fn lemma_records_len(glyphs: Map<u32, LazyGlyph>, ids: Seq<u32>, upto: int)
    requires
        0 <= upto,
    ensures
        records_bytes(glyphs, ids, upto).len() == offset_at(glyphs, ids, upto)
            - glyph_region_start(),
    decreases upto,
{
    if upto > 0 {
        lemma_records_len(glyphs, ids, upto - 1);
        lemma_record_len(glyphs[ids[upto - 1]]);
    }
}

/// Record number `k` lies at its offset, counted from the start of the
/// glyph region.
pub proof fn lemma_record_in_place(glyphs: Map<u32, LazyGlyph>, ids: Seq<u32>, upto: int, k: int)
    requires
        0 <= k < upto,
    ensures
        ({
            let start = offset_at(glyphs, ids, k) - glyph_region_start();
            &&& 0 <= start
            &&& start + record_len(glyphs[ids[k]]) <= records_bytes(glyphs, ids, upto).len()
            &&& records_bytes(glyphs, ids, upto).subrange(
                start,
                start + record_len(glyphs[ids[k]]),
            ) == record_bytes(glyphs[ids[k]])
        }),
    decreases upto,
{
    let before = records_bytes(glyphs, ids, upto - 1);
    let last = record_bytes(glyphs[ids[upto - 1]]);
    let all = records_bytes(glyphs, ids, upto);
    let start = offset_at(glyphs, ids, k) - glyph_region_start();
    let len = record_len(glyphs[ids[k]]);
    lemma_records_len(glyphs, ids, upto - 1);
    lemma_records_len(glyphs, ids, k);
    lemma_record_len(glyphs[ids[upto - 1]]);
    assert(all == before + last);
    if k < upto - 1 {
        lemma_record_in_place(glyphs, ids, upto - 1, k);
        assert(all.subrange(start, start + len) =~= before.subrange(start, start + len));
    } else {
        assert(all.subrange(start, start + len) =~= last);
    }
}


/// The header of a written font starts with the tag, shows the textured
/// revision, and holds the three fields it was written with.
pub proof fn lemma_textured_header(file_size: u32, ascent: u16, descent: u16)
    ensures
        ({
            let head = header_bytes_of(
                magic_bytes(),
                FntVersion::V1,
                file_size,
                ascent,
                descent,
            );
            &&& head.len() == 16
            &&& has_magic(head)
            &&& version_of(head) == Some(FntVersion::V1)
            &&& le_u32(head, 8) == file_size
            &&& le_u16(head, 12) == ascent
            &&& le_u16(head, 14) == descent
        }),
{
    let head = header_bytes_of(magic_bytes(), FntVersion::V1, file_size, ascent, descent);
    let one = u32_le_bytes(1);
    assert(head.len() == 16);
    assert(head.subrange(0, 4) =~= magic_bytes());
    assert(head.subrange(4, 8) =~= one);
    assert(head.subrange(8, 12) =~= u32_le_bytes(file_size));
    assert(head.subrange(12, 14) =~= u16_le_bytes(ascent));
    assert(head.subrange(14, 16) =~= u16_le_bytes(descent));
    lemma_le_u32_at(head, 8, file_size);
    lemma_le_u16_at(head, 12, ascent);
    lemma_le_u16_at(head, 14, descent);
    assert(head[0] == head.subrange(0, 4)[0] && head[1] == head.subrange(0, 4)[1] && head[2]
        == head.subrange(0, 4)[2] && head[3] == head.subrange(0, 4)[3]);
    assert(head[4] == head.subrange(4, 8)[0] && head[5] == head.subrange(4, 8)[1] && head[6]
        == head.subrange(4, 8)[2] && head[7] == head.subrange(4, 8)[3]);
}

/// What is read of a header does not depend on what follows it.
proof fn lemma_header_alone(head: Seq<u8>, rest: Seq<u8>)
    requires
        head.len() == 16,
    ensures
        has_magic(head + rest) == has_magic(head),
        version_of(head + rest) == version_of(head),
        le_u32(head + rest, 8) == le_u32(head, 8),
        le_u16(head + rest, 12) == le_u16(head, 12),
        le_u16(head + rest, 14) == le_u16(head, 14),
{
    let all = head + rest;
    assert forall|i: int| 0 <= i < 16 implies all[i] == head[i] by {}
    assert(all[0] == head[0] && all[1] == head[1] && all[2] == head[2] && all[3] == head[3]);
    assert(all[4] == head[4] && all[5] == head[5] && all[6] == head[6] && all[7] == head[7]);
    assert(all[8] == head[8] && all[9] == head[9] && all[10] == head[10] && all[11] == head[11]);
    assert(all[12] == head[12] && all[13] == head[13] && all[14] == head[14] && all[15]
        == head[15]);
}

/// The parts of a written font: header, table and records, with the
/// places where the latter two start.
pub proof fn lemma_written_parts(fnt: Fnt)
    ensures
        ({
            let glyphs = fnt.lazy_glyphs@;
            let ids = ordered_ids(glyphs);
            let count = ids.len() as int;
            let head = header_bytes_of(
                magic_bytes(),
                FntVersion::V1,
                written_len(fnt) as u32,
                fnt.metadata.ascent,
                fnt.metadata.descent,
            );
            let table = table_bytes(
                fnt.metadata.characters@,
                record_offsets(glyphs, ids, count),
                65536,
            );
            let records = records_bytes(glyphs, ids, count);
            &&& serialized(fnt) == head + table + records
            &&& head.len() == 16
            &&& table.len() == 262144
            &&& records.len() == written_len(fnt) - glyph_region_start()
            &&& serialized(fnt).len() == written_len(fnt)
            &&& written_len(fnt) >= glyph_region_start()
        }),
{
    let glyphs = fnt.lazy_glyphs@;
    let ids = ordered_ids(glyphs);
    let count = ids.len() as int;
    lemma_textured_header(written_len(fnt) as u32, fnt.metadata.ascent, fnt.metadata.descent);
    lemma_table_len(fnt.metadata.characters@, record_offsets(glyphs, ids, count), 65536);
    lemma_records_len(glyphs, ids, count);
    lemma_offsets_rise(glyphs, ids, 0, count);
}

/// The header of a written font shows the textured revision and declares
/// the length that the font has.
pub proof fn lemma_written_header(fnt: Fnt)
    requires
        write_failure(fnt) is None,
    ensures
        has_magic(serialized(fnt)),
        version_of(serialized(fnt)) == Some(FntVersion::V1),
        le_u32(serialized(fnt), 8) == serialized(fnt).len(),
        le_u16(serialized(fnt), 12) == fnt.metadata.ascent,
        le_u16(serialized(fnt), 14) == fnt.metadata.descent,
{
    let glyphs = fnt.lazy_glyphs@;
    let ids = ordered_ids(glyphs);
    let count = ids.len() as int;
    let head = header_bytes_of(
        magic_bytes(),
        FntVersion::V1,
        written_len(fnt) as u32,
        fnt.metadata.ascent,
        fnt.metadata.descent,
    );
    let table = table_bytes(fnt.metadata.characters@, record_offsets(glyphs, ids, count), 65536);
    let records = records_bytes(glyphs, ids, count);
    lemma_written_parts(fnt);
    lemma_textured_header(written_len(fnt) as u32, fnt.metadata.ascent, fnt.metadata.descent);
    assert(serialized(fnt) =~= head + (table + records));
    lemma_header_alone(head, table + records);
}

/// Entry `slot` of the table of a written font is read where it was
/// written.
pub proof fn lemma_written_entry(fnt: Fnt, slot: int)
    requires
        0 <= slot < 65536,
    ensures
        le_u32(serialized(fnt), 16 + 4 * slot) == slot_offset(
            fnt.metadata.characters@,
            record_offsets(
                fnt.lazy_glyphs@,
                ordered_ids(fnt.lazy_glyphs@),
                ordered_ids(fnt.lazy_glyphs@).len() as int,
            ),
            slot as u32,
        ),
{
    let glyphs = fnt.lazy_glyphs@;
    let ids = ordered_ids(glyphs);
    let count = ids.len() as int;
    let offsets = record_offsets(glyphs, ids, count);
    let head = header_bytes_of(
        magic_bytes(),
        FntVersion::V1,
        written_len(fnt) as u32,
        fnt.metadata.ascent,
        fnt.metadata.descent,
    );
    let table = table_bytes(fnt.metadata.characters@, offsets, 65536);
    let records = records_bytes(glyphs, ids, count);
    let all = serialized(fnt);
    lemma_written_parts(fnt);
    lemma_table_entry(fnt.metadata.characters@, offsets, 65536, slot);
    assert(all.subrange(16 + 4 * slot, 16 + 4 * slot + 4) =~= table.subrange(
        4 * slot,
        4 * slot + 4,
    ));
    lemma_le_u32_at(
        all,
        16 + 4 * slot,
        slot_offset(fnt.metadata.characters@, offsets, slot as u32),
    );
}

/// Whether a glyph's record, once written, says of itself what the glyph
/// holds: the texture size is that of its metrics; a compressed payload has
/// a length that the header can state; a raw payload has the length that
/// the texture size announces.
pub open spec fn reads_back(glyph: LazyGlyph) -> bool {
    &&& glyph.texture_size == (glyph.info.texture_width, glyph.info.texture_height)
    &&& stored_size(stored_header(glyph), FntVersion::V1) == glyph.glyph_data.data@.len()
    &&& glyph.glyph_data.is_compressed ==> 0 < glyph.glyph_data.data@.len() <= 0xffff
}

/// What is read of a glyph that reads back: the glyph, with the character
/// code that the reader gives it.
pub open spec fn read_back(glyph: LazyGlyph, char_code: u32) -> StoredGlyph {
    StoredGlyph {
        info: GlyphInfo {
            bearing_x: glyph.info.bearing_x,
            bearing_y: glyph.info.bearing_y,
            advance: glyph.info.advance,
            actual_width: glyph.info.actual_width,
            actual_height: glyph.info.actual_height,
            texture_width: glyph.info.texture_width,
            texture_height: glyph.info.texture_height,
            char_code,
        },
        texture_size: glyph.texture_size,
        data: glyph.glyph_data.data@,
        is_compressed: glyph.glyph_data.is_compressed,
    }
}

/// Where the bytes of a glyph's record lie in a buffer, the record is read
/// there.
pub proof fn lemma_record_read(data: Seq<u8>, offset: int, glyph: LazyGlyph, char_code: u32)
    requires
        reads_back(glyph),
        0 <= offset,
        offset + record_len(glyph) <= data.len(),
        data.subrange(offset, offset + record_len(glyph)) == record_bytes(glyph),
    ensures
        record_fits(data, offset, FntVersion::V1),
        record_at(data, offset, char_code, FntVersion::V1) == read_back(glyph, char_code),
{
    let header = stored_header(glyph);
    let bytes = header.bytes_v1();
    let record = record_bytes(glyph);
    let part = data.subrange(offset, offset + record_len(glyph));
    lemma_glyph_header_read_back(header);
    assert(bytes.len() == 10);
    assert forall|i: int| 0 <= i < 10 implies data[offset + i] == bytes[i] by {
        assert(part[i] == data[offset + i]);
        assert(record[i] == bytes[i]);
    }
    assert(data[offset] == bytes[0] && data[offset + 1] == bytes[1] && data[offset + 2]
        == bytes[2] && data[offset + 3] == bytes[3] && data[offset + 4] == bytes[4] && data[offset
        + 5] == bytes[5] && data[offset + 6] == bytes[6] && data[offset + 7] == bytes[7]
        && data[offset + 8] == bytes[8] && data[offset + 9] == bytes[9]);
    assert(GlyphHeader::parsed(data, offset, FntVersion::V1) == GlyphHeader::parsed(
        bytes,
        0,
        FntVersion::V1,
    ));
    let len = glyph.glyph_data.data@.len() as int;
    assert(data.subrange(offset + 10, offset + 10 + len) =~= part.subrange(10, 10 + len));
    assert(record.subrange(10, 10 + len) =~= glyph.glyph_data.data@);
}


/// Whether `id` is among the first `upto` of `ids`.
pub open spec fn listed(ids: Seq<u32>, upto: int, id: u32) -> bool {
    exists|j: int| 0 <= j < upto && ids[j] == id
}

/// The offsets by id are those of the glyphs in the list, each under its
/// id.
pub proof fn lemma_offsets_by_id(glyphs: Map<u32, LazyGlyph>, ids: Seq<u32>, upto: int)
    requires
        0 <= upto <= ids.len(),
        forall|i: int, j: int| 0 <= i < j < ids.len() ==> ids[i] != ids[j],
    ensures
        forall|id: u32|
            #[trigger] record_offsets(glyphs, ids, upto).contains_key(id) <==> listed(
                ids,
                upto,
                id,
            ),
        forall|j: int|
            0 <= j < upto ==> record_offsets(glyphs, ids, upto)[#[trigger] ids[j]] == offset_at(
                glyphs,
                ids,
                j,
            ) as u32,
    decreases upto,
{
    if upto > 0 {
        lemma_offsets_by_id(glyphs, ids, upto - 1);
        let before = record_offsets(glyphs, ids, upto - 1);
        let now = record_offsets(glyphs, ids, upto);
        let last = ids[upto - 1];
        assert(now == before.insert(last, offset_at(glyphs, ids, upto - 1) as u32));
        assert forall|id: u32| #[trigger] now.contains_key(id) <==> listed(ids, upto, id) by {
            if now.contains_key(id) {
                if id == last {
                    assert(ids[upto - 1] == id);
                } else {
                    assert(before.contains_key(id));
                    assert(listed(ids, upto - 1, id));
                    let j = choose|j: int| 0 <= j < upto - 1 && ids[j] == id;
                    assert(0 <= j < upto && ids[j] == id);
                }
            }
            if listed(ids, upto, id) {
                let j = choose|j: int| 0 <= j < upto && ids[j] == id;
                if j < upto - 1 {
                    assert(listed(ids, upto - 1, id));
                    assert(before.contains_key(id));
                }
            }
        }
    }
}

/// Whether a font, once written, can be read: it has no reason to fail
/// and at least one glyph; its first character slot shows the glyph at the
/// start of the glyph region, from which the reader tells the table's
/// length; and each glyph's record says of itself what the glyph holds.
pub open spec fn can_be_read_back(fnt: Fnt) -> bool {
    let glyphs = fnt.lazy_glyphs@;
    let ids = ordered_ids(glyphs);
    &&& write_failure(fnt) is None
    &&& ids.len() > 0
    &&& slot_offset(
        fnt.metadata.characters@,
        record_offsets(glyphs, ids, ids.len() as int),
        0,
    ) == glyph_region_start()
    &&& forall|id: u32| glyphs.contains_key(id) ==> reads_back(#[trigger] glyphs[id])
}

/// The glyph that a written font shows in a character slot: the glyph of
/// the slot's id, or the glyph with the smallest id where the slot has no
/// glyph.
pub open spec fn shown_glyph(fnt: Fnt, slot: u32) -> LazyGlyph {
    let glyphs = fnt.lazy_glyphs@;
    let characters = fnt.metadata.characters@;
    if characters.contains_key(slot) && glyphs.contains_key(characters[slot]) {
        glyphs[characters[slot]]
    } else {
        glyphs[ordered_ids(glyphs)[0]]
    }
}

/// The table entry of every character slot is the offset of the record of
/// the glyph that the slot shows, and that record is read there.
pub proof fn lemma_written_slot(fnt: Fnt, slot: u32, char_code: u32)
    requires
        can_be_read_back(fnt),
        slot < 65536,
    ensures
        ({
            let all = serialized(fnt);
            let entry = le_u32(all, 16 + 4 * slot);
            &&& record_fits(all, entry as int, FntVersion::V1)
            &&& record_at(all, entry as int, char_code, FntVersion::V1) == read_back(
                shown_glyph(fnt, slot),
                char_code,
            )
        }),
{
    let glyphs = fnt.lazy_glyphs@;
    let characters = fnt.metadata.characters@;
    let ids = ordered_ids(glyphs);
    let count = ids.len() as int;
    let offsets = record_offsets(glyphs, ids, count);
    let all = serialized(fnt);
    lemma_ordered_ids(glyphs);
    lemma_written_entry(fnt, slot as int);
    lemma_offsets_by_id(glyphs, ids, count);
    lemma_written_parts(fnt);
    let k: int = if characters.contains_key(slot) && offsets.contains_key(characters[slot]) {
        let id = characters[slot];
        assert(listed(ids, count, id));
        choose|j: int| 0 <= j < count && ids[j] == id
    } else {
        0
    };
    assert(glyphs.contains_key(ids[k]));
    if characters.contains_key(slot) && glyphs.contains_key(characters[slot]) {
        assert(ids.contains(characters[slot]));
        assert(listed(ids, count, characters[slot]));
    }
    assert(shown_glyph(fnt, slot) == glyphs[ids[k]]);
    lemma_offsets_rise(glyphs, ids, k, count);
    lemma_offsets_rise(glyphs, ids, k + 1, count);
    let offset = offset_at(glyphs, ids, k);
    assert(slot_offset(characters, offsets, slot) == offset);
    lemma_record_in_place(glyphs, ids, count, k);
    let head = header_bytes_of(
        magic_bytes(),
        FntVersion::V1,
        written_len(fnt) as u32,
        fnt.metadata.ascent,
        fnt.metadata.descent,
    );
    let table = table_bytes(characters, offsets, 65536);
    let records = records_bytes(glyphs, ids, count);
    let start = offset - glyph_region_start();
    let len = record_len(glyphs[ids[k]]);
    assert(all.subrange(offset, offset + len) =~= records.subrange(start, start + len));
    lemma_record_read(all, offset, glyphs[ids[k]], char_code);
}

/// A font that can be read back is read without failure once written.
pub proof fn lemma_written_font_is_read(fnt: Fnt)
    requires
        can_be_read_back(fnt),
    ensures
        parse_failure(serialized(fnt)) is None,
        character_table(serialized(fnt)).len() == 65536,
{
    let all = serialized(fnt);
    lemma_written_header(fnt);
    lemma_written_parts(fnt);
    lemma_written_entry(fnt, 0);
    assert(table_len(all) == 65536);
    assert(table_fits(all));
    let table = character_table(all);
    assert forall|i: int| 0 <= i < table.len() implies record_fits(
        all,
        #[trigger] table[i] as int,
        FntVersion::V1,
    ) by {
        lemma_written_slot(fnt, i as u32, 0);
    }
}

/// Writing a font and reading it again gives, in every character slot,
/// the glyph that the font showed there: the same metrics, sizes and
/// payload. Its character code is the number of the first slot that shows
/// it.
pub proof fn lemma_written_font_reads_back(fnt: Fnt, slot: u32)
    requires
        can_be_read_back(fnt),
        slot < 65536,
    ensures
        ({
            let all = serialized(fnt);
            let table = character_table(all);
            let id = characters_of(table, 65536)[slot];
            let records = glyph_records(all, table, FntVersion::V1, 65536);
            &&& parse_failure(all) is None
            &&& records.contains_key(id)
            &&& records[id] == read_back(
                shown_glyph(fnt, slot),
                first_slot(table, table[slot as int], 0) as u32,
            )
        }),
{
    let all = serialized(fnt);
    let table = character_table(all);
    lemma_written_font_is_read(fnt);
    lemma_slot_shows_record(all, table, FntVersion::V1, slot);
    lemma_written_slot(
        fnt,
        slot,
        slot_code(FntVersion::V1, first_slot(table, table[slot as int], 0)),
    );
}


/// A glyph record that was read from a buffer says of itself what it
/// holds.
pub proof fn lemma_read_record_reads_back(
    glyph: LazyGlyph,
    data: Seq<u8>,
    offset: int,
    char_code: u32,
)
    requires
        record_fits(data, offset, FntVersion::V1),
        0 <= offset,
        glyph@ == record_at(data, offset, char_code, FntVersion::V1),
    ensures
        reads_back(glyph),
{
    let header = GlyphHeader::parsed(data, offset, FntVersion::V1);
    let start = offset + 10;
    let len = stored_size(header, FntVersion::V1);
    lemma_sizes_bounded(header.texture_width as int, header.texture_height as int);
    assert(glyph.glyph_data.data@ == data.subrange(start, start + len));
    assert(glyph.glyph_data.data@.len() == len);
}

/// A font that was read from a buffer of the textured revision with at
/// least one character slot can be read back once written, provided that
/// it can be written at all.
pub proof fn lemma_read_font_can_be_read_back(fnt: Fnt, data: Seq<u8>)
    requires
        parse_failure(data) is None,
        holds_font(fnt, data),
        version_of(data) == Some(FntVersion::V1),
        character_table(data).len() > 0,
        write_failure(fnt) is None,
    ensures
        can_be_read_back(fnt),
{
    let table = character_table(data);
    let upto = table.len() as int;
    let glyphs = fnt.lazy_glyphs@;
    let ids = ordered_ids(glyphs);
    let by_offset = glyph_ids(table, upto);
    let records = glyph_records(data, table, FntVersion::V1, upto);
    lemma_ordered_ids(glyphs);
    assert(upto <= u32::MAX) by {
        assert(data.len() <= u32::MAX);
    }
    lemma_ids_one_to_one(table, upto);
    lemma_records_by_offset(data, table, FntVersion::V1, upto);
    lemma_ids_count(table, upto);
    assert forall|id: u32| glyphs.contains_key(id) implies reads_back(#[trigger] glyphs[id]) by {
        assert(records.contains_key(id));
        assert(id_taken(by_offset, id));
        let a = choose|a: u32| by_offset.contains_key(a) && #[trigger] by_offset[a] == id;
        let slot = choose|slot: int| 0 <= slot < upto && table[slot] == a;
        assert(record_fits(data, table[slot] as int, FntVersion::V1));
        lemma_read_record_reads_back(
            glyphs[id],
            data,
            a as int,
            slot_code(FntVersion::V1, first_slot(table, a, 0)),
        );
    }
    // The first slot shows glyph zero, which has the smallest id.
    lemma_ids_cover(table, upto, 0);
    lemma_first_id_is_zero(table, upto);
    let zero = fnt.metadata.characters@[0];
    assert(zero == 0);
    assert(records.contains_key(0));
    assert(glyphs.contains_key(0));
    assert(ids.contains(0u32));
    let place = choose|j: int| 0 <= j < ids.len() && ids[j] == 0u32;
    if place > 0 {
        assert(ids[0] < ids[place]);
    }
    assert(ids[0] == 0);
    lemma_offsets_by_id(glyphs, ids, ids.len() as int);
    assert(listed(ids, ids.len() as int, 0));
}

/// The offset of the first slot has the glyph id zero.
proof fn lemma_first_id_is_zero(table: Seq<u32>, upto: int)
    requires
        0 < upto <= table.len(),
    ensures
        glyph_ids(table, upto).contains_key(table[0]),
        glyph_ids(table, upto)[table[0]] == 0,
    decreases upto,
{
    if upto > 1 {
        lemma_first_id_is_zero(table, upto - 1);
    } else {
        assert(glyph_ids(table, 0) =~= Map::<u32, u32>::empty());
        assert(glyph_ids(table, 0).len() == 0);
    }
}


/// Whether two glyph records hold the same glyph: the same metrics, sizes
/// and payload. The character code is not compared.
pub open spec fn same_glyph(a: StoredGlyph, b: StoredGlyph) -> bool {
    &&& a.info.bearing_x == b.info.bearing_x
    &&& a.info.bearing_y == b.info.bearing_y
    &&& a.info.advance == b.info.advance
    &&& a.info.actual_width == b.info.actual_width
    &&& a.info.actual_height == b.info.actual_height
    &&& a.info.texture_width == b.info.texture_width
    &&& a.info.texture_height == b.info.texture_height
    &&& a.texture_size == b.texture_size
    &&& a.data == b.data
    &&& a.is_compressed == b.is_compressed
}

/// Reading a font of the textured revision, writing it and reading it
/// again shows, in every character slot of the first reading, the glyph
/// that the first reading showed there.
pub proof fn lemma_read_write_read(data: Seq<u8>, fnt: Fnt, slot: u32)
    requires
        parse_failure(data) is None,
        holds_font(fnt, data),
        version_of(data) == Some(FntVersion::V1),
        slot < character_table(data).len(),
        slot < 65536,
        write_failure(fnt) is None,
    ensures
        ({
            let table = character_table(data);
            let first = glyph_records(data, table, FntVersion::V1, table.len() as int);
            let shown = characters_of(table, table.len() as int)[slot];
            let written = serialized(fnt);
            let table_again = character_table(written);
            let second = glyph_records(written, table_again, FntVersion::V1, 65536);
            let shown_again = characters_of(table_again, 65536)[slot];
            &&& parse_failure(written) is None
            &&& first.contains_key(shown)
            &&& second.contains_key(shown_again)
            &&& same_glyph(second[shown_again], first[shown])
        }),
{
    let table = character_table(data);
    assert(table.len() <= u32::MAX) by {
        assert(data.len() <= u32::MAX);
    }
    lemma_read_font_can_be_read_back(fnt, data);
    lemma_written_font_reads_back(fnt, slot);
    lemma_slot_shows_record(data, table, FntVersion::V1, slot);
    let shown = characters_of(table, table.len() as int)[slot];
    assert(fnt.metadata.characters@.contains_key(slot));
    assert(fnt.metadata.characters@[slot] == shown);
    assert(fnt.lazy_glyphs@.contains_key(shown));
    assert(shown_glyph(fnt, slot) == fnt.lazy_glyphs@[shown]);
}


/// Each glyph's record lies behind the one before it.
pub proof fn lemma_offsets_differ(glyphs: Map<u32, LazyGlyph>, ids: Seq<u32>, k: int, later: int)
    requires
        0 <= k < later,
    ensures
        offset_at(glyphs, ids, k) < offset_at(glyphs, ids, later),
    decreases later,
{
    if later > k + 1 {
        lemma_offsets_differ(glyphs, ids, k, later - 1);
    }
}

/// Where the record of the glyph with the given id lies in the written
/// font.
pub open spec fn written_offset(fnt: Fnt, id: u32) -> u32 {
    let glyphs = fnt.lazy_glyphs@;
    let ids = ordered_ids(glyphs);
    record_offsets(glyphs, ids, ids.len() as int)[id]
}

/// Every glyph has an offset in the written font, and no two glyphs have
/// the same.
pub proof fn lemma_written_offsets_differ(fnt: Fnt, first: u32, second: u32)
    requires
        write_failure(fnt) is None,
        fnt.lazy_glyphs@.contains_key(first),
        fnt.lazy_glyphs@.contains_key(second),
        written_offset(fnt, first) == written_offset(fnt, second),
    ensures
        first == second,
{
    let glyphs = fnt.lazy_glyphs@;
    let ids = ordered_ids(glyphs);
    let count = ids.len() as int;
    lemma_ordered_ids(glyphs);
    lemma_offsets_by_id(glyphs, ids, count);
    assert(ids.contains(first));
    assert(ids.contains(second));
    let j = choose|j: int| 0 <= j < ids.len() && ids[j] == first;
    let k = choose|k: int| 0 <= k < ids.len() && ids[k] == second;
    lemma_offsets_rise(glyphs, ids, j, count);
    lemma_offsets_rise(glyphs, ids, k, count);
    if j < k {
        lemma_offsets_differ(glyphs, ids, j, k);
    } else if k < j {
        lemma_offsets_differ(glyphs, ids, k, j);
    }
}

/// In the table of a font that was read and written again, a slot that
/// the first reading had holds the offset of the glyph that it showed,
/// and every other slot holds what the first slot holds.
proof fn lemma_rewritten_entry(fnt: Fnt, data: Seq<u8>, slot: u32)
    requires
        parse_failure(data) is None,
        holds_font(fnt, data),
        version_of(data) == Some(FntVersion::V1),
        character_table(data).len() > 0,
        write_failure(fnt) is None,
        slot < 65536,
    ensures
        ({
            let table = character_table(data);
            let upto = table.len() as int;
            let again = character_table(serialized(fnt));
            &&& again.len() == 65536
            &&& slot < upto ==> fnt.lazy_glyphs@.contains_key(
                glyph_ids(table, upto)[table[slot as int]],
            ) && again[slot as int] == written_offset(
                fnt,
                glyph_ids(table, upto)[table[slot as int]],
            )
            &&& slot >= upto ==> again[slot as int] == again[0]
        }),
{
    let table = character_table(data);
    let upto = table.len() as int;
    let glyphs = fnt.lazy_glyphs@;
    let ids = ordered_ids(glyphs);
    let count = ids.len() as int;
    assert(upto <= u32::MAX) by {
        assert(data.len() <= u32::MAX);
    }
    lemma_read_font_can_be_read_back(fnt, data);
    lemma_written_font_is_read(fnt);
    lemma_written_entry(fnt, slot as int);
    lemma_written_entry(fnt, 0);
    lemma_ordered_ids(glyphs);
    lemma_offsets_by_id(glyphs, ids, count);
    if slot < upto {
        lemma_slot_shows_record(data, table, FntVersion::V1, slot);
        let id = glyph_ids(table, upto)[table[slot as int]];
        assert(fnt.metadata.characters@.contains_key(slot));
        assert(fnt.metadata.characters@[slot] == id);
        assert(glyphs.contains_key(id));
        assert(ids.contains(id));
        assert(listed(ids, count, id));
    } else {
        assert(!fnt.metadata.characters@.contains_key(slot));
    }
}

/// A font of the textured revision with at most 65536 character slots,
/// read, written and read again, has as many glyphs as it had when it was
/// first read.
pub proof fn lemma_read_write_read_count(data: Seq<u8>, fnt: Fnt)
    requires
        parse_failure(data) is None,
        holds_font(fnt, data),
        version_of(data) == Some(FntVersion::V1),
        0 < character_table(data).len() <= 65536,
        write_failure(fnt) is None,
    ensures
        ({
            let table = character_table(data);
            let again = character_table(serialized(fnt));
            &&& parse_failure(serialized(fnt)) is None
            &&& glyph_ids(again, 65536).len() == glyph_ids(table, table.len() as int).len()
        }),
{
    let table = character_table(data);
    let upto = table.len() as int;
    let again = character_table(serialized(fnt));
    let before = glyph_ids(table, upto);
    let after = glyph_ids(again, 65536);
    let glyphs = fnt.lazy_glyphs@;
    lemma_read_font_can_be_read_back(fnt, data);
    lemma_written_font_is_read(fnt);
    lemma_ids_one_to_one(table, upto);
    lemma_ids_one_to_one(again, 65536);
    lemma_ids_count(table, upto);
    let moved = |a: u32| written_offset(fnt, before[a]);
    assert forall|y: u32| after.dom().contains(y) <==> before.dom().map(moved).contains(y) by {
        if after.dom().contains(y) {
            let slot = choose|slot: int| 0 <= slot < 65536 && again[slot] == y;
            lemma_rewritten_entry(fnt, data, slot as u32);
            lemma_rewritten_entry(fnt, data, 0);
            let shown = if slot < upto {
                slot
            } else {
                0
            };
            lemma_ids_cover(table, upto, shown);
            assert(before.dom().contains(table[shown]) && y == moved(table[shown]));
        }
        if before.dom().map(moved).contains(y) {
            let a = choose|a: u32| before.dom().contains(a) && y == moved(a);
            let slot = choose|slot: int| 0 <= slot < upto && table[slot] == a;
            lemma_rewritten_entry(fnt, data, slot as u32);
            assert(again[slot] == y);
        }
    }
    assert(before.dom().map(moved) =~= after.dom());
    assert(injective_on(moved, before.dom())) by {
        assert forall|a: u32, b: u32|
            before.dom().contains(a) && before.dom().contains(b) && #[trigger] moved(a)
                == #[trigger] moved(b) implies a == b by {
            let first = choose|slot: int| 0 <= slot < upto && table[slot] == a;
            let second = choose|slot: int| 0 <= slot < upto && table[slot] == b;
            lemma_rewritten_entry(fnt, data, first as u32);
            lemma_rewritten_entry(fnt, data, second as u32);
            lemma_written_offsets_differ(fnt, before[a], before[b]);
        }
    }
    lemma_map_size(before.dom(), after.dom(), moved);
}

} // verus!
