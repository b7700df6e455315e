//! The font container: header, character table and glyph records.

use crate::bytes::{
    le_u16, le_u32, lemma_le_u16_at, lemma_le_u32_at, push_u16_le, push_u32_le, read_u16_le, read_u32_le, u16_le_bytes, u32_le_bytes,
};
use crate::error::FntError;
use crate::glyph::{
    record_at, record_fits, GlyphData, GlyphHeader, GlyphInfo, LazyGlyph, ProcessedGlyph,
    StoredGlyph,
};
use crate::metadata::{
    detect_mipmap_level, detected_levels, CodeType, FntMetadata, FntVersion, GlyphMetadata,
};
use crate::ordered::{count, keys_in_order, look_up, ordered_ids, put, sorted_keys, take_out};
use crate::utils::{generate_sjis_map, sjis_codes};
use std::collections::BTreeMap;
use vstd::prelude::*;

verus! {

/// A font's header.
#[derive(Debug, Clone, Copy)]
pub struct FntHeader {
    pub magic: [u8; 4],
    pub version: FntVersion,
    pub file_size: u32,
    pub ascent: u16,
    pub descent: u16,
}

/// The tag that every font starts with: `FNT4`.
pub open spec fn magic_bytes() -> Seq<u8> {
    seq![0x46u8, 0x4Eu8, 0x54u8, 0x34u8]
}

/// Whether `data` is long enough for a header and starts with the tag.
pub open spec fn has_magic(data: Seq<u8>) -> bool {
    &&& data.len() >= 16
    &&& data[0] == 0x46
    &&& data[1] == 0x4E
    &&& data[2] == 0x54
    &&& data[3] == 0x34
}

/// The revision that a header's layout shows: textured where the word
/// after the tag is one, else legacy where the last word is zero.
pub open spec fn version_of(data: Seq<u8>) -> Option<FntVersion> {
    if data[4] == 1 && data[5] == 0 && data[6] == 0 && data[7] == 0 {
        Some(FntVersion::V1)
    } else if data[12] == 0 && data[13] == 0 && data[14] == 0 && data[15] == 0 {
        Some(FntVersion::V0)
    } else {
        None
    }
}

/// Where a header of the given revision keeps the file's length.
pub open spec fn file_size_at(version: FntVersion) -> int {
    match version {
        FntVersion::V1 => 8,
        FntVersion::V0 => 4,
    }
}

/// The sixteen bytes of a header with the given tag and fields.
pub open spec fn header_bytes_of(
    magic: Seq<u8>,
    version: FntVersion,
    file_size: u32,
    ascent: u16,
    descent: u16,
) -> Seq<u8> {
    match version {
        FntVersion::V1 => magic + u32_le_bytes(1) + u32_le_bytes(file_size) + u16_le_bytes(ascent)
            + u16_le_bytes(descent),
        FntVersion::V0 => magic + u32_le_bytes(file_size) + u16_le_bytes(ascent) + u16_le_bytes(
            descent,
        ) + u32_le_bytes(0),
    }
}

/// The sixteen bytes of a header.
pub open spec fn header_bytes(header: FntHeader) -> Seq<u8> {
    header_bytes_of(
        header.magic@,
        header.version,
        header.file_size,
        header.ascent,
        header.descent,
    )
}

/// Whether `header` is what the first sixteen bytes of `data` say.
pub open spec fn header_matches(header: FntHeader, data: Seq<u8>) -> bool {
    let at = file_size_at(header.version);
    &&& header.magic@ == magic_bytes()
    &&& Some(header.version) == version_of(data)
    &&& header.file_size == le_u32(data, at)
    &&& header.ascent == le_u16(data, at + 4)
    &&& header.descent == le_u16(data, at + 6)
}

impl FntHeader {
    /// The length of a header in the legacy revision.
    pub const SIZE_V0: usize = 16;

    /// The length of a header in the textured revision.
    pub const SIZE_V1: usize = 16;

    /// Reads a font's header.
    pub fn parse(data: &[u8]) -> (r: Result<Self, FntError>)
        ensures
            r is Ok <==> has_magic(data@) && version_of(data@) is Some,
            r matches Ok(header) ==> header_matches(header, data@),
            r matches Err(e) ==> e == (if has_magic(data@) {
                FntError::UnknownVersion
            } else {
                FntError::InvalidHeader
            }),
    {
        if data.len() < 16 {
            return Err(FntError::InvalidHeader);
        }
        if data[0] != 0x46 || data[1] != 0x4E || data[2] != 0x54 || data[3] != 0x34 {
            return Err(FntError::InvalidHeader);
        }
        let magic: [u8; 4] = [0x46, 0x4E, 0x54, 0x34];
        assert(magic@ =~= magic_bytes());
        if data[4] == 1 && data[5] == 0 && data[6] == 0 && data[7] == 0 {
            Ok(
                FntHeader {
                    magic,
                    version: FntVersion::V1,
                    file_size: read_u32_le(data, 8),
                    ascent: read_u16_le(data, 12),
                    descent: read_u16_le(data, 14),
                },
            )
        } else if data[12] == 0 && data[13] == 0 && data[14] == 0 && data[15] == 0 {
            Ok(
                FntHeader {
                    magic,
                    version: FntVersion::V0,
                    file_size: read_u32_le(data, 4),
                    ascent: read_u16_le(data, 8),
                    descent: read_u16_le(data, 10),
                },
            )
        } else {
            Err(FntError::UnknownVersion)
        }
    }

    /// The header's sixteen bytes.
    pub fn to_bytes(&self) -> (out: Vec<u8>)
        ensures
            out@ == header_bytes(*self),
            out@.len() == 16,
    {
        let mut result: Vec<u8> = Vec::with_capacity(16);
        result.push(self.magic[0]);
        result.push(self.magic[1]);
        result.push(self.magic[2]);
        result.push(self.magic[3]);
        assert(result@ =~= self.magic@);
        match self.version {
            FntVersion::V1 => {
                push_u32_le(&mut result, 1);
                push_u32_le(&mut result, self.file_size);
                push_u16_le(&mut result, self.ascent);
                push_u16_le(&mut result, self.descent);
            },
            FntVersion::V0 => {
                push_u32_le(&mut result, self.file_size);
                push_u16_le(&mut result, self.ascent);
                push_u16_le(&mut result, self.descent);
                push_u32_le(&mut result, 0);
            },
        }
        result
    }

    /// The header's length.
    pub fn size(&self) -> (n: usize)
        ensures
            n == 16,
    {
        match self.version {
            FntVersion::V0 => Self::SIZE_V0,
            FntVersion::V1 => Self::SIZE_V1,
        }
    }
}

/// A header of the textured revision reads back as it was written.
proof fn lemma_textured_header_read_back(header: FntHeader)
    requires
        header.magic@ == magic_bytes(),
        header.version == FntVersion::V1,
    ensures
        has_magic(header_bytes(header)),
        header_matches(header, header_bytes(header)),
{
    let bytes = header_bytes(header);
    let one = u32_le_bytes(1);
    assert(bytes.len() == 16);
    assert(bytes.subrange(0, 4) =~= header.magic@);
    assert(bytes.subrange(4, 8) =~= one);
    assert(bytes.subrange(8, 12) =~= u32_le_bytes(header.file_size));
    assert(bytes.subrange(12, 14) =~= u16_le_bytes(header.ascent));
    assert(bytes.subrange(14, 16) =~= u16_le_bytes(header.descent));
    lemma_le_u32_at(bytes, 8, header.file_size);
    lemma_le_u16_at(bytes, 12, header.ascent);
    lemma_le_u16_at(bytes, 14, header.descent);
    assert(bytes[0] == bytes.subrange(0, 4)[0] && bytes[1] == bytes.subrange(0, 4)[1] && bytes[2]
        == bytes.subrange(0, 4)[2] && bytes[3] == bytes.subrange(0, 4)[3]);
    assert(bytes[4] == bytes.subrange(4, 8)[0] && bytes[5] == bytes.subrange(4, 8)[1] && bytes[6]
        == bytes.subrange(4, 8)[2] && bytes[7] == bytes.subrange(4, 8)[3]);
}

/// A header of the legacy revision reads back as it was written, unless
/// its length field reads as the mark of the textured revision.
proof fn lemma_legacy_header_read_back(header: FntHeader)
    requires
        header.magic@ == magic_bytes(),
        header.version == FntVersion::V0,
        header.file_size != 1,
    ensures
        has_magic(header_bytes(header)),
        header_matches(header, header_bytes(header)),
{
    let bytes = header_bytes(header);
    let zero = u32_le_bytes(0);
    assert(bytes.len() == 16);
    assert(bytes.subrange(0, 4) =~= header.magic@);
    assert(bytes.subrange(4, 8) =~= u32_le_bytes(header.file_size));
    assert(bytes.subrange(8, 10) =~= u16_le_bytes(header.ascent));
    assert(bytes.subrange(10, 12) =~= u16_le_bytes(header.descent));
    assert(bytes.subrange(12, 16) =~= zero);
    lemma_le_u32_at(bytes, 4, header.file_size);
    lemma_le_u16_at(bytes, 8, header.ascent);
    lemma_le_u16_at(bytes, 10, header.descent);
    assert(bytes[0] == bytes.subrange(0, 4)[0] && bytes[1] == bytes.subrange(0, 4)[1] && bytes[2]
        == bytes.subrange(0, 4)[2] && bytes[3] == bytes.subrange(0, 4)[3]);
    assert(bytes[12] == bytes.subrange(12, 16)[0] && bytes[13] == bytes.subrange(12, 16)[1]
        && bytes[14] == bytes.subrange(12, 16)[2] && bytes[15] == bytes.subrange(12, 16)[3]);
}

/// A header that is written and read back is the header that was written.
/// The legacy layout keeps the file's length where the textured one keeps
/// its mark, so a legacy header of length one would read as textured.
pub proof fn lemma_header_read_back(header: FntHeader)
    requires
        header.magic@ == magic_bytes(),
        header.version == FntVersion::V0 ==> header.file_size != 1,
    ensures
        has_magic(header_bytes(header)),
        header_matches(header, header_bytes(header)),
{
    match header.version {
        FntVersion::V1 => lemma_textured_header_read_back(header),
        FntVersion::V0 => lemma_legacy_header_read_back(header),
    }
}


/// A font in memory: its metadata, its glyph records by id, and the
/// character table as it was read.
#[derive(Debug)]
pub struct Fnt {
    pub metadata: FntMetadata,
    /// Glyph id to glyph record.
    pub lazy_glyphs: BTreeMap<u32, LazyGlyph>,
    /// The offset that each character slot held when the font was read.
    pub glyph_offsets: Vec<u32>,
}

/// The number of character slots: the table ends where its first entry
/// points.
pub open spec fn table_len(data: Seq<u8>) -> int {
    (le_u32(data, 16) - 16) / 4
}

/// Whether the character table lies in the buffer, whole.
pub open spec fn table_fits(data: Seq<u8>) -> bool {
    &&& data.len() >= 20
    &&& le_u32(data, 16) >= 16
    &&& 16 + 4 * table_len(data) <= data.len()
}

/// The character table: for each slot the offset of its glyph record.
pub open spec fn character_table(data: Seq<u8>) -> Seq<u32> {
    Seq::new(table_len(data) as nat, |i: int| le_u32(data, 16 + 4 * i))
}

/// The glyph id of each offset among the first `upto` slots: ids count up
/// from zero in the order in which the offsets first occur.
pub open spec fn glyph_ids(table: Seq<u32>, upto: int) -> Map<u32, u32>
    decreases upto,
{
    if upto <= 0 {
        Map::empty()
    } else {
        let before = glyph_ids(table, upto - 1);
        let offset = table[upto - 1];
        if before.contains_key(offset) {
            before
        } else {
            before.insert(offset, before.len() as u32)
        }
    }
}

/// The character code of the glyph that first occurs in slot `slot`: the
/// slot's number in the textured revision, its Shift-JIS code in the legacy
/// one.
pub open spec fn slot_code(version: FntVersion, slot: int) -> u32 {
    match version {
        FntVersion::V1 => slot as u32,
        FntVersion::V0 => if slot < sjis_codes().len() {
            sjis_codes()[slot]
        } else {
            0
        },
    }
}

/// The glyph records of the first `upto` slots, by glyph id.
pub open spec fn glyph_records(
    data: Seq<u8>,
    table: Seq<u32>,
    version: FntVersion,
    upto: int,
) -> Map<u32, StoredGlyph>
    decreases upto,
{
    if upto <= 0 {
        Map::empty()
    } else {
        let before = glyph_records(data, table, version, upto - 1);
        let ids = glyph_ids(table, upto - 1);
        let offset = table[upto - 1];
        if ids.contains_key(offset) {
            before
        } else {
            before.insert(
                ids.len() as u32,
                record_at(data, offset as int, slot_code(version, upto - 1), version),
            )
        }
    }
}

/// The glyph id of each character slot.
pub open spec fn characters_of(table: Seq<u32>, upto: int) -> Map<u32, u32> {
    Map::new(|c: u32| c < upto, |c: u32| glyph_ids(table, upto)[table[c as int]])
}

/// Whether the glyph record of every slot lies in the buffer, whole.
pub open spec fn records_fit(data: Seq<u8>, table: Seq<u32>, version: FntVersion) -> bool {
    forall|i: int| 0 <= i < table.len() ==> record_fits(data, #[trigger] table[i] as int, version)
}

/// Whether the records in `glyphs` are those of `records`, id by id.
pub open spec fn holds_records(glyphs: Map<u32, LazyGlyph>, records: Map<u32, StoredGlyph>) -> bool {
    &&& forall|id: u32| glyphs.contains_key(id) <==> records.contains_key(id)
    &&& forall|id: u32| glyphs.contains_key(id) ==> (#[trigger] glyphs[id])@ == records[id]
}

/// Every one of the first `upto` slots has its offset among the ids, and
/// the ids are fewer than the slots.
pub proof fn lemma_ids_cover(table: Seq<u32>, upto: int, slot: int)
    requires
        0 <= slot < upto <= table.len(),
    ensures
        glyph_ids(table, upto).contains_key(table[slot]),
        glyph_ids(table, upto).dom().finite(),
        glyph_ids(table, upto).len() <= upto,
    decreases upto,
{
    lemma_ids_count(table, upto);
    if slot < upto - 1 {
        lemma_ids_cover(table, upto - 1, slot);
    }
}

/// There are at most as many ids as slots.
pub proof fn lemma_ids_count(table: Seq<u32>, upto: int)
    requires
        0 <= upto <= table.len(),
    ensures
        glyph_ids(table, upto).dom().finite(),
        glyph_ids(table, upto).len() <= upto,
    decreases upto,
{
    if upto > 0 {
        lemma_ids_count(table, upto - 1);
    }
}

/// Whether some offset has the glyph id `id`.
pub open spec fn id_taken(ids: Map<u32, u32>, id: u32) -> bool {
    exists|a: u32| ids.contains_key(a) && #[trigger] ids[a] == id
}

/// Offsets and glyph ids stand one to one: among the first `upto` slots,
/// exactly the offsets that occur have an id, two offsets never share one,
/// and the ids are the numbers below their count, each taken.
pub proof fn lemma_ids_one_to_one(table: Seq<u32>, upto: int)
    requires
        0 <= upto <= table.len(),
        table.len() <= u32::MAX,
    ensures
        ({
            let ids = glyph_ids(table, upto);
            &&& forall|a: u32|
                ids.contains_key(a) <==> exists|slot: int|
                    0 <= slot < upto && table[slot] == a
            &&& forall|a: u32| ids.contains_key(a) ==> #[trigger] ids[a] < ids.len()
            &&& forall|a: u32, b: u32|
                ids.contains_key(a) && ids.contains_key(b) && #[trigger] ids[a]
                    == #[trigger] ids[b] ==> a == b
            &&& forall|id: u32| id < ids.len() ==> #[trigger] id_taken(ids, id)
        }),
    decreases upto,
{
    if upto > 0 {
        lemma_ids_one_to_one(table, upto - 1);
        lemma_ids_count(table, upto - 1);
        let before = glyph_ids(table, upto - 1);
        let ids = glyph_ids(table, upto);
        let offset = table[upto - 1];
        assert forall|a: u32| ids.contains_key(a) implies exists|slot: int|
            0 <= slot < upto && table[slot] == a by {
            if a == offset {
                assert(table[upto - 1] == a);
            } else {
                let slot = choose|slot: int| 0 <= slot < upto - 1 && table[slot] == a;
                assert(0 <= slot < upto && table[slot] == a);
            }
        }
        assert forall|id: u32| id < ids.len() implies #[trigger] id_taken(ids, id) by {
            if id < before.len() {
                assert(id_taken(before, id));
                let a = choose|a: u32| before.contains_key(a) && #[trigger] before[a] == id;
                assert(ids.contains_key(a) && ids[a] == id);
            } else {
                assert(ids.contains_key(offset) && ids[offset] == id);
            }
        }
    }
}

/// Two character slots show the same glyph exactly when they hold the
/// same offset.
pub proof fn lemma_slots_share_glyphs(table: Seq<u32>, first: u32, second: u32)
    requires
        table.len() <= u32::MAX,
        first < table.len(),
        second < table.len(),
    ensures
        ({
            let characters = characters_of(table, table.len() as int);
            characters[first] == characters[second] <==> table[first as int]
                == table[second as int]
        }),
{
    let n = table.len() as int;
    lemma_ids_one_to_one(table, n);
    lemma_ids_cover(table, n, first as int);
    lemma_ids_cover(table, n, second as int);
}

/// The first slot, not before `from`, that holds `offset`; the number of
/// slots where none does.
pub open spec fn first_slot(table: Seq<u32>, offset: u32, from: int) -> int
    decreases table.len() - from,
{
    if from < 0 || from >= table.len() {
        table.len() as int
    } else if table[from] == offset {
        from
    } else {
        first_slot(table, offset, from + 1)
    }
}

/// The first slot that holds an offset is the slot before which none
/// holds it.
proof fn lemma_first_slot(table: Seq<u32>, offset: u32, from: int, slot: int)
    requires
        0 <= from <= slot < table.len(),
        table[slot] == offset,
        forall|j: int| from <= j < slot ==> table[j] != offset,
    ensures
        first_slot(table, offset, from) == slot,
    decreases slot - from,
{
    if from < slot {
        lemma_first_slot(table, offset, from + 1, slot);
    }
}

/// The glyph records are those with an id below the number of ids, and
/// the record of each offset's id is the record at that offset.
pub proof fn lemma_records_by_offset(data: Seq<u8>, table: Seq<u32>, version: FntVersion, upto: int)
    requires
        0 <= upto <= table.len(),
        table.len() <= u32::MAX,
    ensures
        ({
            let ids = glyph_ids(table, upto);
            let records = glyph_records(data, table, version, upto);
            &&& forall|id: u32| records.contains_key(id) <==> id < ids.len()
            &&& forall|a: u32|
                ids.contains_key(a) ==> #[trigger] records[ids[a]] == record_at(
                    data,
                    a as int,
                    slot_code(version, first_slot(table, a, 0)),
                    version,
                )
        }),
    decreases upto,
{
    if upto > 0 {
        lemma_records_by_offset(data, table, version, upto - 1);
        lemma_ids_one_to_one(table, upto - 1);
        lemma_ids_count(table, upto - 1);
        let before = glyph_ids(table, upto - 1);
        let ids = glyph_ids(table, upto);
        let known = glyph_records(data, table, version, upto - 1);
        let records = glyph_records(data, table, version, upto);
        let offset = table[upto - 1];
        if !before.contains_key(offset) {
            assert forall|j: int| 0 <= j < upto - 1 implies table[j] != offset by {
                if table[j] == offset {
                    assert(before.contains_key(offset));
                }
            }
            lemma_first_slot(table, offset, 0, upto - 1);
            let id = before.len() as u32;
            let record = record_at(data, offset as int, slot_code(version, upto - 1), version);
            assert(ids == before.insert(offset, id));
            assert(records == known.insert(id, record));
            assert(ids.dom() =~= before.dom().insert(offset));
            assert(ids.len() == before.len() + 1);
            assert forall|a: u32| ids.contains_key(a) implies #[trigger] records[ids[a]]
                == record_at(
                data,
                a as int,
                slot_code(version, first_slot(table, a, 0)),
                version,
            ) by {
                if a != offset {
                    assert(before.contains_key(a));
                    assert(before[a] < before.len());
                    assert(known[before[a]] == record_at(
                        data,
                        a as int,
                        slot_code(version, first_slot(table, a, 0)),
                        version,
                    ));
                }
            }
        }
    }
}

/// What a font shows in a character slot is the glyph record at the
/// slot's offset, with the character code of the first slot that holds
/// this offset.
pub proof fn lemma_slot_shows_record(data: Seq<u8>, table: Seq<u32>, version: FntVersion, slot: u32)
    requires
        table.len() <= u32::MAX,
        slot < table.len(),
    ensures
        ({
            let upto = table.len() as int;
            let offset = table[slot as int];
            let id = characters_of(table, upto)[slot];
            let records = glyph_records(data, table, version, upto);
            &&& records.contains_key(id)
            &&& records[id] == record_at(
                data,
                offset as int,
                slot_code(version, first_slot(table, offset, 0)),
                version,
            )
        }),
{
    let upto = table.len() as int;
    lemma_records_by_offset(data, table, version, upto);
    lemma_ids_one_to_one(table, upto);
    lemma_ids_cover(table, upto, slot as int);
}

/// Reads the character table.
fn read_table(data: &[u8]) -> (r: Result<Vec<u32>, FntError>)
    requires
        data@.len() >= 16,
    ensures
        r is Ok <==> table_fits(data@),
        r matches Ok(table) ==> table@ == character_table(data@),
        r matches Err(e) ==> e == FntError::TruncatedRecord,
{
    let total: usize = data.len();
    if total < 20 {
        return Err(FntError::TruncatedRecord);
    }
    let first: u32 = read_u32_le(data, 16);
    if first < 16 {
        return Err(FntError::TruncatedRecord);
    }
    let slots: u32 = (first - 16) / 4;
    if slots as usize > (total - 16) / 4 {
        return Err(FntError::TruncatedRecord);
    }
    let n: usize = slots as usize;
    let mut table: Vec<u32> = Vec::new();
    let mut i: usize = 0;
    while i < n
        invariant
            total == data@.len(),
            n == table_len(data@),
            16 + 4 * n <= total,
            i <= n,
            table@.len() == i,
            forall|j: int| 0 <= j < i ==> table@[j] == le_u32(data@, 16 + 4 * j),
        decreases n - i,
    {
        table.push(read_u32_le(data, 16 + 4 * i));
        i += 1;
    }
    assert(table@ =~= character_table(data@));
    Ok(table)
}

/// Reads the glyph record of each offset in the table once, and gives
/// each character slot its glyph id.
fn read_glyphs(data: &[u8], table: &Vec<u32>, version: FntVersion) -> (r: Result<
    (BTreeMap<u32, u32>, BTreeMap<u32, LazyGlyph>),
    FntError,
>)
    requires
        table@.len() <= u32::MAX,
    ensures
        r is Ok <==> records_fit(data@, table@, version),
        r matches Err(e) ==> e == FntError::TruncatedRecord,
        r matches Ok(read) ==> {
            &&& read.0@ == characters_of(table@, table@.len() as int)
            &&& holds_records(
                read.1@,
                glyph_records(data@, table@, version, table@.len() as int),
            )
        },
{
    let sjis_map: Vec<u32> = match version {
        FntVersion::V0 => generate_sjis_map(),
        FntVersion::V1 => Vec::new(),
    };
    let n: usize = table.len();
    let mut known: BTreeMap<u32, u32> = BTreeMap::new();
    let mut characters: BTreeMap<u32, u32> = BTreeMap::new();
    let mut lazy_glyphs: BTreeMap<u32, LazyGlyph> = BTreeMap::new();
    let mut i: usize = 0;
    assert(characters@ =~= characters_of(table@, 0));
    while i < n
        invariant
            n == table@.len(),
            n <= u32::MAX,
            i <= n,
            version == FntVersion::V0 ==> sjis_map@ == sjis_codes(),
            known@ == glyph_ids(table@, i as int),
            characters@ == characters_of(table@, i as int),
            holds_records(lazy_glyphs@, glyph_records(data@, table@, version, i as int)),
            forall|offset: u32|
                known@.contains_key(offset) ==> record_fits(data@, offset as int, version),
        decreases n - i,
    {
        let offset: u32 = table[i];
        let ghost ids = glyph_ids(table@, i as int);
        proof {
            lemma_ids_count(table@, i as int);
            assert forall|c: u32| c < i implies ids.contains_key(#[trigger] table@[c as int]) by {
                lemma_ids_cover(table@, i as int, c as int);
            }
        }
        let glyph_id: u32 = match look_up(&known, offset) {
            Some(id) => *id,
            None => {
                let id: u32 = count(&known) as u32;
                let char_code: u32 = match version {
                    FntVersion::V0 => if i < sjis_map.len() {
                        sjis_map[i]
                    } else {
                        0
                    },
                    FntVersion::V1 => i as u32,
                };
                let lazy_glyph = match LazyGlyph::from_data(
                    data,
                    offset as usize,
                    char_code,
                    version,
                ) {
                    Ok(glyph) => glyph,
                    Err(e) => {
                        assert(!record_fits(data@, table@[i as int] as int, version));
                        return Err(e);
                    },
                };
                put(&mut known, offset, id);
                put(&mut lazy_glyphs, id, lazy_glyph);
                id
            },
        };
        put(&mut characters, i as u32, glyph_id);
        assert(characters@ =~= characters_of(table@, i + 1));
        i += 1;
    }
    proof {
        assert forall|j: int| 0 <= j < table@.len() implies record_fits(
            data@,
            #[trigger] table@[j] as int,
            version,
        ) by {
            lemma_ids_cover(table@, n as int, j);
        }
    }
    Ok((characters, lazy_glyphs))
}


/// How the character codes of a revision are to be read.
pub open spec fn code_type_of(version: FntVersion) -> CodeType {
    match version {
        FntVersion::V0 => CodeType::Sjis,
        FntVersion::V1 => CodeType::Unicode,
    }
}

/// The metadata of a glyph with the given metrics.
pub open spec fn metadata_of(info: GlyphInfo, code_type: CodeType) -> GlyphMetadata {
    GlyphMetadata {
        char_code: info.char_code,
        code_type,
        bearing_x: info.bearing_x,
        bearing_y: info.bearing_y,
        advance: info.advance,
    }
}

/// The metadata of each glyph.
pub open spec fn described(glyphs: Map<u32, LazyGlyph>, code_type: CodeType) -> Map<
    u32,
    GlyphMetadata,
> {
    Map::new(
        |id: u32| glyphs.contains_key(id),
        |id: u32| metadata_of(glyphs[id].info, code_type),
    )
}

/// The metadata of each glyph.
fn describe_glyphs(lazy_glyphs: &BTreeMap<u32, LazyGlyph>, code_type: CodeType) -> (glyphs:
    BTreeMap<u32, GlyphMetadata>)
    ensures
        glyphs@ == described(lazy_glyphs@, code_type),
{
    let ids: Vec<u32> = sorted_keys(lazy_glyphs);
    let mut glyphs: BTreeMap<u32, GlyphMetadata> = BTreeMap::new();
    let mut i: usize = 0;
    while i < ids.len()
        invariant
            keys_in_order(ids@, lazy_glyphs@),
            i <= ids@.len(),
            forall|id: u32|
                glyphs@.contains_key(id) <==> exists|j: int| 0 <= j < i && ids@[j] == id,
            forall|id: u32|
                glyphs@.contains_key(id) ==> #[trigger] glyphs@[id] == metadata_of(
                    lazy_glyphs@[id].info,
                    code_type,
                ),
        decreases ids@.len() - i,
    {
        let id: u32 = ids[i];
        assert(lazy_glyphs@.contains_key(ids@[i as int]));
        match look_up(lazy_glyphs, id) {
            Some(lazy_glyph) => {
                let info = &lazy_glyph.info;
                put(
                    &mut glyphs,
                    id,
                    GlyphMetadata {
                        char_code: info.char_code,
                        code_type,
                        bearing_x: info.bearing_x,
                        bearing_y: info.bearing_y,
                        advance: info.advance,
                    },
                );
            },
            None => {},
        }
        i += 1;
    }
    proof {
        assert forall|id: u32| lazy_glyphs@.contains_key(id) implies glyphs@.contains_key(id) by {
            assert(ids@.contains(id));
        }
        assert(glyphs@ =~= described(lazy_glyphs@, code_type));
    }
    glyphs
}

/// Why a buffer is not a font, if it is none: the first of these that
/// holds. The tag is missing; the layout shows no revision; the declared
/// length is not the buffer's; the table or a record runs past the end.
pub open spec fn parse_failure(data: Seq<u8>) -> Option<FntError> {
    if !has_magic(data) {
        Some(FntError::InvalidHeader)
    } else if version_of(data) is None {
        Some(FntError::UnknownVersion)
    } else if le_u32(data, file_size_at(version_of(data)->0)) != data.len() {
        Some(FntError::SizeMismatch)
    } else if !table_fits(data) || !records_fit(
        data,
        character_table(data),
        version_of(data)->0,
    ) {
        Some(FntError::TruncatedRecord)
    } else {
        None
    }
}

/// Whether `fnt` is the font that `data` holds.
pub open spec fn holds_font(fnt: Fnt, data: Seq<u8>) -> bool {
    let version = version_of(data)->0;
    let at = file_size_at(version);
    let table = character_table(data);
    &&& fnt.metadata.version == version
    &&& fnt.metadata.ascent == le_u16(data, at + 4)
    &&& fnt.metadata.descent == le_u16(data, at + 6)
    &&& fnt.glyph_offsets@ == table
    &&& fnt.metadata.characters@ == characters_of(table, table.len() as int)
    &&& holds_records(fnt.lazy_glyphs@, glyph_records(data, table, version, table.len() as int))
    &&& fnt.metadata.glyphs@ == described(fnt.lazy_glyphs@, code_type_of(version))
    &&& fnt.metadata.mipmap_level == detected_levels(fnt.lazy_glyphs@)
}

impl Fnt {
    /// Reads a font from the bytes of its file.
    ///
    /// Every character slot gets the id of its glyph; slots with the same
    /// offset share one glyph, which is read once. Nothing is returned of
    /// a buffer of which anything is missing or malformed.
    pub fn from_data(data: &[u8]) -> (r: Result<Fnt, FntError>)
        ensures
            r is Err <==> parse_failure(data@) is Some,
            r matches Err(e) ==> parse_failure(data@) == Some(e),
            r matches Ok(fnt) ==> holds_font(fnt, data@),
    {
        let header = match FntHeader::parse(data) {
            Ok(header) => header,
            Err(e) => {
                return Err(e);
            },
        };
        if header.file_size as usize != data.len() {
            return Err(FntError::SizeMismatch);
        }
        let character_table: Vec<u32> = match read_table(data) {
            Ok(table) => table,
            Err(e) => {
                return Err(e);
            },
        };
        let (characters, lazy_glyphs) = match read_glyphs(data, &character_table, header.version) {
            Ok(read) => read,
            Err(e) => {
                return Err(e);
            },
        };
        let code_type: CodeType = match header.version {
            FntVersion::V0 => CodeType::Sjis,
            FntVersion::V1 => CodeType::Unicode,
        };
        let mipmap_level: usize = detect_mipmap_level(&lazy_glyphs);
        let glyphs: BTreeMap<u32, GlyphMetadata> = describe_glyphs(&lazy_glyphs, code_type);
        let metadata = FntMetadata {
            version: header.version,
            mipmap_level,
            ascent: header.ascent,
            descent: header.descent,
            characters,
            glyphs,
        };
        Ok(Fnt { metadata, lazy_glyphs, glyph_offsets: character_table })
    }
}

/// A buffer whose header declares another length than the buffer has is
/// no font: it is refused for that.
pub proof fn lemma_wrong_size_refused(data: Seq<u8>)
    requires
        has_magic(data),
        version_of(data) is Some,
        le_u32(data, file_size_at(version_of(data)->0)) != data.len(),
    ensures
        parse_failure(data) == Some(FntError::SizeMismatch),
{
}

/// Changing one byte of the declared length of a font makes it no font.
/// In the legacy layout the change must not turn the length into the mark
/// of the textured layout.
pub proof fn lemma_size_byte_changed(data: Seq<u8>, which: int, byte: u8)
    requires
        parse_failure(data) is None,
        0 <= which < 4,
        byte != data[file_size_at(version_of(data)->0) + which],
        version_of(data.update(file_size_at(version_of(data)->0) + which, byte)) == version_of(
            data,
        ),
    ensures
        parse_failure(data.update(file_size_at(version_of(data)->0) + which, byte)) == Some(
            FntError::SizeMismatch,
        ),
{
    let at = file_size_at(version_of(data)->0);
    let changed = data.update(at + which, byte);
    assert(changed.len() == data.len());
    assert(has_magic(changed));
    assert(le_u32(changed, at) != le_u32(data, at));
}


/// The glyph record that a processed glyph becomes.
pub open spec fn stored_of(glyph: ProcessedGlyph) -> StoredGlyph {
    StoredGlyph {
        info: GlyphInfo {
            bearing_x: glyph.glyph_info.bearing_x,
            bearing_y: glyph.glyph_info.bearing_y,
            advance: glyph.glyph_info.advance,
            actual_width: glyph.actual_width,
            actual_height: glyph.actual_height,
            texture_width: glyph.texture_width,
            texture_height: glyph.texture_height,
            char_code: glyph.glyph_info.char_code,
        },
        texture_size: (glyph.texture_width, glyph.texture_height),
        data: glyph.data@,
        is_compressed: glyph.compressed_size > 0,
    }
}

impl Fnt {
    /// A font of the given metadata and glyphs: each processed glyph
    /// becomes the glyph record of its id.
    pub fn from_processed_glyphs(
        metadata: FntMetadata,
        processed_glyphs: BTreeMap<u32, ProcessedGlyph>,
    ) -> (fnt: Fnt)
        ensures
            fnt.metadata == metadata,
            fnt.glyph_offsets@.len() == 0,
            forall|id: u32| fnt.lazy_glyphs@.contains_key(id) <==> processed_glyphs@.contains_key(id),
            forall|id: u32|
                fnt.lazy_glyphs@.contains_key(id) ==> (#[trigger] fnt.lazy_glyphs@[id])@
                    == stored_of(processed_glyphs@[id]),
    {
        let ids: Vec<u32> = sorted_keys(&processed_glyphs);
        let mut remaining: BTreeMap<u32, ProcessedGlyph> = processed_glyphs;
        let mut lazy_glyphs: BTreeMap<u32, LazyGlyph> = BTreeMap::new();
        let mut i: usize = 0;
        proof {
            assert forall|id: u32| remaining@.contains_key(id) implies exists|j: int|
                0 <= j < ids@.len() && ids@[j] == id by {
                assert(ids@.contains(id));
            }
        }
        while i < ids.len()
            invariant
                keys_in_order(ids@, processed_glyphs@),
                i <= ids@.len(),
                forall|id: u32|
                    remaining@.contains_key(id) <==> exists|j: int|
                        i <= j < ids@.len() && ids@[j] == id,
                forall|id: u32|
                    remaining@.contains_key(id) ==> #[trigger] remaining@[id]
                        == processed_glyphs@[id],
                forall|id: u32|
                    lazy_glyphs@.contains_key(id) <==> exists|j: int| 0 <= j < i && ids@[j] == id,
                forall|id: u32|
                    lazy_glyphs@.contains_key(id) ==> (#[trigger] lazy_glyphs@[id])@ == stored_of(
                        processed_glyphs@[id],
                    ),
            decreases ids@.len() - i,
        {
            let id: u32 = ids[i];
            assert(remaining@.contains_key(ids@[i as int]));
            match take_out(&mut remaining, id) {
                Some(pg) => {
                    let is_compressed: bool = pg.compressed_size > 0;
                    let info = GlyphInfo {
                        bearing_x: pg.glyph_info.bearing_x,
                        bearing_y: pg.glyph_info.bearing_y,
                        advance: pg.glyph_info.advance,
                        actual_width: pg.actual_width,
                        actual_height: pg.actual_height,
                        texture_width: pg.texture_width,
                        texture_height: pg.texture_height,
                        char_code: pg.glyph_info.char_code,
                    };
                    let lazy_glyph = LazyGlyph {
                        info,
                        texture_size: (pg.texture_width, pg.texture_height),
                        glyph_data: GlyphData { data: pg.data, is_compressed },
                    };
                    put(&mut lazy_glyphs, id, lazy_glyph);
                },
                None => {},
            }
            proof {
                assert forall|key: u32| remaining@.contains_key(key) implies exists|j: int|
                    i + 1 <= j < ids@.len() && ids@[j] == key by {
                    let j = choose|j: int| i <= j < ids@.len() && ids@[j] == key;
                    assert(j != i);
                }
            }
            i += 1;
        }
        proof {
            assert forall|id: u32| processed_glyphs@.contains_key(id) implies lazy_glyphs@.contains_key(
                id,
            ) by {
                assert(ids@.contains(id));
            }
        }
        Fnt { metadata, lazy_glyphs, glyph_offsets: Vec::new() }
    }
}


/// Where the glyph records of a written font start: behind the header and
/// a table of 65536 slots.
pub open spec fn glyph_region_start() -> int {
    262160
}

/// The length of a glyph's record in a written font.
pub open spec fn record_len(glyph: LazyGlyph) -> int {
    glyph.glyph_data.data@.len() as int + 10
}

/// The offset of the record of glyph number `k` in the order of ids: the
/// records follow the table one after the other.
pub open spec fn offset_at(glyphs: Map<u32, LazyGlyph>, ids: Seq<u32>, k: int) -> int
    decreases k,
{
    if k <= 0 {
        glyph_region_start()
    } else {
        offset_at(glyphs, ids, k - 1) + record_len(glyphs[ids[k - 1]])
    }
}

/// The offsets of the records of the first `upto` glyphs, by glyph id.
pub open spec fn record_offsets(glyphs: Map<u32, LazyGlyph>, ids: Seq<u32>, upto: int) -> Map<
    u32,
    u32,
>
    decreases upto,
{
    if upto <= 0 {
        Map::empty()
    } else {
        record_offsets(glyphs, ids, upto - 1).insert(
            ids[upto - 1],
            offset_at(glyphs, ids, upto - 1) as u32,
        )
    }
}

/// The header of a glyph's record in a written font.
pub open spec fn stored_header(glyph: LazyGlyph) -> GlyphHeader {
    GlyphHeader {
        bearing_x: glyph.info.bearing_x,
        bearing_y: glyph.info.bearing_y,
        actual_width: glyph.info.actual_width,
        actual_height: glyph.info.actual_height,
        advance: glyph.info.advance,
        unused: 0,
        texture_width: glyph.info.texture_width,
        texture_height: glyph.info.texture_height,
        compressed_size: if glyph.glyph_data.is_compressed {
            glyph.glyph_data.data@.len() as u16
        } else {
            0
        },
    }
}

/// A glyph's record in a written font: header, then payload.
pub open spec fn record_bytes(glyph: LazyGlyph) -> Seq<u8> {
    stored_header(glyph).bytes_v1() + glyph.glyph_data.data@
}

/// The records of the first `upto` glyphs in the order of ids.
pub open spec fn records_bytes(glyphs: Map<u32, LazyGlyph>, ids: Seq<u32>, upto: int) -> Seq<u8>
    decreases upto,
{
    if upto <= 0 {
        Seq::empty()
    } else {
        records_bytes(glyphs, ids, upto - 1) + record_bytes(glyphs[ids[upto - 1]])
    }
}

/// The table entry of a character slot: the offset of its glyph's record.
/// A slot without a glyph, or with the id of none, points at the start of
/// the glyph region, where the glyph with the smallest id lies.
pub open spec fn slot_offset(characters: Map<u32, u32>, offsets: Map<u32, u32>, slot: u32) -> u32 {
    if characters.contains_key(slot) && offsets.contains_key(characters[slot]) {
        offsets[characters[slot]]
    } else {
        glyph_region_start() as u32
    }
}

/// The first `upto` entries of the character table of a written font.
pub open spec fn table_bytes(characters: Map<u32, u32>, offsets: Map<u32, u32>, upto: int) -> Seq<
    u8,
>
    decreases upto,
{
    if upto <= 0 {
        Seq::empty()
    } else {
        table_bytes(characters, offsets, upto - 1) + u32_le_bytes(
            slot_offset(characters, offsets, (upto - 1) as u32),
        )
    }
}

/// Whether a glyph's payload is compressed and too long for the header
/// to say how long.
pub open spec fn oversized(glyph: LazyGlyph) -> bool {
    glyph.glyph_data.is_compressed && glyph.glyph_data.data@.len() > 0xffff
}

/// The length of the written font.
pub open spec fn written_len(fnt: Fnt) -> int {
    let ids = ordered_ids(fnt.lazy_glyphs@);
    offset_at(fnt.lazy_glyphs@, ids, ids.len() as int)
}

/// Why a font cannot be written, if it cannot: it is of the legacy
/// revision; or a length does not fit the field that declares it, be it the
/// file's or that of a compressed payload.
pub open spec fn write_failure(fnt: Fnt) -> Option<FntError> {
    let ids = ordered_ids(fnt.lazy_glyphs@);
    if fnt.metadata.version == FntVersion::V0 {
        Some(FntError::UnsupportedOperation)
    } else if written_len(fnt) > u32::MAX || exists|k: int|
        0 <= k < ids.len() && oversized(#[trigger] fnt.lazy_glyphs@[ids[k]]) {
        Some(FntError::SizeMismatch)
    } else {
        None
    }
}

/// The bytes of a font of the textured revision: header, a table of 65536
/// slots, and the glyph records in the order of their ids.
pub open spec fn serialized(fnt: Fnt) -> Seq<u8> {
    let glyphs = fnt.lazy_glyphs@;
    let ids = ordered_ids(glyphs);
    let count = ids.len() as int;
    header_bytes_of(
        magic_bytes(),
        FntVersion::V1,
        written_len(fnt) as u32,
        fnt.metadata.ascent,
        fnt.metadata.descent,
    ) + table_bytes(fnt.metadata.characters@, record_offsets(glyphs, ids, count), 65536)
        + records_bytes(glyphs, ids, count)
}

/// The offsets do not fall from one glyph to the next.
pub proof fn lemma_offsets_rise(glyphs: Map<u32, LazyGlyph>, ids: Seq<u32>, k: int, later: int)
    requires
        0 <= k <= later,
    ensures
        glyph_region_start() <= offset_at(glyphs, ids, k) <= offset_at(glyphs, ids, later),
    decreases later,
{
    if later > k {
        lemma_offsets_rise(glyphs, ids, k, later - 1);
    } else if k > 0 {
        lemma_offsets_rise(glyphs, ids, k - 1, k - 1);
    }
}

/// Where each glyph's record will lie, by glyph id; the length the font
/// will have.
fn lay_out(lazy_glyphs: &BTreeMap<u32, LazyGlyph>, ids: &Vec<u32>) -> (r: Result<
    (BTreeMap<u32, u32>, u32),
    FntError,
>)
    requires
        ids@ == ordered_ids(lazy_glyphs@),
        keys_in_order(ids@, lazy_glyphs@),
    ensures
        r is Err <==> (offset_at(lazy_glyphs@, ids@, ids@.len() as int) > u32::MAX || exists|
            k: int,
        |
            0 <= k < ids@.len() && oversized(#[trigger] lazy_glyphs@[ids@[k]])),
        r matches Err(e) ==> e == FntError::SizeMismatch,
        r matches Ok(laid) ==> {
            &&& laid.0@ == record_offsets(lazy_glyphs@, ids@, ids@.len() as int)
            &&& laid.1 == offset_at(lazy_glyphs@, ids@, ids@.len() as int)
        },
{
    let mut offsets: BTreeMap<u32, u32> = BTreeMap::new();
    let mut current: u64 = 16 + 65536 * 4;
    let mut k: usize = 0;
    while k < ids.len()
        invariant
            keys_in_order(ids@, lazy_glyphs@),
            k <= ids@.len(),
            current == offset_at(lazy_glyphs@, ids@, k as int),
            current <= u32::MAX,
            offsets@ == record_offsets(lazy_glyphs@, ids@, k as int),
            forall|j: int| 0 <= j < k ==> !oversized(#[trigger] lazy_glyphs@[ids@[j]]),
        decreases ids@.len() - k,
    {
        let id: u32 = ids[k];
        assert(lazy_glyphs@.contains_key(ids@[k as int]));
        match look_up(lazy_glyphs, id) {
            Some(lazy_glyph) => {
                let len: usize = lazy_glyph.glyph_data.data.len();
                if lazy_glyph.glyph_data.is_compressed && len > 0xffff {
                    return Err(FntError::SizeMismatch);
                }
                proof {
                    lemma_offsets_rise(lazy_glyphs@, ids@, k + 1, ids@.len() as int);
                }
                if len > 0xffff_ffff {
                    return Err(FntError::SizeMismatch);
                }
                put(&mut offsets, id, current as u32);
                current = current + 10 + len as u64;
                if current > 0xffff_ffff {
                    return Err(FntError::SizeMismatch);
                }
            },
            None => {},
        }
        k += 1;
    }
    Ok((offsets, current as u32))
}

/// Appends the character table of 65536 slots.
fn write_table(out: &mut Vec<u8>, characters: &BTreeMap<u32, u32>, offsets: &BTreeMap<u32, u32>)
    ensures
        final(out)@ == old(out)@ + table_bytes(characters@, offsets@, 65536),
{
    let region: u32 = 16 + 65536 * 4;
    let mut slot: u32 = 0;
    assert(out@ =~= old(out)@ + table_bytes(characters@, offsets@, 0));
    while slot < 65536
        invariant
            slot <= 65536,
            region == glyph_region_start(),
            out@ == old(out)@ + table_bytes(characters@, offsets@, slot as int),
        decreases 65536 - slot,
    {
        let offset: u32 = match look_up(characters, slot) {
            Some(glyph_id) => match look_up(offsets, *glyph_id) {
                Some(found) => *found,
                None => region,
            },
            None => region,
        };
        let ghost before = out@;
        push_u32_le(out, offset);
        assert(out@ =~= old(out)@ + table_bytes(characters@, offsets@, slot + 1)) by {
            assert(offset == slot_offset(characters@, offsets@, slot));
            assert(table_bytes(characters@, offsets@, slot + 1) == table_bytes(
                characters@,
                offsets@,
                slot as int,
            ) + u32_le_bytes(offset));
        }
        slot += 1;
    }
}

/// Appends the glyph records in the order of their ids.
fn write_records(out: &mut Vec<u8>, lazy_glyphs: &BTreeMap<u32, LazyGlyph>, ids: &Vec<u32>)
    requires
        keys_in_order(ids@, lazy_glyphs@),
        forall|j: int| 0 <= j < ids@.len() ==> !oversized(#[trigger] lazy_glyphs@[ids@[j]]),
    ensures
        final(out)@ == old(out)@ + records_bytes(lazy_glyphs@, ids@, ids@.len() as int),
{
    let mut k: usize = 0;
    assert(out@ =~= old(out)@ + records_bytes(lazy_glyphs@, ids@, 0));
    while k < ids.len()
        invariant
            keys_in_order(ids@, lazy_glyphs@),
            forall|j: int| 0 <= j < ids@.len() ==> !oversized(#[trigger] lazy_glyphs@[ids@[j]]),
            k <= ids@.len(),
            out@ == old(out)@ + records_bytes(lazy_glyphs@, ids@, k as int),
        decreases ids@.len() - k,
    {
        let id: u32 = ids[k];
        assert(lazy_glyphs@.contains_key(ids@[k as int]));
        match look_up(lazy_glyphs, id) {
            Some(lazy_glyph) => {
                assert(!oversized(lazy_glyphs@[ids@[k as int]]));
                let compressed_size: u16 = if lazy_glyph.glyph_data.is_compressed {
                    lazy_glyph.glyph_data.data.len() as u16
                } else {
                    0
                };
                let glyph_header = GlyphHeader {
                    bearing_x: lazy_glyph.info.bearing_x,
                    bearing_y: lazy_glyph.info.bearing_y,
                    actual_width: lazy_glyph.info.actual_width,
                    actual_height: lazy_glyph.info.actual_height,
                    advance: lazy_glyph.info.advance,
                    unused: 0,
                    texture_width: lazy_glyph.info.texture_width,
                    texture_height: lazy_glyph.info.texture_height,
                    compressed_size,
                };
                let header_bytes: Vec<u8> = glyph_header.to_bytes_v1();
                let ghost before = out@;
                out.extend_from_slice(header_bytes.as_slice());
                out.extend_from_slice(lazy_glyph.glyph_data.data.as_slice());
                assert(out@ =~= before + record_bytes(*lazy_glyph));
                assert(out@ =~= old(out)@ + records_bytes(lazy_glyphs@, ids@, k + 1));
            },
            None => {},
        }
        k += 1;
    }
}

impl Fnt {
    /// The bytes of the font's file. Only the textured revision can be
    /// written.
    pub fn write(&self) -> (r: Result<Vec<u8>, FntError>)
        ensures
            r is Err <==> write_failure(*self) is Some,
            r matches Err(e) ==> write_failure(*self) == Some(e),
            r matches Ok(bytes) ==> bytes@ == serialized(*self),
    {
        match self.metadata.version {
            FntVersion::V0 => {
                return Err(FntError::UnsupportedOperation);
            },
            FntVersion::V1 => {},
        }
        let ids: Vec<u32> = sorted_keys(&self.lazy_glyphs);
        let (offsets, total_file_size) = match lay_out(&self.lazy_glyphs, &ids) {
            Ok(laid) => laid,
            Err(e) => {
                return Err(e);
            },
        };
        let header = FntHeader {
            magic: [0x46, 0x4E, 0x54, 0x34],
            version: FntVersion::V1,
            file_size: total_file_size,
            ascent: self.metadata.ascent,
            descent: self.metadata.descent,
        };
        assert(header.magic@ =~= magic_bytes());
        let mut out: Vec<u8> = header.to_bytes();
        write_table(&mut out, &self.metadata.characters, &offsets);
        write_records(&mut out, &self.lazy_glyphs, &ids);
        Ok(out)
    }
}

} // verus!
