//! Glyph records: their headers, their stored payloads and their pixels.

use crate::bytes::{le_u16, push_u16_le, read_u16_le, u16_le_bytes};
use crate::error::FntError;
use crate::lz77::stream::{decode, valid_profile};
use crate::metadata::{FntVersion, GlyphMetadata};
use crate::ordered::put_level;
use std::collections::BTreeMap;
pub use crate::texture::{encode_glyph_texture, EncodedTexture};
use vstd::prelude::*;

verus! {

/// The signed value of a byte in two's complement.
pub open spec fn signed_byte(b: u8) -> i8 {
    if b < 128 {
        b as i8
    } else {
        (b - 256) as i8
    }
}

/// The byte that stands for a signed value in two's complement.
pub open spec fn unsigned_byte(v: i8) -> u8 {
    if v >= 0 {
        v as u8
    } else {
        (v + 256) as u8
    }
}

/// The signed value of a byte in two's complement.
fn to_signed(b: u8) -> (v: i8)
    ensures
        v == signed_byte(b),
{
    if b < 128 {
        b as i8
    } else {
        (b as i16 - 256) as i8
    }
}

/// The byte that stands for a signed value in two's complement.
fn to_unsigned(v: i8) -> (b: u8)
    ensures
        b == unsigned_byte(v),
{
    if v >= 0 {
        v as u8
    } else {
        (v as i16 + 256) as u8
    }
}

/// The header of a glyph record as it is stored.
#[derive(Debug, Clone, Copy, PartialEq, Eq, Structural)]
pub struct GlyphHeader {
    pub bearing_x: i8,
    pub bearing_y: i8,
    pub actual_width: u8,
    pub actual_height: u8,
    pub advance: u8,
    /// Zero in the textured revision; of unknown meaning in the legacy one.
    pub unused: u8,
    /// Stored in the textured revision only.
    pub texture_width: u8,
    /// Stored in the textured revision only.
    pub texture_height: u8,
    /// The length of the compressed payload; zero where it is stored raw.
    pub compressed_size: u16,
}

/// The length of a glyph header in the given revision.
pub open spec fn glyph_header_size(version: FntVersion) -> int {
    match version {
        FntVersion::V0 => 8,
        FntVersion::V1 => 10,
    }
}

impl GlyphHeader {
    /// The length of a header in the legacy revision.
    pub const SIZE_V0: usize = 8;

    /// The length of a header in the textured revision.
    pub const SIZE_V1: usize = 10;

    /// The header that the bytes at `offset` stand for. The legacy
    /// revision stores no texture size: it reads as zero.
    pub open spec fn parsed(data: Seq<u8>, offset: int, version: FntVersion) -> GlyphHeader {
        GlyphHeader {
            bearing_x: signed_byte(data[offset]),
            bearing_y: signed_byte(data[offset + 1]),
            actual_width: data[offset + 2],
            actual_height: data[offset + 3],
            advance: data[offset + 4],
            unused: data[offset + 5],
            texture_width: if version == FntVersion::V1 {
                data[offset + 6]
            } else {
                0
            },
            texture_height: if version == FntVersion::V1 {
                data[offset + 7]
            } else {
                0
            },
            compressed_size: if version == FntVersion::V1 {
                le_u16(data, offset + 8)
            } else {
                le_u16(data, offset + 6)
            },
        }
    }

    /// The ten bytes of the header in the textured revision.
    pub open spec fn bytes_v1(self) -> Seq<u8> {
        seq![
            unsigned_byte(self.bearing_x),
            unsigned_byte(self.bearing_y),
            self.actual_width,
            self.actual_height,
            self.advance,
            self.unused,
            self.texture_width,
            self.texture_height,
        ] + u16_le_bytes(self.compressed_size)
    }

    /// Reads the header that starts at `offset`, and fails where the
    /// buffer ends before the header does.
    pub fn parse(data: &[u8], offset: usize, version: FntVersion) -> (r: Result<Self, FntError>)
        ensures
            r is Err <==> offset + glyph_header_size(version) > data@.len(),
            r matches Err(e) ==> e == FntError::TruncatedRecord,
            r matches Ok(header) ==> header == Self::parsed(data@, offset as int, version),
    {
        let size: usize = match version {
            FntVersion::V0 => Self::SIZE_V0,
            FntVersion::V1 => Self::SIZE_V1,
        };
        if data.len() < size || offset > data.len() - size {
            return Err(FntError::TruncatedRecord);
        }
        match version {
            FntVersion::V1 => Ok(
                GlyphHeader {
                    bearing_x: to_signed(data[offset]),
                    bearing_y: to_signed(data[offset + 1]),
                    actual_width: data[offset + 2],
                    actual_height: data[offset + 3],
                    advance: data[offset + 4],
                    unused: data[offset + 5],
                    texture_width: data[offset + 6],
                    texture_height: data[offset + 7],
                    compressed_size: read_u16_le(data, offset + 8),
                },
            ),
            FntVersion::V0 => Ok(
                GlyphHeader {
                    bearing_x: to_signed(data[offset]),
                    bearing_y: to_signed(data[offset + 1]),
                    actual_width: data[offset + 2],
                    actual_height: data[offset + 3],
                    advance: data[offset + 4],
                    unused: data[offset + 5],
                    texture_width: 0,
                    texture_height: 0,
                    compressed_size: read_u16_le(data, offset + 6),
                },
            ),
        }
    }

    /// The length of the header in the given revision.
    pub fn size(&self, version: FntVersion) -> (n: usize)
        ensures
            n == glyph_header_size(version),
    {
        match version {
            FntVersion::V0 => Self::SIZE_V0,
            FntVersion::V1 => Self::SIZE_V1,
        }
    }

    /// The header's bytes in the textured revision.
    pub fn to_bytes_v1(&self) -> (out: Vec<u8>)
        ensures
            out@ == self.bytes_v1(),
            out@.len() == 10,
    {
        let mut result: Vec<u8> = Vec::with_capacity(Self::SIZE_V1);
        result.push(to_unsigned(self.bearing_x));
        result.push(to_unsigned(self.bearing_y));
        result.push(self.actual_width);
        result.push(self.actual_height);
        result.push(self.advance);
        result.push(self.unused);
        result.push(self.texture_width);
        result.push(self.texture_height);
        assert(result@ =~= self.bytes_v1().take(8));
        push_u16_le(&mut result, self.compressed_size);
        assert(result@ =~= self.bytes_v1());
        result
    }
}

/// A header of the textured revision, written and read back, is the
/// header that was written.
pub proof fn lemma_glyph_header_read_back(header: GlyphHeader)
    ensures
        GlyphHeader::parsed(header.bytes_v1(), 0, FntVersion::V1) == header,
{
    let bytes = header.bytes_v1();
    assert(bytes[8] == u16_le_bytes(header.compressed_size)[0]);
    assert(bytes[9] == u16_le_bytes(header.compressed_size)[1]);
}

/// A glyph's metrics, sizes and character code.
#[derive(Debug, Clone, Copy, PartialEq, Eq, Structural)]
pub struct GlyphInfo {
    pub bearing_x: i8,
    pub bearing_y: i8,
    pub advance: u8,
    pub actual_width: u8,
    pub actual_height: u8,
    pub texture_width: u8,
    pub texture_height: u8,
    /// A Unicode scalar in the textured revision, a Shift-JIS code in the
    /// legacy one.
    pub char_code: u32,
}

impl GlyphInfo {
    /// What a header says of its glyph. In the legacy revision the
    /// texture has the size of the visible bitmap.
    pub open spec fn of_header(header: GlyphHeader, char_code: u32, version: FntVersion) -> GlyphInfo {
        GlyphInfo {
            bearing_x: header.bearing_x,
            bearing_y: header.bearing_y,
            advance: header.advance,
            actual_width: header.actual_width,
            actual_height: header.actual_height,
            texture_width: if version == FntVersion::V1 {
                header.texture_width
            } else {
                header.actual_width
            },
            texture_height: if version == FntVersion::V1 {
                header.texture_height
            } else {
                header.actual_height
            },
            char_code,
        }
    }

    /// What a header says of its glyph.
    pub fn from_header(header: &GlyphHeader, char_code: u32, version: FntVersion) -> (info: Self)
        ensures
            info == Self::of_header(*header, char_code, version),
    {
        let textured: bool = match version {
            FntVersion::V1 => true,
            FntVersion::V0 => false,
        };
        GlyphInfo {
            bearing_x: header.bearing_x,
            bearing_y: header.bearing_y,
            advance: header.advance,
            actual_width: header.actual_width,
            actual_height: header.actual_height,
            texture_width: if textured {
                header.texture_width
            } else {
                header.actual_width
            },
            texture_height: if textured {
                header.texture_height
            } else {
                header.actual_height
            },
            char_code,
        }
    }

    /// Width and height of the visible bitmap.
    pub fn actual_size(&self) -> (size: (u8, u8))
        ensures
            size == (self.actual_width, self.actual_height),
    {
        (self.actual_width, self.actual_height)
    }

    /// Width and height of the stored texture.
    pub fn texture_size(&self) -> (size: (u8, u8))
        ensures
            size == (self.texture_width, self.texture_height),
    {
        (self.texture_width, self.texture_height)
    }
}

/// A glyph's payload as it is stored.
#[derive(Debug)]
pub struct GlyphData {
    pub data: Vec<u8>,
    pub is_compressed: bool,
}

impl Clone for GlyphData {
    fn clone(&self) -> (out: Self)
        ensures
            out.data@ == self.data@,
            out.is_compressed == self.is_compressed,
    {
        GlyphData { data: self.data.clone(), is_compressed: self.is_compressed }
    }
}

impl GlyphData {
    /// The bytes that the payload stands for under the given profile:
    /// itself where it is stored raw.
    pub open spec fn unpacked(self, low_bits: usize, ref_bytes: usize) -> Seq<u8> {
        if self.is_compressed {
            decode(self.data@, low_bits, ref_bytes)
        } else {
            self.data@
        }
    }

    /// The payload's bytes, decompressed where it is stored compressed.
    pub fn decompress(&self, seek_bits: usize, backseek_nbyte: usize) -> (out: Vec<u8>)
        requires
            valid_profile(seek_bits, backseek_nbyte),
        ensures
            out@ == self.unpacked(seek_bits, backseek_nbyte),
    {
        if self.is_compressed {
            crate::lz77::decompress(self.data.as_slice(), seek_bits, backseek_nbyte)
        } else {
            self.data.clone()
        }
    }
}


/// A texture dimension at a mip level: halved once for each level, rounding
/// down.
pub open spec fn halved(v: int, level: int) -> int
    decreases level,
{
    if level <= 0 {
        v
    } else {
        halved(v, level - 1) / 2
    }
}

/// The number of bytes of mip level `level` of a texture of `w` by `h`.
pub open spec fn level_size(w: int, h: int, level: int) -> int {
    halved(w, level) * halved(h, level)
}

/// The number of bytes of the first `levels` mip levels together.
pub open spec fn levels_size(w: int, h: int, levels: int) -> int
    decreases levels,
{
    if levels <= 0 {
        0
    } else {
        levels_size(w, h, levels - 1) + level_size(w, h, levels - 1)
    }
}

/// The length of a raw payload of the textured revision: four mip levels,
/// of which those with an empty side take no bytes.
pub open spec fn textured_payload_size(w: int, h: int) -> int {
    levels_size(w, h, 4)
}

/// The length of a raw payload of the legacy revision: rows of two pixels
/// to the byte.
pub open spec fn legacy_payload_size(w: int, h: int) -> int {
    ((w + 1) / 2) * h
}

/// The length of the raw payload that a header announces.
pub open spec fn payload_size(header: GlyphHeader, version: FntVersion) -> int {
    match version {
        FntVersion::V1 => textured_payload_size(
            header.texture_width as int,
            header.texture_height as int,
        ),
        FntVersion::V0 => legacy_payload_size(
            header.actual_width as int,
            header.actual_height as int,
        ),
    }
}

/// The number of payload bytes stored behind a header: the compressed
/// length where there is one, else the raw length.
pub open spec fn stored_size(header: GlyphHeader, version: FntVersion) -> int {
    if header.compressed_size == 0 {
        payload_size(header, version)
    } else {
        header.compressed_size as int
    }
}

/// Whether a whole glyph record, header and payload, lies in `data` from
/// `offset` on.
pub open spec fn record_fits(data: Seq<u8>, offset: int, version: FntVersion) -> bool {
    &&& offset + glyph_header_size(version) <= data.len()
    &&& offset + glyph_header_size(version) + stored_size(
        GlyphHeader::parsed(data, offset, version),
        version,
    ) <= data.len()
}

/// A glyph record as read from a font: the payload is kept as stored.
#[derive(Debug)]
pub struct LazyGlyph {
    pub info: GlyphInfo,
    pub texture_size: (u8, u8),
    pub glyph_data: GlyphData,
}

/// What a glyph record holds.
pub struct StoredGlyph {
    pub info: GlyphInfo,
    pub texture_size: (u8, u8),
    pub data: Seq<u8>,
    pub is_compressed: bool,
}

impl View for LazyGlyph {
    type V = StoredGlyph;

    open spec fn view(&self) -> StoredGlyph {
        StoredGlyph {
            info: self.info,
            texture_size: self.texture_size,
            data: self.glyph_data.data@,
            is_compressed: self.glyph_data.is_compressed,
        }
    }
}

impl Clone for LazyGlyph {
    fn clone(&self) -> (out: Self)
        ensures
            out@ == self@,
    {
        LazyGlyph {
            info: self.info,
            texture_size: self.texture_size,
            glyph_data: self.glyph_data.clone(),
        }
    }
}

/// The glyph record that lies in `data` at `offset`.
pub open spec fn record_at(data: Seq<u8>, offset: int, char_code: u32, version: FntVersion) -> StoredGlyph {
    let header = GlyphHeader::parsed(data, offset, version);
    let info = GlyphInfo::of_header(header, char_code, version);
    let start = offset + glyph_header_size(version);
    StoredGlyph {
        info,
        texture_size: (info.texture_width, info.texture_height),
        data: data.subrange(start, start + stored_size(header, version)),
        is_compressed: header.compressed_size != 0,
    }
}

/// The payload of a texture whose sides fit a byte each has a length
/// that is not negative and is given by the four level sizes.
pub proof fn lemma_sizes_bounded(w: int, h: int)
    requires
        0 <= w <= 255,
        0 <= h <= 255,
    ensures
        levels_size(w, h, 4) == w * h + (w / 2) * (h / 2) + (w / 2 / 2) * (h / 2 / 2) + (w / 2 / 2
            / 2) * (h / 2 / 2 / 2),
        0 <= levels_size(w, h, 4) <= 4 * 65025,
        0 <= legacy_payload_size(w, h) <= 65025,
{
    reveal_with_fuel(halved, 4);
    reveal_with_fuel(levels_size, 5);
    assert(0 <= w * h <= 65025) by (nonlinear_arith)
        requires
            0 <= w <= 255,
            0 <= h <= 255,
    ;
    assert(0 <= (w / 2) * (h / 2) <= 65025) by (nonlinear_arith)
        requires
            0 <= w / 2 <= 255,
            0 <= h / 2 <= 255,
    ;
    assert(0 <= (w / 2 / 2) * (h / 2 / 2) <= 65025) by (nonlinear_arith)
        requires
            0 <= w / 2 / 2 <= 255,
            0 <= h / 2 / 2 <= 255,
    ;
    assert(0 <= (w / 2 / 2 / 2) * (h / 2 / 2 / 2) <= 65025) by (nonlinear_arith)
        requires
            0 <= w / 2 / 2 / 2 <= 255,
            0 <= h / 2 / 2 / 2 <= 255,
    ;
    assert(0 <= ((w + 1) / 2) * h <= 65025) by (nonlinear_arith)
        requires
            0 <= (w + 1) / 2 <= 255,
            0 <= h <= 255,
    ;
}

/// The length of the raw payload that a header announces.
fn raw_payload_size(header: &GlyphHeader, version: FntVersion) -> (n: usize)
    ensures
        n == payload_size(*header, version),
        n <= 4 * 65025,
{
    match version {
        FntVersion::V1 => {
            let w: usize = header.texture_width as usize;
            let h: usize = header.texture_height as usize;
            proof {
                lemma_sizes_bounded(w as int, h as int);
            }
            w * h + (w / 2) * (h / 2) + (w / 2 / 2) * (h / 2 / 2) + (w / 2 / 2 / 2) * (h / 2 / 2
                / 2)
        },
        FntVersion::V0 => {
            let w: usize = header.actual_width as usize;
            let h: usize = header.actual_height as usize;
            proof {
                lemma_sizes_bounded(w as int, h as int);
            }
            ((w + 1) / 2) * h
        },
    }
}

impl LazyGlyph {
    /// Reads the glyph record at `offset`, and fails where the buffer
    /// ends before the record does.
    pub fn from_data(data: &[u8], offset: usize, char_code: u32, version: FntVersion) -> (r: Result<
        LazyGlyph,
        FntError,
    >)
        ensures
            r is Err <==> !record_fits(data@, offset as int, version),
            r matches Err(e) ==> e == FntError::TruncatedRecord,
            r matches Ok(glyph) ==> glyph@ == record_at(data@, offset as int, char_code, version),
    {
        let glyph_header = match GlyphHeader::parse(data, offset, version) {
            Ok(header) => header,
            Err(e) => {
                return Err(e);
            },
        };
        let info = GlyphInfo::from_header(&glyph_header, char_code, version);
        let header_size: usize = glyph_header.size(version);
        let total: usize = data.len();
        let data_start: usize = offset + header_size;
        let is_compressed: bool = glyph_header.compressed_size != 0;
        let stored: usize = if is_compressed {
            glyph_header.compressed_size as usize
        } else {
            raw_payload_size(&glyph_header, version)
        };
        if stored > total - data_start {
            return Err(FntError::TruncatedRecord);
        }
        let mut glyph_bytes: Vec<u8> = Vec::new();
        glyph_bytes.extend_from_slice(&data[data_start..data_start + stored]);
        assert(glyph_bytes@ =~= data@.subrange(data_start as int, data_start + stored));
        Ok(
            LazyGlyph {
                info,
                texture_size: (info.texture_width, info.texture_height),
                glyph_data: GlyphData { data: glyph_bytes, is_compressed },
            },
        )
    }
}


/// The profile's `low_bits` for payloads of the given revision.
pub open spec fn profile_low_bits(version: FntVersion) -> usize {
    match version {
        FntVersion::V1 => 10,
        FntVersion::V0 => 3,
    }
}

/// The profile's `ref_bytes` for payloads of the given revision.
pub open spec fn profile_ref_bytes(version: FntVersion) -> usize {
    match version {
        FntVersion::V1 => 2,
        FntVersion::V0 => 1,
    }
}

/// How many of the first `upto` mip levels a buffer of `len` bytes holds:
/// a level is held if those before it are, neither of its sides is empty,
/// and the buffer reaches to its end.
pub open spec fn levels_present(w: int, h: int, len: int, upto: int) -> int
    decreases upto,
{
    if upto <= 0 {
        0
    } else {
        let before = levels_present(w, h, len, upto - 1);
        if before == upto - 1 && halved(w, upto - 1) > 0 && halved(h, upto - 1) > 0 && levels_size(
            w,
            h,
            upto,
        ) <= len {
            upto
        } else {
            before
        }
    }
}

/// How many of the first four mip levels of a texture of `tw` by `th` a
/// buffer of `total` bytes holds.
pub fn count_levels(total: usize, tw: u8, th: u8) -> (levels: usize)
    ensures
        levels == levels_present(tw as int, th as int, total as int, 4),
        levels <= 4,
{
    let mut pos: usize = 0;
    let mut w: usize = tw as usize;
    let mut h: usize = th as usize;
    let mut level: usize = 0;
    proof {
        reveal_with_fuel(levels_present, 5);
        reveal_with_fuel(levels_size, 5);
        reveal_with_fuel(halved, 5);
        lemma_sizes_bounded(tw as int, th as int);
    }
    while level < 4
        invariant
            level <= 4,
            w == halved(tw as int, level as int),
            h == halved(th as int, level as int),
            w <= 255,
            h <= 255,
            pos == levels_size(tw as int, th as int, level as int),
            pos <= total,
            levels_present(tw as int, th as int, total as int, level as int) == level,
        ensures
            levels_present(tw as int, th as int, total as int, 4) == level,
            level <= 4,
        decreases 4 - level,
    {
        proof {
            reveal_with_fuel(levels_present, 5);
            reveal_with_fuel(levels_size, 5);
            reveal_with_fuel(halved, 5);
        }
        if w == 0 || h == 0 {
            break ;
        }
        assert(w * h <= 65025) by (nonlinear_arith)
            requires
                w <= 255,
                h <= 255,
        ;
        let expected: usize = w * h;
        if expected > total - pos {
            break ;
        }
        pos += expected;
        w = w / 2;
        h = h / 2;
        level += 1;
    }
    level
}

/// The bytes of mip level `level` in a buffer that holds the levels one
/// after the other, largest first.
pub open spec fn mip_level(bytes: Seq<u8>, w: int, h: int, level: int) -> Seq<u8> {
    bytes.subrange(levels_size(w, h, level), levels_size(w, h, level + 1))
}

/// The eight-bit value of one of a byte's two four-bit pixels: the high
/// four bits at an even column, the low four bits at an odd one, each moved
/// to the high end.
pub open spec fn nibble_pixel(byte: u8, column: int) -> u8 {
    if column % 2 == 0 {
        (byte / 16 * 16) as u8
    } else {
        (byte % 16 * 16) as u8
    }
}

/// The value of a four-bit pixel is its four bits shifted to the high
/// end of the byte: the high four bits stay where they are, the low four
/// move up by four places.
pub proof fn lemma_nibble_pixel_shifts(byte: u8, column: int)
    ensures
        column % 2 == 0 ==> nibble_pixel(byte, column) == (byte >> 4u8) << 4u8,
        column % 2 != 0 ==> nibble_pixel(byte, column) == (byte & 0xFu8) << 4u8,
{
    assert((byte / 16 * 16) as u8 == (byte >> 4u8) << 4u8) by (bit_vector);
    assert((byte % 16 * 16) as u8 == (byte & 0xFu8) << 4u8) by (bit_vector);
}

/// The first `upto` pixels of row `y` of a legacy bitmap, as far as the
/// buffer holds them.
pub open spec fn legacy_row(bytes: Seq<u8>, w: int, y: int, upto: int) -> Seq<u8>
    decreases upto,
{
    if upto <= 0 {
        Seq::empty()
    } else {
        let before = legacy_row(bytes, w, y, upto - 1);
        let at = y * ((w + 1) / 2) + (upto - 1) / 2;
        if at < bytes.len() {
            before.push(nibble_pixel(bytes[at], upto - 1))
        } else {
            before
        }
    }
}

/// The first `rows` rows of a legacy bitmap of width `w`, eight bits to
/// the pixel, as far as the buffer holds them.
pub open spec fn legacy_pixels(bytes: Seq<u8>, w: int, rows: int) -> Seq<u8>
    decreases rows,
{
    if rows <= 0 {
        Seq::empty()
    } else {
        legacy_pixels(bytes, w, rows - 1) + legacy_row(bytes, w, rows - 1, w)
    }
}

/// A glyph with its pixels: one plane for each mip level.
#[derive(Debug)]
pub struct Glyph {
    pub info: GlyphInfo,
    /// Mip level to its pixels, row by row.
    pub mipmap: BTreeMap<u8, Vec<u8>>,
    pub width: u32,
    pub height: u32,
}

/// A copy of the bytes from `start` up to `end`.
fn copy_range(data: &Vec<u8>, start: usize, end: usize) -> (out: Vec<u8>)
    requires
        start <= end <= data@.len(),
    ensures
        out@ == data@.subrange(start as int, end as int),
{
    let mut out: Vec<u8> = Vec::new();
    out.extend_from_slice(&data.as_slice()[start..end]);
    assert(out@ =~= data@.subrange(start as int, end as int));
    out
}

/// The mip levels that a payload of the textured revision holds, each
/// under its number.
fn textured_levels(bytes: &Vec<u8>, tw: usize, th: usize) -> (mipmap: BTreeMap<u8, Vec<u8>>)
    requires
        tw <= 255,
        th <= 255,
    ensures
        forall|k: u8|
            mipmap@.contains_key(k) <==> k < levels_present(
                tw as int,
                th as int,
                bytes@.len() as int,
                4,
            ),
        forall|k: u8|
            mipmap@.contains_key(k) ==> (#[trigger] mipmap@[k])@ == mip_level(
                bytes@,
                tw as int,
                th as int,
                k as int,
            ),
{
    let mut mipmap: BTreeMap<u8, Vec<u8>> = BTreeMap::new();
    let total: usize = bytes.len();
    let mut pos: usize = 0;
    let mut w: usize = tw;
    let mut h: usize = th;
    let mut level: u8 = 0;
    proof {
        reveal_with_fuel(levels_present, 5);
        reveal_with_fuel(levels_size, 5);
        reveal_with_fuel(halved, 5);
        lemma_sizes_bounded(tw as int, th as int);
    }
    while level < 4
        invariant
            level <= 4,
            total == bytes@.len(),
            tw <= 255,
            th <= 255,
            w == halved(tw as int, level as int),
            h == halved(th as int, level as int),
            w <= 255,
            h <= 255,
            pos == levels_size(tw as int, th as int, level as int),
            pos <= total,
            levels_present(tw as int, th as int, total as int, level as int) == level,
            forall|k: u8| mipmap@.contains_key(k) <==> k < level,
            forall|k: u8|
                mipmap@.contains_key(k) ==> (#[trigger] mipmap@[k])@ == mip_level(
                    bytes@,
                    tw as int,
                    th as int,
                    k as int,
                ),
        ensures
            levels_present(tw as int, th as int, total as int, 4) == level,
        decreases 4 - level,
    {
        proof {
            reveal_with_fuel(levels_present, 5);
            reveal_with_fuel(levels_size, 5);
            reveal_with_fuel(halved, 5);
        }
        if w == 0 || h == 0 {
            break ;
        }
        assert(w * h <= 65025) by (nonlinear_arith)
            requires
                w <= 255,
                h <= 255,
        ;
        let expected: usize = w * h;
        if expected > total - pos {
            break ;
        }
        let plane: Vec<u8> = copy_range(bytes, pos, pos + expected);
        put_level(&mut mipmap, level, plane);
        pos += expected;
        w = w / 2;
        h = h / 2;
        level += 1;
    }
    proof {
        reveal_with_fuel(levels_present, 5);
    }
    mipmap
}

/// The pixels of a payload of the legacy revision, eight bits each.
fn legacy_plane(bytes: &Vec<u8>, tw: usize, th: usize) -> (pixels: Vec<u8>)
    requires
        tw <= 255,
        th <= 255,
    ensures
        pixels@ == legacy_pixels(bytes@, tw as int, th as int),
{
    let stride: usize = (tw + 1) / 2;
    let total: usize = bytes.len();
    let mut pixels: Vec<u8> = Vec::new();
    let mut y: usize = 0;
    while y < th
        invariant
            tw <= 255,
            th <= 255,
            y <= th,
            stride == (tw + 1) / 2,
            total == bytes@.len(),
            pixels@ == legacy_pixels(bytes@, tw as int, y as int),
        decreases th - y,
    {
        assert(y * stride <= 65025) by (nonlinear_arith)
            requires
                y <= 255,
                stride <= 255,
        ;
        let row_start: usize = y * stride;
        let ghost before = pixels@;
        let mut x: usize = 0;
        while x < tw
            invariant
                tw <= 255,
                x <= tw,
                row_start == y * ((tw + 1) / 2),
                row_start <= 65025,
                total == bytes@.len(),
                pixels@ == before + legacy_row(bytes@, tw as int, y as int, x as int),
            decreases tw - x,
        {
            let at: usize = row_start + x / 2;
            if at < total {
                let byte: u8 = bytes[at];
                let pixel: u8 = if x % 2 == 0 {
                    byte / 16 * 16
                } else {
                    byte % 16 * 16
                };
                pixels.push(pixel);
                assert(pixels@ =~= before + legacy_row(bytes@, tw as int, y as int, x + 1));
            }
            x += 1;
        }
        y += 1;
    }
    pixels
}

impl Glyph {
    /// The glyph's pixels, from its stored payload.
    ///
    /// A payload of the textured revision is cut into its mip levels, as
    /// many of the first four as the payload holds; one of the legacy
    /// revision becomes a single plane of eight bits to the pixel. A payload
    /// that is shorter than its sizes announce gives fewer levels or pixels.
    pub fn from_lazy_glyph(lazy_glyph: &LazyGlyph, version: FntVersion) -> (glyph: Glyph)
        ensures
            glyph.info == lazy_glyph.info,
            glyph.width == lazy_glyph.texture_size.0,
            glyph.height == lazy_glyph.texture_size.1,
            version == FntVersion::V1 ==> {
                let bytes = lazy_glyph.glyph_data.unpacked(10, 2);
                let w = lazy_glyph.texture_size.0 as int;
                let h = lazy_glyph.texture_size.1 as int;
                &&& forall|k: u8|
                    glyph.mipmap@.contains_key(k) <==> k < levels_present(w, h, bytes.len() as int, 4)
                &&& forall|k: u8|
                    glyph.mipmap@.contains_key(k) ==> (#[trigger] glyph.mipmap@[k])@ == mip_level(
                        bytes,
                        w,
                        h,
                        k as int,
                    )
            },
            version == FntVersion::V0 ==> {
                &&& forall|k: u8| glyph.mipmap@.contains_key(k) <==> k == 0
                &&& glyph.mipmap@[0]@ == legacy_pixels(
                    lazy_glyph.glyph_data.unpacked(3, 1),
                    lazy_glyph.texture_size.0 as int,
                    lazy_glyph.texture_size.1 as int,
                )
            },
    {
        let tw: usize = lazy_glyph.texture_size.0 as usize;
        let th: usize = lazy_glyph.texture_size.1 as usize;
        match version {
            FntVersion::V1 => {
                let decompressed: Vec<u8> = lazy_glyph.glyph_data.decompress(10, 2);
                let mipmap = textured_levels(&decompressed, tw, th);
                Glyph { info: lazy_glyph.info, mipmap, width: tw as u32, height: th as u32 }
            },
            FntVersion::V0 => {
                let decompressed: Vec<u8> = lazy_glyph.glyph_data.decompress(3, 1);
                let pixels: Vec<u8> = legacy_plane(&decompressed, tw, th);
                let mut mipmap: BTreeMap<u8, Vec<u8>> = BTreeMap::new();
                put_level(&mut mipmap, 0, pixels);
                Glyph { info: lazy_glyph.info, mipmap, width: tw as u32, height: th as u32 }
            },
        }
    }
}


/// A glyph ready to be written: its metadata, its sizes and its payload.
#[derive(Debug)]
pub struct ProcessedGlyph {
    pub glyph_info: GlyphMetadata,
    pub actual_width: u8,
    pub actual_height: u8,
    pub texture_width: u8,
    pub texture_height: u8,
    /// The payload: compressed where `compressed_size` is not zero.
    pub data: Vec<u8>,
    pub compressed_size: u16,
}

/// A glyph as a rasterizer hands it over: metrics and the coverage of each
/// pixel, row by row.
#[derive(Debug)]
pub struct RenderedGlyph {
    pub bearing_x: i8,
    pub bearing_y: i8,
    pub advance: u8,
    pub actual_width: u8,
    pub actual_height: u8,
    pub raw_pixels: Vec<u8>,
}

} // verus!
