//! What a font says of itself beside its glyphs' pixels.

use crate::glyph::{count_levels, levels_present, LazyGlyph};
use crate::ordered::{look_up, ordered_ids, sorted_keys};
use std::collections::BTreeMap;
use vstd::prelude::*;

verus! {

/// The two revisions of the format.
#[derive(Debug, Clone, Copy, PartialEq, Eq, Structural)]
pub enum FntVersion {
    /// The legacy revision: one plane of four bits per pixel.
    V0,
    /// The textured revision: mip levels of eight bits per pixel.
    V1,
}

impl FntVersion {
    /// The revision with the given number, if there is one.
    pub fn from_u32(v: u32) -> (version: Option<Self>)
        ensures
            v == 0 ==> version == Some(FntVersion::V0),
            v == 1 ==> version == Some(FntVersion::V1),
            v > 1 ==> version is None,
    {
        match v {
            0 => Some(FntVersion::V0),
            1 => Some(FntVersion::V1),
            _ => None,
        }
    }
}

/// How a glyph's character code is to be read.
#[derive(Debug, Clone, Copy, PartialEq, Eq, Structural)]
pub enum CodeType {
    /// A Unicode scalar value.
    Unicode,
    /// A Shift-JIS code of one or two bytes.
    Sjis,
}

/// A glyph's code and line metrics.
#[derive(Debug, Clone, Copy, PartialEq, Eq, Structural)]
pub struct GlyphMetadata {
    pub char_code: u32,
    pub code_type: CodeType,
    pub bearing_x: i8,
    pub bearing_y: i8,
    pub advance: u8,
}

/// A font's revision and line metrics, which glyph each character slot
/// shows, and each glyph's metadata.
#[derive(Debug)]
pub struct FntMetadata {
    pub version: FntVersion,
    pub mipmap_level: usize,
    pub ascent: u16,
    pub descent: u16,
    /// Character slot to glyph id.
    pub characters: BTreeMap<u32, u32>,
    /// Glyph id to the glyph's metadata.
    pub glyphs: BTreeMap<u32, GlyphMetadata>,
}


impl Clone for FntMetadata {
    fn clone(&self) -> (out: Self)
        ensures
            out.version == self.version,
            out.mipmap_level == self.mipmap_level,
            out.ascent == self.ascent,
            out.descent == self.descent,
            out.characters@ == self.characters@,
            out.glyphs@ == self.glyphs@,
    {
        FntMetadata {
            version: self.version,
            mipmap_level: self.mipmap_level,
            ascent: self.ascent,
            descent: self.descent,
            characters: self.characters.clone(),
            glyphs: self.glyphs.clone(),
        }
    }
}

/// How many of the first four mip levels a glyph's payload holds, read as
/// a payload of the textured revision.
pub open spec fn glyph_levels(glyph: LazyGlyph) -> int {
    levels_present(
        glyph.texture_size.0 as int,
        glyph.texture_size.1 as int,
        glyph.glyph_data.unpacked(10, 2).len() as int,
        4,
    )
}

/// The most levels that any of the first `upto` glyphs of `ids` holds, and
/// one at least.
pub open spec fn most_levels(glyphs: Map<u32, LazyGlyph>, ids: Seq<u32>, upto: int) -> int
    decreases upto,
{
    if upto <= 0 {
        1
    } else {
        let before = most_levels(glyphs, ids, upto - 1);
        let here = glyph_levels(glyphs[ids[upto - 1]]);
        if here > before {
            here
        } else {
            before
        }
    }
}

/// The number of mip levels that a font's glyphs are stored with, judged
/// by the ten glyphs with the smallest ids.
pub open spec fn detected_levels(glyphs: Map<u32, LazyGlyph>) -> int {
    let ids = ordered_ids(glyphs);
    most_levels(
        glyphs,
        ids,
        if ids.len() < 10 {
            ids.len() as int
        } else {
            10
        },
    )
}

/// The number of mip levels that the glyphs are stored with: the most
/// that any of the ten glyphs with the smallest ids holds, and one at
/// least.
pub fn detect_mipmap_level(lazy_glyphs: &BTreeMap<u32, LazyGlyph>) -> (levels: usize)
    ensures
        levels == detected_levels(lazy_glyphs@),
        1 <= levels <= 4,
{
    let ids: Vec<u32> = sorted_keys(lazy_glyphs);
    let mut max_levels: usize = 1;
    let mut i: usize = 0;
    while i < ids.len() && i < 10
        invariant
            ids@ == ordered_ids(lazy_glyphs@),
            crate::ordered::keys_in_order(ids@, lazy_glyphs@),
            i <= ids@.len(),
            i <= 10,
            1 <= max_levels <= 4,
            max_levels == most_levels(lazy_glyphs@, ids@, i as int),
        decreases ids@.len() - i,
    {
        let id: u32 = ids[i];
        assert(lazy_glyphs@.contains_key(ids@[i as int]));
        match look_up(lazy_glyphs, id) {
            Some(lazy_glyph) => {
                let decompressed: Vec<u8> = lazy_glyph.glyph_data.decompress(10, 2);
                let levels: usize = count_levels(
                    decompressed.len(),
                    lazy_glyph.texture_size.0,
                    lazy_glyph.texture_size.1,
                );
                if levels > max_levels {
                    max_levels = levels;
                }
            },
            None => {},
        }
        i += 1;
    }
    max_levels
}

} // verus!
