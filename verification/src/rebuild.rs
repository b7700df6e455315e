//! Putting a font's glyphs together anew from freshly rendered bitmaps.

use crate::fnt::{oversized, Fnt};
use crate::glyph::{GlyphInfo, LazyGlyph, ProcessedGlyph, RenderedGlyph};
use crate::metadata::{CodeType, GlyphMetadata};
use crate::ordered::{keys_in_order, look_up, put, sorted_keys};
use crate::texture::{encode_glyph_texture, encodes};
use crate::utils::{decode_sjis_u32, first_decoded, shift_jis_decoded, sjis_bytes};
use std::collections::BTreeMap;
use vstd::arithmetic::div_mod::lemma_fundamental_div_mod_converse;
use vstd::prelude::*;

verus! {

/// The value of sixteen bits read as a signed number.
pub open spec fn signed_word(v: u16) -> int {
    if v < 0x8000 {
        v as int
    } else {
        v - 0x10000
    }
}

/// The height of a line: ascent and descent, read as signed, added up,
/// without the sign.
pub open spec fn line_height(ascent: u16, descent: u16) -> int {
    let sum = signed_word(ascent) + signed_word(descent);
    if sum < 0 {
        -sum
    } else {
        sum
    }
}

/// The pixel size to render at where none is asked for: the height of the
/// line of the font that is rebuilt.
pub fn auto_font_size(ascent: u16, descent: u16) -> (size: u16)
    requires
        -0x8000 <= signed_word(ascent) + signed_word(descent) < 0x8000,
    ensures
        size == line_height(ascent, descent),
{
    let up: i32 = if ascent < 0x8000 {
        ascent as i32
    } else {
        ascent as i32 - 0x10000
    };
    let down: i32 = if descent < 0x8000 {
        descent as i32
    } else {
        descent as i32 - 0x10000
    };
    let sum: i32 = up + down;
    if sum < 0 {
        (-sum) as u16
    } else {
        sum as u16
    }
}

/// Two to the power `level`, for levels up to seven.
pub open spec fn level_scale(level: int) -> int {
    if level <= 0 {
        1
    } else if level == 1 {
        2
    } else if level == 2 {
        4
    } else if level == 3 {
        8
    } else if level == 4 {
        16
    } else if level == 5 {
        32
    } else if level == 6 {
        64
    } else {
        128
    }
}

/// Two to the power `level`.
fn scale_of(level: usize) -> (scale: usize)
    requires
        level <= 7,
    ensures
        scale == level_scale(level as int),
{
    let mut scale: usize = 1;
    let mut i: usize = 0;
    while i < level
        invariant
            i <= level <= 7,
            scale == level_scale(i as int),
        decreases level - i,
    {
        scale = scale * 2;
        i += 1;
    }
    scale
}

/// The padding to put round each glyph where none is asked for: the width
/// of one pixel of the smallest mip level, and four at least.
pub fn auto_texture_padding(mipmap_level: usize) -> (padding: u8)
    requires
        mipmap_level <= 8,
    ensures
        padding == (if mipmap_level <= 3 {
            4
        } else {
            level_scale(mipmap_level - 1)
        }),
{
    if mipmap_level <= 3 {
        4
    } else {
        scale_of(mipmap_level - 1) as u8
    }
}

/// An advance moved by the letter spacing, and kept within a byte.
pub open spec fn spaced_advance(advance: u8, letter_spacing: i8) -> u8 {
    let sum = advance + letter_spacing;
    if sum < 0 {
        0
    } else if sum > 255 {
        255
    } else {
        sum as u8
    }
}

/// An advance moved by the letter spacing, and kept within a byte.
pub fn apply_letter_spacing(advance: u8, letter_spacing: i8) -> (spaced: u8)
    ensures
        spaced == spaced_advance(advance, letter_spacing),
{
    let sum: i16 = advance as i16 + letter_spacing as i16;
    if sum < 0 {
        0
    } else if sum > 255 {
        255
    } else {
        sum as u8
    }
}

/// A value kept within a signed byte.
pub open spec fn saturated(v: int) -> i8 {
    if v < -128 {
        -128i8
    } else if v > 127 {
        127i8
    } else {
        v as i8
    }
}

/// The padding as the bearings see it: a byte read as signed.
pub open spec fn signed_padding(padding: u8) -> int {
    if padding < 128 {
        padding as int
    } else {
        padding - 256
    }
}

/// A value kept within a signed byte.
fn saturate(v: i16) -> (out: i8)
    ensures
        out == saturated(v as int),
{
    if v < -128 {
        -128
    } else if v > 127 {
        127
    } else {
        v as i8
    }
}

/// The padding as the bearings see it.
fn padding_as_signed(padding: u8) -> (out: i16)
    ensures
        out == signed_padding(padding),
{
    if padding < 128 {
        padding as i16
    } else {
        padding as i16 - 256
    }
}

/// Whether `code` is a Unicode scalar value.
pub open spec fn is_scalar_value(code: u32) -> bool {
    code <= 0xD7FF || (0xE000 <= code <= 0x10FFFF)
}

/// `char::from_u32` of the standard library: the character of a scalar
/// value, and nothing for any other number.
#[verifier::external_body]
fn char_of(code: u32) -> (c: Option<char>)
    ensures
        c == (if is_scalar_value(code) {
            Some(code as char)
        } else {
            None
        }),
{
    char::from_u32(code)
}

/// Which character stands for a code, once a Shift-JIS code has been
/// decoded: the character it is replaced with, if it is; else the
/// character of a Unicode code, if it has one; else what the Shift-JIS code
/// decoded to, or the character zero where it did not decode.
pub open spec fn chosen_char(
    code: u32,
    code_type: CodeType,
    replace: Map<u32, char>,
    decoded: Option<char>,
) -> Option<char> {
    if replace.contains_key(code) {
        Some(replace[code])
    } else {
        match code_type {
            CodeType::Unicode => if is_scalar_value(code) {
                Some(code as char)
            } else {
                None
            },
            CodeType::Sjis => match decoded {
                Some(c) => Some(c),
                None => Some(0u32 as char),
            },
        }
    }
}

/// The character to render for a glyph: its replacement where the code
/// has one, else the character that the code stands for. A Unicode code
/// that is no scalar value gives nothing; a Shift-JIS code that does not
/// decode gives the character zero.
pub fn target_char(code: u32, code_type: CodeType, replace: &BTreeMap<u32, char>) -> (c: Option<
    char,
>)
    ensures
        c == chosen_char(
            code,
            code_type,
            replace@,
            first_decoded(shift_jis_decoded(sjis_bytes(code))),
        ),
{
    match look_up(replace, code) {
        Some(replacement) => Some(*replacement),
        None => match code_type {
            CodeType::Unicode => char_of(code),
            CodeType::Sjis => match decode_sjis_u32(code) {
                Some(c) => Some(c),
                None => char_of(0),
            },
        },
    }
}

/// The step to whose multiples a glyph's sides are rounded up: one pixel
/// of the smallest mip level, and four at least.
pub open spec fn alignment(mipmap_level: int) -> int {
    if mipmap_level <= 2 {
        4
    } else {
        level_scale(mipmap_level)
    }
}

/// A side of the bitmap that is stored for a glyph: the visible side with
/// the padding on both ends, rounded up to the alignment, and 255 at most.
pub open spec fn final_side(actual: u8, padding: u8, mipmap_level: int) -> int {
    let step = alignment(mipmap_level);
    let aligned = (actual + 2 * padding + step - 1) / step * step;
    if aligned > 255 {
        255
    } else {
        aligned
    }
}

/// Whether a glyph of the given size can be stored with the given padding:
/// no more than seven mip levels, and no side above 128 pixels.
pub open spec fn can_be_stored(
    actual_width: u8,
    actual_height: u8,
    padding: u8,
    mipmap_level: usize,
) -> bool {
    &&& mipmap_level <= 7
    &&& final_side(actual_width, padding, mipmap_level as int) <= 128
    &&& final_side(actual_height, padding, mipmap_level as int) <= 128
}

/// A side of the bitmap that is stored for a glyph.
fn side_of(actual: u8, padding: u8, mipmap_level: usize) -> (side: usize)
    requires
        mipmap_level <= 7,
    ensures
        side == final_side(actual, padding, mipmap_level as int),
        side <= 255,
        actual > 0 ==> side > 0,
{
    let step: usize = if mipmap_level <= 2 {
        4
    } else {
        scale_of(mipmap_level)
    };
    let padded: usize = actual as usize + 2 * (padding as usize);
    let count: usize = (padded + step - 1) / step;
    assert(count * step <= padded + step - 1 && (padded > 0 ==> count * step > 0))
        by (nonlinear_arith)
        requires
            count == (padded + step - 1) as int / step as int,
            step > 0,
            padded >= 0,
    ;
    let aligned: usize = count * step;
    if aligned > 255 {
        255
    } else {
        aligned
    }
}

/// Whether a glyph of the given size can be stored with the given padding.
pub fn fits_texture(actual_width: u8, actual_height: u8, padding: u8, mipmap_level: usize) -> (ok:
    bool)
    ensures
        ok == can_be_stored(actual_width, actual_height, padding, mipmap_level),
{
    mipmap_level <= 7 && side_of(actual_width, padding, mipmap_level) <= 128 && side_of(
        actual_height,
        padding,
        mipmap_level,
    ) <= 128
}

/// Pixel `i` of a bitmap of width `side` into which a bitmap of `aw` by
/// `ah` is set, `padding` pixels from the left and from the top: the pixel
/// of the inner bitmap where it reaches and `raw` holds it, else zero.
pub open spec fn placed_pixel(raw: Seq<u8>, aw: int, ah: int, padding: int, side: int, i: int) -> u8 {
    let y = i / side - padding;
    let x = i % side - padding;
    if 0 <= x < aw && 0 <= y < ah && y * aw + x < raw.len() {
        raw[y * aw + x]
    } else {
        0u8
    }
}

/// The bitmap of `fw` by `fh` into which a bitmap of `aw` by `ah` is set,
/// `padding` pixels from the left and from the top.
pub open spec fn placed(raw: Seq<u8>, aw: int, ah: int, padding: int, fw: int, fh: int) -> Seq<u8> {
    Seq::new((fw * fh) as nat, |i: int| placed_pixel(raw, aw, ah, padding, fw, i))
}

/// The bitmap of `fw` by `fh` with the given bitmap set into it.
fn place(raw_pixels: &[u8], aw: usize, ah: usize, padding: usize, fw: usize, fh: usize) -> (out:
    Vec<u8>)
    requires
        aw <= 255,
        ah <= 255,
        padding <= 255,
        0 < fw <= 255,
        fh <= 255,
    ensures
        out@ == placed(
            raw_pixels@,
            aw as int,
            ah as int,
            padding as int,
            fw as int,
            fh as int,
        ),
{
    let total: usize = raw_pixels.len();
    let mut out: Vec<u8> = Vec::new();
    let mut y: usize = 0;
    while y < fh
        invariant
            aw <= 255,
            ah <= 255,
            padding <= 255,
            0 < fw <= 255,
            fh <= 255,
            total == raw_pixels@.len(),
            y <= fh,
            out@.len() == y * fw,
            forall|i: int|
                0 <= i < out@.len() ==> out@[i] == placed_pixel(
                    raw_pixels@,
                    aw as int,
                    ah as int,
                    padding as int,
                    fw as int,
                    i,
                ),
        decreases fh - y,
    {
        let mut x: usize = 0;
        while x < fw
            invariant
                aw <= 255,
                ah <= 255,
                padding <= 255,
                0 < fw <= 255,
                fh <= 255,
                total == raw_pixels@.len(),
                y < fh,
                x <= fw,
                out@.len() == y * fw + x,
                forall|i: int|
                    0 <= i < out@.len() ==> out@[i] == placed_pixel(
                        raw_pixels@,
                        aw as int,
                        ah as int,
                        padding as int,
                        fw as int,
                        i,
                    ),
            decreases fw - x,
        {
            proof {
                lemma_fundamental_div_mod_converse(y * fw + x, fw as int, y as int, x as int);
            }
            let value: u8 = if x >= padding && y >= padding && x - padding < aw && y - padding
                < ah {
                assert((y - padding) * aw + (x - padding) <= 255 * 255 + 255) by (nonlinear_arith)
                    requires
                        0 <= y - padding < 255,
                        0 <= x - padding <= 255,
                        aw <= 255,
                ;
                let src: usize = (y - padding) * aw + (x - padding);
                if src < total {
                    raw_pixels[src]
                } else {
                    0
                }
            } else {
                0
            };
            out.push(value);
            x += 1;
        }
        assert(y * fw + fw == (y + 1) * fw) by (nonlinear_arith);
        y += 1;
    }
    assert(fh * fw == fw * fh) by (nonlinear_arith);
    assert(out@ =~= placed(
        raw_pixels@,
        aw as int,
        ah as int,
        padding as int,
        fw as int,
        fh as int,
    ));
    out
}

/// The metrics that a rebuilt glyph starts from: those of the rendering,
/// or those of the glyph that is replaced where nothing was rendered.
pub open spec fn starting_metrics(former: GlyphInfo, rendered: Option<RenderedGlyph>) -> (
    i8,
    i8,
    u8,
) {
    match rendered {
        Some(r) => (r.bearing_x, r.bearing_y, r.advance),
        None => (former.bearing_x, former.bearing_y, former.advance),
    }
}

/// Whether a rendering shows anything.
pub open spec fn is_visible(rendered: Option<RenderedGlyph>) -> bool {
    rendered matches Some(r) && r.actual_width != 0 && r.actual_height != 0
}

/// Whether `glyph` is what a rendering becomes.
///
/// A rendering that shows nothing, or none at all, becomes a glyph without
/// pixels, with the metrics it started from and the advance moved by the
/// letter spacing. Else the bitmap is padded and aligned and encoded as a
/// texture; with padding, the bearings move out by the padding.
pub open spec fn assembled(
    glyph: ProcessedGlyph,
    glyph_metadata: GlyphMetadata,
    former: GlyphInfo,
    rendered: Option<RenderedGlyph>,
    mipmap_level: usize,
    padding: u8,
    letter_spacing: i8,
) -> bool {
    let start = starting_metrics(former, rendered);
    &&& glyph.glyph_info.char_code == glyph_metadata.char_code
    &&& glyph.glyph_info.code_type == glyph_metadata.code_type
    &&& glyph.glyph_info.advance == spaced_advance(start.2, letter_spacing)
    &&& !is_visible(rendered) ==> {
        &&& glyph.glyph_info.bearing_x == start.0
        &&& glyph.glyph_info.bearing_y == start.1
        &&& glyph.actual_width == 0
        &&& glyph.actual_height == 0
        &&& glyph.texture_width == 0
        &&& glyph.texture_height == 0
        &&& glyph.data@.len() == 0
        &&& glyph.compressed_size == 0
    }
    &&& is_visible(rendered) ==> {
        let r = rendered->0;
        let fw = final_side(r.actual_width, padding, mipmap_level as int);
        let fh = final_side(r.actual_height, padding, mipmap_level as int);
        &&& glyph.glyph_info.bearing_x == (if padding > 0 {
            saturated(start.0 - signed_padding(padding))
        } else {
            start.0
        })
        &&& glyph.glyph_info.bearing_y == (if padding > 0 {
            saturated(start.1 + signed_padding(padding))
        } else {
            start.1
        })
        &&& glyph.actual_width == fw
        &&& glyph.actual_height == fh
        &&& encodes(
            glyph.texture_width,
            glyph.texture_height,
            glyph.data@,
            glyph.compressed_size,
            placed(
                r.raw_pixels@,
                r.actual_width as int,
                r.actual_height as int,
                padding as int,
                fw,
                fh,
            ),
            fw,
            fh,
            mipmap_level as int,
        )
    }
}

/// Makes the glyph that is stored for a rendering.
pub fn assemble_glyph(
    glyph_metadata: &GlyphMetadata,
    former_glyph_info: &GlyphInfo,
    rendered: Option<RenderedGlyph>,
    mipmap_level: usize,
    texture_padding: u8,
    letter_spacing: i8,
) -> (glyph: ProcessedGlyph)
    requires
        is_visible(rendered) ==> can_be_stored(
            rendered->0.actual_width,
            rendered->0.actual_height,
            texture_padding,
            mipmap_level,
        ),
    ensures
        assembled(
            glyph,
            *glyph_metadata,
            *former_glyph_info,
            rendered,
            mipmap_level,
            texture_padding,
            letter_spacing,
        ),
{
    let (bearing_x, bearing_y, advance, actual_width, actual_height, raw_pixels) = match rendered {
        Some(r) => (
            r.bearing_x,
            r.bearing_y,
            r.advance,
            r.actual_width,
            r.actual_height,
            r.raw_pixels,
        ),
        None => (
            former_glyph_info.bearing_x,
            former_glyph_info.bearing_y,
            former_glyph_info.advance,
            0u8,
            0u8,
            Vec::new(),
        ),
    };
    let new_advance: u8 = apply_letter_spacing(advance, letter_spacing);
    if actual_width == 0 || actual_height == 0 {
        return ProcessedGlyph {
            glyph_info: GlyphMetadata {
                char_code: glyph_metadata.char_code,
                code_type: glyph_metadata.code_type,
                bearing_x,
                bearing_y,
                advance: new_advance,
            },
            actual_width: 0,
            actual_height: 0,
            texture_width: 0,
            texture_height: 0,
            data: Vec::new(),
            compressed_size: 0,
        };
    }
    let final_w: usize = side_of(actual_width, texture_padding, mipmap_level);
    let final_h: usize = side_of(actual_height, texture_padding, mipmap_level);
    let buffer: Vec<u8> = place(
        raw_pixels.as_slice(),
        actual_width as usize,
        actual_height as usize,
        texture_padding as usize,
        final_w,
        final_h,
    );
    let (final_bearing_x, final_bearing_y) = if texture_padding > 0 {
        let shift: i16 = padding_as_signed(texture_padding);
        (saturate(bearing_x as i16 - shift), saturate(bearing_y as i16 + shift))
    } else {
        (bearing_x, bearing_y)
    };
    let encoded = encode_glyph_texture(
        buffer.as_slice(),
        final_w as u8,
        final_h as u8,
        mipmap_level,
    );
    ProcessedGlyph {
        glyph_info: GlyphMetadata {
            char_code: glyph_metadata.char_code,
            code_type: glyph_metadata.code_type,
            bearing_x: final_bearing_x,
            bearing_y: final_bearing_y,
            advance: new_advance,
        },
        actual_width: final_w as u8,
        actual_height: final_h as u8,
        texture_width: encoded.texture_width,
        texture_height: encoded.texture_height,
        data: encoded.data,
        compressed_size: encoded.compressed_size,
    }
}

/// Whether `glyph` is a glyph record of the font that is rebuilt, taken over
/// as it is stored.
pub open spec fn restored_from(
    glyph: ProcessedGlyph,
    former: LazyGlyph,
    glyph_metadata: GlyphMetadata,
) -> bool {
    &&& glyph.glyph_info == glyph_metadata
    &&& glyph.actual_width == former.info.actual_width
    &&& glyph.actual_height == former.info.actual_height
    &&& glyph.texture_width == former.info.texture_width
    &&& glyph.texture_height == former.info.texture_height
    &&& glyph.data@ == former.glyph_data.data@
    &&& glyph.compressed_size == (if former.glyph_data.is_compressed {
        former.glyph_data.data@.len() as u16
    } else {
        0
    })
}

/// The glyph that stands in where the new font has nothing to show: the
/// glyph of the font that is rebuilt, as it is stored.
pub fn restore_glyph(former_glyph: &LazyGlyph, glyph_metadata: &GlyphMetadata) -> (glyph:
    ProcessedGlyph)
    requires
        !oversized(*former_glyph),
    ensures
        restored_from(glyph, *former_glyph, *glyph_metadata),
{
    let compressed_size: u16 = if former_glyph.glyph_data.is_compressed {
        former_glyph.glyph_data.data.len() as u16
    } else {
        0
    };
    ProcessedGlyph {
        glyph_info: *glyph_metadata,
        actual_width: former_glyph.info.actual_width,
        actual_height: former_glyph.info.actual_height,
        texture_width: former_glyph.info.texture_width,
        texture_height: former_glyph.info.texture_height,
        data: former_glyph.glyph_data.data.clone(),
        compressed_size,
    }
}


/// Whether a glyph shows nothing.
pub open spec fn is_empty_glyph(glyph: ProcessedGlyph) -> bool {
    glyph.actual_width == 0 || glyph.actual_height == 0
}

/// Whether the glyph with the given id is to be replaced by the one that
/// the font that is rebuilt has for it: the new glyph shows nothing, and
/// that font has a glyph of this id.
pub open spec fn to_be_restored(glyphs: Map<u32, ProcessedGlyph>, fnt: Fnt, id: u32) -> bool {
    &&& glyphs.contains_key(id)
    &&& is_empty_glyph(glyphs[id])
    &&& fnt.lazy_glyphs@.contains_key(id)
}

/// Whether every glyph that is to be restored can be: the font that is
/// rebuilt has its metadata, and its payload has a length that a header can
/// state.
pub open spec fn can_restore(glyphs: Map<u32, ProcessedGlyph>, fnt: Fnt) -> bool {
    forall|id: u32|
        #[trigger] to_be_restored(glyphs, fnt, id) ==> fnt.metadata.glyphs@.contains_key(id)
            && !oversized(fnt.lazy_glyphs@[id])
}

/// Whether every glyph that is to be restored can be.
pub fn check_restore(processed_glyphs: &BTreeMap<u32, ProcessedGlyph>, fnt: &Fnt) -> (ok: bool)
    ensures
        ok == can_restore(processed_glyphs@, *fnt),
{
    let ids: Vec<u32> = sorted_keys(processed_glyphs);
    let mut i: usize = 0;
    while i < ids.len()
        invariant
            keys_in_order(ids@, processed_glyphs@),
            i <= ids@.len(),
            forall|j: int|
                0 <= j < i && to_be_restored(processed_glyphs@, *fnt, #[trigger] ids@[j])
                    ==> fnt.metadata.glyphs@.contains_key(ids@[j]) && !oversized(
                    fnt.lazy_glyphs@[ids@[j]],
                ),
        decreases ids@.len() - i,
    {
        let id: u32 = ids[i];
        assert(processed_glyphs@.contains_key(ids@[i as int]));
        let empty: bool = match look_up(processed_glyphs, id) {
            Some(glyph) => glyph.actual_width == 0 || glyph.actual_height == 0,
            None => false,
        };
        if empty {
            match look_up(&fnt.lazy_glyphs, id) {
                Some(former) => {
                    let known: bool = look_up(&fnt.metadata.glyphs, id).is_some();
                    let long: bool = former.glyph_data.is_compressed
                        && former.glyph_data.data.len() > 0xffff;
                    if !known || long {
                        assert(to_be_restored(processed_glyphs@, *fnt, id));
                        return false;
                    }
                },
                None => {},
            }
        }
        i += 1;
    }
    proof {
        assert forall|id: u32| #[trigger]
            to_be_restored(processed_glyphs@, *fnt, id) implies fnt.metadata.glyphs@.contains_key(
            id,
        ) && !oversized(fnt.lazy_glyphs@[id]) by {
            assert(ids@.contains(id));
            let j = choose|j: int| 0 <= j < ids@.len() && ids@[j] == id;
            assert(to_be_restored(processed_glyphs@, *fnt, ids@[j]));
        }
    }
    true
}

/// Replaces each new glyph that shows nothing by the glyph that the font
/// that is rebuilt has for its id, as it is stored there, and says which
/// glyphs it replaced, smallest id first. The other glyphs stay.
pub fn restore_empty_glyphs(processed_glyphs: &mut BTreeMap<u32, ProcessedGlyph>, fnt: &Fnt) -> (restored:
    Vec<u32>)
    requires
        can_restore(old(processed_glyphs)@, *fnt),
    ensures
        forall|id: u32|
            final(processed_glyphs)@.contains_key(id) <==> old(processed_glyphs)@.contains_key(id),
        forall|id: u32|
            to_be_restored(old(processed_glyphs)@, *fnt, id) ==> restored_from(
                #[trigger] final(processed_glyphs)@[id],
                fnt.lazy_glyphs@[id],
                fnt.metadata.glyphs@[id],
            ),
        forall|id: u32|
            old(processed_glyphs)@.contains_key(id) && !to_be_restored(
                old(processed_glyphs)@,
                *fnt,
                id,
            ) ==> #[trigger] final(processed_glyphs)@[id] == old(processed_glyphs)@[id],
        forall|id: u32|
            restored@.contains(id) <==> to_be_restored(old(processed_glyphs)@, *fnt, id),
        forall|i: int, j: int| 0 <= i < j < restored@.len() ==> restored@[i] < restored@[j],
{
    let ids: Vec<u32> = sorted_keys(processed_glyphs);
    let mut restored: Vec<u32> = Vec::new();
    let mut i: usize = 0;
    while i < ids.len()
        invariant
            can_restore(old(processed_glyphs)@, *fnt),
            keys_in_order(ids@, old(processed_glyphs)@),
            i <= ids@.len(),
            forall|id: u32|
                processed_glyphs@.contains_key(id) <==> old(processed_glyphs)@.contains_key(id),
            forall|j: int|
                0 <= j < i && to_be_restored(old(processed_glyphs)@, *fnt, ids@[j])
                    ==> restored_from(
                    #[trigger] processed_glyphs@[ids@[j]],
                    fnt.lazy_glyphs@[ids@[j]],
                    fnt.metadata.glyphs@[ids@[j]],
                ),
            forall|j: int|
                0 <= j < i && !to_be_restored(old(processed_glyphs)@, *fnt, ids@[j])
                    ==> #[trigger] processed_glyphs@[ids@[j]] == old(processed_glyphs)@[ids@[j]],
            forall|j: int|
                i <= j < ids@.len() ==> #[trigger] processed_glyphs@[ids@[j]] == old(
                    processed_glyphs,
                )@[ids@[j]],
            forall|id: u32|
                restored@.contains(id) <==> exists|j: int|
                    0 <= j < i && ids@[j] == id && to_be_restored(
                        old(processed_glyphs)@,
                        *fnt,
                        id,
                    ),
            forall|k: int| 0 <= k < restored@.len() && i < ids@.len() ==> restored@[k] < ids@[i as int],
            forall|a: int, b: int| 0 <= a < b < restored@.len() ==> restored@[a] < restored@[b],
        decreases ids@.len() - i,
    {
        let id: u32 = ids[i];
        assert(processed_glyphs@.contains_key(ids@[i as int]));
        let empty: bool = match look_up(processed_glyphs, id) {
            Some(glyph) => glyph.actual_width == 0 || glyph.actual_height == 0,
            None => false,
        };
        let ghost before = restored@;
        let mut replaced: bool = false;
        if empty {
            match look_up(&fnt.lazy_glyphs, id) {
                Some(former) => {
                    assert(to_be_restored(old(processed_glyphs)@, *fnt, id));
                    match look_up(&fnt.metadata.glyphs, id) {
                        Some(glyph_metadata) => {
                            let glyph = restore_glyph(former, glyph_metadata);
                            put(processed_glyphs, id, glyph);
                            restored.push(id);
                            replaced = true;
                        },
                        None => {},
                    }
                },
                None => {},
            }
        }
        proof {
            assert forall|key: u32| restored@.contains(key) <==> exists|j: int|
                0 <= j < i + 1 && ids@[j] == key && to_be_restored(
                    old(processed_glyphs)@,
                    *fnt,
                    key,
                ) by {
                if restored@.contains(key) {
                    let k = choose|k: int| 0 <= k < restored@.len() && restored@[k] == key;
                    if replaced && k == before.len() {
                        assert(ids@[i as int] == key);
                    } else {
                        assert(before[k] == key);
                        assert(before.contains(key));
                        let j = choose|j: int|
                            0 <= j < i && ids@[j] == key && to_be_restored(
                                old(processed_glyphs)@,
                                *fnt,
                                key,
                            );
                        assert(0 <= j < i + 1 && ids@[j] == key);
                    }
                }
                if exists|j: int|
                    0 <= j < i + 1 && ids@[j] == key && to_be_restored(
                        old(processed_glyphs)@,
                        *fnt,
                        key,
                    ) {
                    let j = choose|j: int|
                        0 <= j < i + 1 && ids@[j] == key && to_be_restored(
                            old(processed_glyphs)@,
                            *fnt,
                            key,
                        );
                    if j < i {
                        assert(before.contains(key));
                        let k = choose|k: int| 0 <= k < before.len() && before[k] == key;
                        assert(restored@[k] == key);
                    } else {
                        assert(replaced);
                        assert(restored@[before.len() as int] == key);
                    }
                }
            }
        }
        i += 1;
    }
    proof {
        assert forall|id: u32|
            to_be_restored(old(processed_glyphs)@, *fnt, id) implies restored_from(
            #[trigger] processed_glyphs@[id],
            fnt.lazy_glyphs@[id],
            fnt.metadata.glyphs@[id],
        ) by {
            assert(ids@.contains(id));
        }
        assert forall|id: u32|
            old(processed_glyphs)@.contains_key(id) && !to_be_restored(
                old(processed_glyphs)@,
                *fnt,
                id,
            ) implies #[trigger] processed_glyphs@[id] == old(processed_glyphs)@[id] by {
            assert(ids@.contains(id));
        }
        assert forall|id: u32|
            restored@.contains(id) <==> to_be_restored(old(processed_glyphs)@, *fnt, id) by {
            if to_be_restored(old(processed_glyphs)@, *fnt, id) {
                assert(ids@.contains(id));
            }
        }
    }
    restored
}

} // verus!
