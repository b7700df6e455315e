//! Building the stored payload of a textured glyph: canvas, mip levels,
//! compression.

use crate::lz77::compress;
use crate::lz77::planner::{compressed, lemma_round_trip};
use crate::glyph::{halved, levels_present, levels_size, mip_level};
use crate::lz77::stream::decode;
use crate::utils::{ceil_power_of_2, lemma_next_power_small, next_power_of_two};
use vstd::arithmetic::div_mod::lemma_fundamental_div_mod_converse;
use vstd::prelude::*;

verus! {

/// A glyph's payload ready to be stored, with the size of its texture.
#[derive(Debug)]
pub struct EncodedTexture {
    pub texture_width: u8,
    pub texture_height: u8,
    /// The payload: compressed where `compressed_size` is not zero.
    pub data: Vec<u8>,
    /// The payload's length where it is compressed, else zero.
    pub compressed_size: u16,
}

/// Pixel `i` of the canvas of width `tw`: the bitmap's pixel where the
/// bitmap of `aw` by `ah` reaches and `raw` holds it, else zero.
pub open spec fn canvas_pixel(raw: Seq<u8>, aw: int, ah: int, tw: int, i: int) -> u8 {
    let y = i / tw;
    let x = i % tw;
    if x < aw && y < ah && y * aw + x < raw.len() {
        raw[y * aw + x]
    } else {
        0u8
    }
}

/// The canvas of `tw` by `th` with the bitmap in its top left corner.
pub open spec fn canvas(raw: Seq<u8>, aw: int, ah: int, tw: int, th: int) -> Seq<u8> {
    Seq::new((tw * th) as nat, |i: int| canvas_pixel(raw, aw, ah, tw, i))
}

/// Pixel `i` of the level below a level of width `w`: the mean of a
/// square of four pixels, rounded down.
pub open spec fn box_pixel(level: Seq<u8>, w: int, i: int) -> u8 {
    let y = i / (w / 2);
    let x = i % (w / 2);
    ((level[(2 * y) * w + 2 * x] + level[(2 * y) * w + 2 * x + 1] + level[(2 * y + 1) * w + 2 * x]
        + level[(2 * y + 1) * w + 2 * x + 1]) / 4) as u8
}

/// The level below a level of `w` by `h`: half as wide and half as high.
pub open spec fn downsampled(level: Seq<u8>, w: int, h: int) -> Seq<u8> {
    Seq::new(((w / 2) * (h / 2)) as nat, |i: int| box_pixel(level, w, i))
}

/// A level of `w` by `h` followed by up to `more` levels below it. No
/// level follows one that is a single pixel wide or high.
pub open spec fn pyramid_from(level: Seq<u8>, w: int, h: int, more: int) -> Seq<u8>
    decreases more,
{
    if more <= 0 || w <= 1 || h <= 1 {
        level
    } else {
        level + pyramid_from(downsampled(level, w, h), w / 2, h / 2, more - 1)
    }
}

/// The raw payload of a bitmap of `aw` by `ah`, neither zero: the canvas
/// of the next powers of two and the levels below it, `mipmap_level` levels
/// in all at most.
pub open spec fn texture_payload(raw: Seq<u8>, aw: int, ah: int, mipmap_level: int) -> Seq<u8> {
    let tw = next_power_of_two(aw);
    let th = next_power_of_two(ah);
    pyramid_from(canvas(raw, aw, ah, tw, th), tw, th, mipmap_level - 1)
}

/// Whether a stored payload, with its texture size, is what a bitmap of
/// `aw` by `ah`, neither zero, is encoded as: the raw texture where
/// compressing does not make it shorter, the compressed texture where it
/// does.
pub open spec fn encodes(
    texture_width: u8,
    texture_height: u8,
    data: Seq<u8>,
    compressed_size: u16,
    raw_pixels: Seq<u8>,
    aw: int,
    ah: int,
    mipmap_level: int,
) -> bool {
    let raw = texture_payload(raw_pixels, aw, ah, mipmap_level);
    let packed = compressed(raw, 10, 2);
    &&& texture_width == next_power_of_two(aw)
    &&& texture_height == next_power_of_two(ah)
    &&& packed.len() < raw.len() ==> data == packed && compressed_size == packed.len()
    &&& packed.len() >= raw.len() ==> data == raw && compressed_size == 0
}

/// All the levels together are less than twice the first.
pub proof fn lemma_pyramid_len(level: Seq<u8>, w: int, h: int, more: int)
    requires
        0 <= w,
        0 <= h,
        level.len() == w * h,
    ensures
        level.len() <= pyramid_from(level, w, h, more).len() <= 2 * (w * h),
    decreases more,
{
    assert(0 <= w * h) by (nonlinear_arith)
        requires
            0 <= w,
            0 <= h,
    ;
    if more <= 0 || w <= 1 || h <= 1 {
    } else {
        let below = downsampled(level, w, h);
        assert(0 <= (w / 2) * (h / 2) && 4 * ((w / 2) * (h / 2)) <= w * h) by (nonlinear_arith)
            requires
                0 <= w / 2,
                0 <= h / 2,
                2 * (w / 2) <= w,
                2 * (h / 2) <= h,
        ;
        lemma_pyramid_len(below, w / 2, h / 2, more - 1);
    }
}

/// The canvas of `tw` by `th` with the bitmap in its top left corner.
fn blit(raw_pixels: &[u8], aw: usize, ah: usize, tw: usize, th: usize) -> (out: Vec<u8>)
    requires
        0 < aw <= tw <= 128,
        0 < ah <= th <= 128,
    ensures
        out@ == canvas(raw_pixels@, aw as int, ah as int, tw as int, th as int),
        out@.len() == tw * th,
{
    let total: usize = raw_pixels.len();
    let mut out: Vec<u8> = Vec::new();
    let mut y: usize = 0;
    while y < th
        invariant
            0 < aw <= tw <= 128,
            0 < ah <= th <= 128,
            total == raw_pixels@.len(),
            y <= th,
            out@.len() == y * tw,
            forall|i: int|
                0 <= i < out@.len() ==> out@[i] == canvas_pixel(
                    raw_pixels@,
                    aw as int,
                    ah as int,
                    tw as int,
                    i,
                ),
        decreases th - y,
    {
        let mut x: usize = 0;
        while x < tw
            invariant
                0 < aw <= tw <= 128,
                0 < ah <= th <= 128,
                total == raw_pixels@.len(),
                y < th,
                x <= tw,
                out@.len() == y * tw + x,
                forall|i: int|
                    0 <= i < out@.len() ==> out@[i] == canvas_pixel(
                        raw_pixels@,
                        aw as int,
                        ah as int,
                        tw as int,
                        i,
                    ),
            decreases tw - x,
        {
            proof {
                lemma_fundamental_div_mod_converse(y * tw + x, tw as int, y as int, x as int);
            }
            assert(y * aw + x <= 128 * 128) by (nonlinear_arith)
                requires
                    y < 128,
                    aw <= 128,
                    x <= 128,
            ;
            let value: u8 = if x < aw && y < ah && y * aw + x < total {
                raw_pixels[y * aw + x]
            } else {
                0
            };
            out.push(value);
            x += 1;
        }
        assert(y * tw + tw == (y + 1) * tw) by (nonlinear_arith);
        y += 1;
    }
    assert(th * tw == tw * th) by (nonlinear_arith);
    assert(out@ =~= canvas(raw_pixels@, aw as int, ah as int, tw as int, th as int));
    out
}

/// The level below a level of `w` by `h`.
fn downsample(level: &Vec<u8>, w: usize, h: usize) -> (out: Vec<u8>)
    requires
        1 < w <= 128,
        1 < h <= 128,
        level@.len() == w * h,
    ensures
        out@ == downsampled(level@, w as int, h as int),
        out@.len() == (w / 2) * (h / 2),
{
    let new_w: usize = w / 2;
    let new_h: usize = h / 2;
    let mut out: Vec<u8> = Vec::new();
    let mut y: usize = 0;
    while y < new_h
        invariant
            1 < w <= 128,
            1 < h <= 128,
            new_w == w / 2,
            new_h == h / 2,
            level@.len() == w * h,
            y <= new_h,
            out@.len() == y * new_w,
            forall|i: int| 0 <= i < out@.len() ==> out@[i] == box_pixel(level@, w as int, i),
        decreases new_h - y,
    {
        let mut x: usize = 0;
        while x < new_w
            invariant
                1 < w <= 128,
                1 < h <= 128,
                new_w == w / 2,
                new_h == h / 2,
                level@.len() == w * h,
                y < new_h,
                x <= new_w,
                out@.len() == y * new_w + x,
                forall|i: int| 0 <= i < out@.len() ==> out@[i] == box_pixel(level@, w as int, i),
            decreases new_w - x,
        {
            proof {
                lemma_fundamental_div_mod_converse(
                    y * new_w + x,
                    new_w as int,
                    y as int,
                    x as int,
                );
            }
            assert((2 * y + 1) * w + 2 * x + 1 < w * h && (2 * y) * w + 2 * x + 1 < w * h && 0 <= (
            2 * y) * w <= 128 * 128 && (2 * y + 1) * w <= 128 * 128) by (nonlinear_arith)
                requires
                    2 * y + 1 < h,
                    2 * x + 1 < w,
                    0 <= y,
                    0 <= x,
                    h <= 128,
                    w <= 128,
            ;
            let tl: u32 = level[(2 * y) * w + 2 * x] as u32;
            let tr: u32 = level[(2 * y) * w + 2 * x + 1] as u32;
            let bl: u32 = level[(2 * y + 1) * w + 2 * x] as u32;
            let br: u32 = level[(2 * y + 1) * w + 2 * x + 1] as u32;
            out.push(((tl + tr + bl + br) / 4) as u8);
            x += 1;
        }
        assert(y * new_w + new_w == (y + 1) * new_w) by (nonlinear_arith);
        y += 1;
    }
    assert(new_h * new_w == (w / 2) * (h / 2)) by (nonlinear_arith)
        requires
            new_w == w / 2,
            new_h == h / 2,
    ;
    assert(out@ =~= downsampled(level@, w as int, h as int));
    out
}

/// The canvas and the levels below it, one after the other.
fn build_pyramid(canvas: Vec<u8>, tw: usize, th: usize, mipmap_level: usize) -> (out: Vec<u8>)
    requires
        tw <= 128,
        th <= 128,
        canvas@.len() == tw * th,
    ensures
        out@ == pyramid_from(canvas@, tw as int, th as int, mipmap_level - 1),
{
    let mut left: usize = if mipmap_level >= 1 {
        mipmap_level - 1
    } else {
        0
    };
    let ghost target = pyramid_from(canvas@, tw as int, th as int, mipmap_level - 1);
    let mut done: Vec<u8> = Vec::new();
    let mut level: Vec<u8> = canvas;
    let mut w: usize = tw;
    let mut h: usize = th;
    assert(done@ + target =~= target);
    while left > 0 && w > 1 && h > 1
        invariant
            w <= 128,
            h <= 128,
            level@.len() == w * h,
            done@ + pyramid_from(level@, w as int, h as int, left as int) == target,
        decreases left,
    {
        let below: Vec<u8> = downsample(&level, w, h);
        let ghost before = done@;
        done.extend_from_slice(level.as_slice());
        assert(done@ + pyramid_from(below@, w as int / 2, h as int / 2, left - 1) =~= before
            + pyramid_from(level@, w as int, h as int, left as int));
        level = below;
        w = w / 2;
        h = h / 2;
        left -= 1;
    }
    done.extend_from_slice(level.as_slice());
    done
}

/// Encodes a bitmap of `actual_width` by `actual_height` as a textured
/// payload of at most `mipmap_level` mip levels.
///
/// A bitmap with an empty side gives the empty payload. Else the payload
/// is the raw texture where compressing does not make it shorter, and the
/// compressed texture where it does. Pixels that `raw_pixels` is too short
/// to hold count as zero.
pub fn encode_glyph_texture(
    raw_pixels: &[u8],
    actual_width: u8,
    actual_height: u8,
    mipmap_level: usize,
) -> (texture: EncodedTexture)
    requires
        actual_width <= 128,
        actual_height <= 128,
    ensures
        (actual_width == 0 || actual_height == 0) ==> {
            &&& texture.texture_width == 0
            &&& texture.texture_height == 0
            &&& texture.data@.len() == 0
            &&& texture.compressed_size == 0
        },
        (actual_width > 0 && actual_height > 0) ==> encodes(
            texture.texture_width,
            texture.texture_height,
            texture.data@,
            texture.compressed_size,
            raw_pixels@,
            actual_width as int,
            actual_height as int,
            mipmap_level as int,
        ),
        (actual_width > 0 && actual_height > 0) ==> {
            let raw = texture_payload(
                raw_pixels@,
                actual_width as int,
                actual_height as int,
                mipmap_level as int,
            );
            &&& texture.compressed_size == 0 ==> texture.data@ == raw
            &&& texture.compressed_size != 0 ==> decode(texture.data@, 10, 2) == raw
        },
{
    if actual_width == 0 || actual_height == 0 {
        return EncodedTexture {
            texture_width: 0,
            texture_height: 0,
            data: Vec::new(),
            compressed_size: 0,
        };
    }
    proof {
        lemma_next_power_small(actual_width as int);
        lemma_next_power_small(actual_height as int);
    }
    let tw: usize = ceil_power_of_2(actual_width as u32) as usize;
    let th: usize = ceil_power_of_2(actual_height as u32) as usize;
    let canvas: Vec<u8> = blit(raw_pixels, actual_width as usize, actual_height as usize, tw, th);
    proof {
        lemma_pyramid_len(canvas@, tw as int, th as int, mipmap_level - 1);
        assert(tw * th <= 128 * 128) by (nonlinear_arith)
            requires
                tw <= 128,
                th <= 128,
        ;
        assert(0 < tw * th) by (nonlinear_arith)
            requires
                0 < tw,
                0 < th,
        ;
    }
    let raw_combined_data: Vec<u8> = build_pyramid(canvas, tw, th, mipmap_level);
    let compressed_data: Vec<u8> = compress(raw_combined_data.as_slice(), 10, 2);
    proof {
        lemma_round_trip(raw_combined_data@, 10, 2);
        if compressed_data@.len() == 0 {
            assert(decode(compressed_data@, 10, 2) =~= Seq::<u8>::empty());
        }
    }
    if compressed_data.len() >= raw_combined_data.len() {
        EncodedTexture {
            texture_width: tw as u8,
            texture_height: th as u8,
            data: raw_combined_data,
            compressed_size: 0,
        }
    } else {
        let len: u16 = compressed_data.len() as u16;
        EncodedTexture {
            texture_width: tw as u8,
            texture_height: th as u8,
            data: compressed_data,
            compressed_size: len,
        }
    }
}


/// How many levels a texture of `w` by `h` is built with when up to
/// `more` levels may follow the first.
pub open spec fn built_levels(w: int, h: int, more: int) -> int
    decreases more,
{
    if more <= 0 || w <= 1 || h <= 1 {
        1
    } else {
        1 + built_levels(w / 2, h / 2, more - 1)
    }
}

/// Halving once more is halving the half.
proof fn lemma_halved_shift(v: int, level: int)
    requires
        0 <= level,
    ensures
        halved(v, level + 1) == halved(v / 2, level),
    decreases level,
{
    reveal_with_fuel(halved, 3);
    if level > 0 {
        lemma_halved_shift(v, level - 1);
    }
}

/// The levels of a texture are its first level and the levels of the
/// texture half its size.
proof fn lemma_levels_size_shift(w: int, h: int, levels: int)
    requires
        0 <= levels,
    ensures
        levels_size(w, h, levels + 1) == w * h + levels_size(w / 2, h / 2, levels),
    decreases levels,
{
    reveal_with_fuel(levels_size, 3);
    reveal_with_fuel(halved, 2);
    if levels > 0 {
        lemma_levels_size_shift(w, h, levels - 1);
        lemma_halved_shift(w, levels - 1);
        lemma_halved_shift(h, levels - 1);
    }
}

/// The levels that are built take the bytes that their sizes announce:
/// level `k` has `(w >> k) * (h >> k)` bytes, and the first level comes
/// first.
pub proof fn lemma_pyramid_layout(level: Seq<u8>, w: int, h: int, more: int)
    requires
        0 <= w,
        0 <= h,
        level.len() == w * h,
    ensures
        pyramid_from(level, w, h, more).len() == levels_size(w, h, built_levels(w, h, more)),
        pyramid_from(level, w, h, more).subrange(0, w * h) == level,
        1 <= built_levels(w, h, more),
    decreases more,
{
    let all = pyramid_from(level, w, h, more);
    if more <= 0 || w <= 1 || h <= 1 {
        reveal_with_fuel(levels_size, 2);
        assert(all.subrange(0, w * h) =~= level);
    } else {
        let below = downsampled(level, w, h);
        assert(0 <= (w / 2) * (h / 2)) by (nonlinear_arith)
            requires
                0 <= w / 2,
                0 <= h / 2,
        ;
        lemma_pyramid_layout(below, w / 2, h / 2, more - 1);
        lemma_levels_size_shift(w, h, built_levels(w / 2, h / 2, more - 1));
        assert(all.subrange(0, w * h) =~= level);
    }
}

/// A level with an empty side takes no bytes, and none after it does.
proof fn lemma_levels_size_rises(w: int, h: int, levels: int, later: int)
    requires
        0 <= w,
        0 <= h,
        0 <= levels <= later,
    ensures
        levels_size(w, h, levels) <= levels_size(w, h, later),
        0 <= halved(w, levels),
        0 <= halved(h, levels),
    decreases later,
{
    lemma_halved_sign(w, levels);
    lemma_halved_sign(h, levels);
    if later > levels {
        lemma_levels_size_rises(w, h, levels, later - 1);
        lemma_halved_sign(w, later - 1);
        lemma_halved_sign(h, later - 1);
        assert(0 <= halved(w, later - 1) * halved(h, later - 1)) by (nonlinear_arith)
            requires
                0 <= halved(w, later - 1),
                0 <= halved(h, later - 1),
        ;
    }
}

/// Halving keeps a dimension from going negative.
proof fn lemma_halved_sign(v: int, level: int)
    requires
        0 <= v,
        0 <= level,
    ensures
        0 <= halved(v, level),
    decreases level,
{
    if level > 0 {
        lemma_halved_sign(v, level - 1);
    }
}

/// A built level has no empty side.
proof fn lemma_built_sides(w: int, h: int, more: int, level: int)
    requires
        0 < w,
        0 < h,
        0 <= level < built_levels(w, h, more),
    ensures
        0 < halved(w, level),
        0 < halved(h, level),
    decreases level,
{
    if level > 0 {
        lemma_built_sides(w / 2, h / 2, more - 1, level - 1);
        lemma_halved_shift(w, level - 1);
        lemma_halved_shift(h, level - 1);
    }
}

/// A payload that holds exactly the levels that were built shows them
/// all to the reader, up to the four that the reader looks for.
pub proof fn lemma_built_levels_present(w: int, h: int, more: int, upto: int)
    requires
        0 < w,
        0 < h,
        0 <= upto <= 4,
    ensures
        levels_present(w, h, levels_size(w, h, built_levels(w, h, more)), upto) == (if upto
            <= built_levels(w, h, more) {
            upto
        } else {
            built_levels(w, h, more)
        }),
    decreases upto,
{
    let built = built_levels(w, h, more);
    let len = levels_size(w, h, built);
    lemma_built_at_least_one(w, h, more);
    if upto > 0 {
        lemma_built_levels_present(w, h, more, upto - 1);
        if upto <= built {
            lemma_built_sides(w, h, more, upto - 1);
            lemma_levels_size_rises(w, h, upto, built);
        } else if upto - 1 == built {
            lemma_levels_size_rises(w, h, built, built);
            if halved(w, built) > 0 && halved(h, built) > 0 {
                assert(0 < halved(w, built) * halved(h, built)) by (nonlinear_arith)
                    requires
                        0 < halved(w, built),
                        0 < halved(h, built),
                ;
            }
        }
    }
}

/// A texture is built with one level at least.
proof fn lemma_built_at_least_one(w: int, h: int, more: int)
    ensures
        1 <= built_levels(w, h, more),
    decreases more,
{
    if !(more <= 0 || w <= 1 || h <= 1) {
        lemma_built_at_least_one(w / 2, h / 2, more - 1);
    }
}


/// The raw payload of a bitmap holds as many levels as were built, each
/// of the length that its size announces, and the canvas first. A reader
/// finds them all, up to the four it looks for.
pub proof fn lemma_texture_levels(raw: Seq<u8>, aw: int, ah: int, mipmap_level: int)
    requires
        0 < aw <= 128,
        0 < ah <= 128,
    ensures
        ({
            let tw = next_power_of_two(aw);
            let th = next_power_of_two(ah);
            let payload = texture_payload(raw, aw, ah, mipmap_level);
            let built = built_levels(tw, th, mipmap_level - 1);
            &&& payload.len() == levels_size(tw, th, built)
            &&& payload.subrange(0, tw * th) == canvas(raw, aw, ah, tw, th)
            &&& levels_present(tw, th, payload.len() as int, 4) == (if built < 4 {
                built
            } else {
                4
            })
        }),
{
    let tw = next_power_of_two(aw);
    let th = next_power_of_two(ah);
    lemma_next_power_small(aw);
    lemma_next_power_small(ah);
    assert(0 <= tw * th) by (nonlinear_arith)
        requires
            0 <= tw,
            0 <= th,
    ;
    lemma_pyramid_layout(canvas(raw, aw, ah, tw, th), tw, th, mipmap_level - 1);
    lemma_built_levels_present(tw, th, mipmap_level - 1, 4);
}


/// What a bitmap is encoded as unpacks to the bitmap's raw payload: the
/// first mip level that a reader cuts from it is the canvas, and the reader
/// finds every level that was built, up to four.
pub proof fn lemma_encoded_texture_unpacks(
    texture_width: u8,
    texture_height: u8,
    data: Seq<u8>,
    compressed_size: u16,
    raw_pixels: Seq<u8>,
    aw: int,
    ah: int,
    mipmap_level: int,
)
    requires
        0 < aw <= 128,
        0 < ah <= 128,
        encodes(
            texture_width,
            texture_height,
            data,
            compressed_size,
            raw_pixels,
            aw,
            ah,
            mipmap_level,
        ),
    ensures
        ({
            let w = texture_width as int;
            let h = texture_height as int;
            let unpacked = if compressed_size != 0 {
                decode(data, 10, 2)
            } else {
                data
            };
            let built = built_levels(w, h, mipmap_level - 1);
            &&& unpacked == texture_payload(raw_pixels, aw, ah, mipmap_level)
            &&& mip_level(unpacked, w, h, 0) == canvas(raw_pixels, aw, ah, w, h)
            &&& levels_present(w, h, unpacked.len() as int, 4) == (if built < 4 {
                built
            } else {
                4
            })
        }),
{
    let w = next_power_of_two(aw);
    let h = next_power_of_two(ah);
    let raw = texture_payload(raw_pixels, aw, ah, mipmap_level);
    let packed = compressed(raw, 10, 2);
    lemma_next_power_small(aw);
    lemma_next_power_small(ah);
    lemma_texture_levels(raw_pixels, aw, ah, mipmap_level);
    lemma_round_trip(raw, 10, 2);
    lemma_pyramid_len(canvas(raw_pixels, aw, ah, w, h), w, h, mipmap_level - 1);
    assert(0 < w * h <= 128 * 128) by (nonlinear_arith)
        requires
            0 < w <= 128,
            0 < h <= 128,
    ;
    if packed.len() == 0 {
        assert(decode(packed, 10, 2) =~= Seq::<u8>::empty());
    }
    reveal_with_fuel(levels_size, 2);
}

} // verus!
