use fnt4_tool::glyph::{encode_glyph_texture, Glyph, GlyphData, GlyphInfo, LazyGlyph};
use fnt4_tool::lz77::decompress;
use fnt4_tool::metadata::FntVersion;
use fnt4_tool::utils::ceil_power_of_2;

fn noisy_pixels(count: usize) -> Vec<u8> {
    let mut state: u32 = 99;
    let mut out = Vec::with_capacity(count);
    for _ in 0..count {
        state = state.wrapping_mul(1_103_515_245).wrapping_add(12_345);
        out.push((state >> 16) as u8);
    }
    out
}

fn lazy_from_texture(aw: u8, ah: u8, tw: u8, th: u8, data: Vec<u8>, compressed: bool) -> LazyGlyph {
    LazyGlyph {
        info: GlyphInfo {
            bearing_x: 0,
            bearing_y: 0,
            advance: 0,
            actual_width: aw,
            actual_height: ah,
            texture_width: tw,
            texture_height: th,
            char_code: 0,
        },
        texture_size: (tw, th),
        glyph_data: GlyphData { data, is_compressed: compressed },
    }
}

#[test]
fn ceil_power_of_2_rounds_up() {
    assert_eq!(ceil_power_of_2(0), 0);
    assert_eq!(ceil_power_of_2(1), 1);
    assert_eq!(ceil_power_of_2(2), 2);
    assert_eq!(ceil_power_of_2(3), 4);
    assert_eq!(ceil_power_of_2(64), 64);
    assert_eq!(ceil_power_of_2(65), 128);
    assert_eq!(ceil_power_of_2(0x8000_0000), 0x8000_0000);
    assert_eq!(ceil_power_of_2(0x4000_0001), 0x8000_0000);
}

#[test]
fn empty_bitmap_gives_empty_payload() {
    let a = encode_glyph_texture(&[1, 2, 3], 0, 5, 4);
    assert_eq!((a.texture_width, a.texture_height, a.compressed_size), (0, 0, 0));
    assert!(a.data.is_empty());
    let b = encode_glyph_texture(&[1, 2, 3], 5, 0, 4);
    assert_eq!((b.texture_width, b.texture_height, b.compressed_size), (0, 0, 0));
    assert!(b.data.is_empty());
}

#[test]
fn one_pixel_is_stored_raw() {
    let t = encode_glyph_texture(&[200], 1, 1, 4);
    assert_eq!((t.texture_width, t.texture_height), (1, 1));
    assert_eq!(t.compressed_size, 0);
    assert_eq!(t.data, vec![200]);
}

#[test]
fn box_filter_takes_the_mean_rounded_down() {
    let t = encode_glyph_texture(&[10, 20, 30, 41], 2, 2, 2);
    assert_eq!((t.texture_width, t.texture_height), (2, 2));
    assert_eq!(t.compressed_size, 0);
    assert_eq!(t.data, vec![10, 20, 30, 41, 25]);
}

#[test]
fn bitmap_is_padded_to_powers_of_two() {
    let t = encode_glyph_texture(&[1, 2, 3, 4, 5, 6], 3, 2, 1);
    assert_eq!((t.texture_width, t.texture_height), (4, 2));
    let raw = if t.compressed_size == 0 { t.data.clone() } else { decompress(&t.data, 10, 2) };
    assert_eq!(raw, vec![1, 2, 3, 0, 4, 5, 6, 0]);
}

#[test]
fn missing_pixels_count_as_zero() {
    let t = encode_glyph_texture(&[9, 8, 7], 2, 2, 1);
    let raw = if t.compressed_size == 0 { t.data.clone() } else { decompress(&t.data, 10, 2) };
    assert_eq!(raw, vec![9, 8, 7, 0]);
}

#[test]
fn levels_stop_at_a_side_of_one() {
    // 4 by 2: the second level is 2 by 1, and nothing follows it.
    let t = encode_glyph_texture(&[4, 8, 12, 16, 20, 24, 28, 32], 4, 2, 4);
    let raw = if t.compressed_size == 0 { t.data.clone() } else { decompress(&t.data, 10, 2) };
    assert_eq!(raw, vec![4, 8, 12, 16, 20, 24, 28, 32, 14, 22]);
}

#[test]
fn zero_levels_asked_gives_the_canvas_alone() {
    let t = encode_glyph_texture(&[1, 2, 3, 4], 2, 2, 0);
    assert_eq!(t.data, vec![1, 2, 3, 4]);
    assert_eq!(t.compressed_size, 0);
}

#[test]
fn compressible_texture_is_stored_compressed() {
    let pixels = vec![0u8; 64];
    let t = encode_glyph_texture(&pixels, 8, 8, 1);
    assert_eq!(t.data, vec![2, 0, 240, 0]);
    assert_eq!(t.compressed_size, 4);
    assert_eq!(decompress(&t.data, 10, 2), pixels);
}

#[test]
fn size_guard_keeps_the_shorter_form() {
    for (w, h, levels) in [(1u8, 1u8, 1usize), (2, 2, 2), (8, 8, 4), (64, 32, 4), (13, 7, 3)] {
        let pixels = noisy_pixels(w as usize * h as usize);
        let t = encode_glyph_texture(&pixels, w, h, levels);
        let flat = vec![5u8; w as usize * h as usize];
        let u = encode_glyph_texture(&flat, w, h, levels);
        for texture in [t, u] {
            if texture.compressed_size == 0 {
                let again = fnt4_tool::lz77::compress(&texture.data, 10, 2);
                assert!(again.len() >= texture.data.len());
            } else {
                assert_eq!(texture.compressed_size as usize, texture.data.len());
                let raw = decompress(&texture.data, 10, 2);
                assert!(texture.data.len() < raw.len());
                assert_eq!(fnt4_tool::lz77::compress(&raw, 10, 2), texture.data);
            }
        }
    }
}

#[test]
fn pyramid_of_64_by_32_has_four_levels_of_known_length() {
    let pixels = noisy_pixels(64 * 32);
    let t = encode_glyph_texture(&pixels, 64, 32, 4);
    assert_eq!((t.texture_width, t.texture_height), (64, 32));
    let raw = if t.compressed_size == 0 { t.data.clone() } else { decompress(&t.data, 10, 2) };
    assert_eq!(raw.len(), 2048 + 512 + 128 + 32);
    let lazy = lazy_from_texture(64, 32, 64, 32, t.data, t.compressed_size != 0);
    let glyph = Glyph::from_lazy_glyph(&lazy, FntVersion::V1);
    assert_eq!(glyph.mipmap.len(), 4);
    assert_eq!(glyph.mipmap[&0].len(), 2048);
    assert_eq!(glyph.mipmap[&1].len(), 512);
    assert_eq!(glyph.mipmap[&2].len(), 128);
    assert_eq!(glyph.mipmap[&3].len(), 32);
    assert_eq!(glyph.mipmap[&0], pixels);
    assert_eq!((glyph.width, glyph.height), (64, 32));
}

#[test]
fn largest_bitmap_is_accepted() {
    let pixels = vec![1u8; 128 * 128];
    let t = encode_glyph_texture(&pixels, 128, 128, 4);
    assert_eq!((t.texture_width, t.texture_height), (128, 128));
    assert_ne!(t.compressed_size, 0);
    assert_eq!(decompress(&t.data, 10, 2).len(), 16384 + 4096 + 1024 + 256);
}
