//! Codec and container model for FNT4 bitmap fonts.
//!
//! An FNT4 font is a header, a table that gives each character slot the
//! offset of a glyph record, and the glyph records: metrics, sizes and a
//! payload of pixels, raw or compressed. The library reads and writes the
//! container ([`fnt`]), keeps glyph records and turns their payloads into
//! pixels ([`glyph`]), builds payloads from bitmaps ([`texture`]) and
//! compresses them ([`lz77`]). What is stated of these functions is proved;
//! [`written`] holds what follows for a font that is written and read again.

pub mod bytes;
pub mod error;
pub mod fnt;
pub mod glyph;
pub mod hex;
pub mod lz77;
pub mod metadata;
pub mod ordered;
pub mod rebuild;
pub mod texture;
pub mod utils;
pub mod written;
