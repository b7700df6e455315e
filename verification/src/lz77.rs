//! The bit-packed back-reference codec of FNT4 glyph payloads.
//!
//! A profile is the pair `(low_bits, ref_bytes)`: `(3, 1)` for the legacy
//! revision of the format and `(10, 2)` for the textured one.

pub mod planner;
pub mod search;
pub mod stream;

pub use planner::compress;
pub use search::contains_slice;
pub use stream::decompress;
pub use stream::encode_instructions;
pub use stream::Instruction;
