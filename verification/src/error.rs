//! How reading or writing a font can fail.

use vstd::prelude::*;

verus! {

/// The ways in which a font fails to be read or written.
#[derive(Debug, Clone, Copy, PartialEq, Eq, Structural)]
pub enum FntError {
    /// The buffer is shorter than a header, or does not start with `FNT4`.
    InvalidHeader,
    /// The header has the layout of neither revision.
    UnknownVersion,
    /// A length that the font declares is not the length that is there.
    SizeMismatch,
    /// The character table or a glyph record runs past the buffer's end.
    TruncatedRecord,
    /// The legacy revision cannot be written.
    UnsupportedOperation,
}

} // verus!
