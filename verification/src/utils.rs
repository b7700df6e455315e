use vstd::prelude::*;

verus! {

/// Whether `p` is a power of two: one of 1, 2, 4, ...
pub open spec fn is_power_of_two(p: int) -> bool
    decreases p,
{
    p == 1 || (p >= 2 && p % 2 == 0 && is_power_of_two(p / 2))
}

/// The first of `p`, `2 * p`, `4 * p`, ... that is at least `n`.
pub open spec fn doubled_up_to(n: int, p: int) -> int
    decreases
            (if p < n {
                n - p
            } else {
                0
            }),
{
    if p >= n || p <= 0 {
        p
    } else {
        doubled_up_to(n, 2 * p)
    }
}

/// The smallest power of two that is at least `n`; zero for zero.
pub open spec fn next_power_of_two(n: int) -> int {
    if n <= 0 {
        0
    } else {
        doubled_up_to(n, 1)
    }
}

/// Up to 128, the next power of two is at most 128.
pub proof fn lemma_next_power_small(n: int)
    requires
        0 < n <= 128,
    ensures
        n <= next_power_of_two(n) <= 128,
{
    reveal_with_fuel(doubled_up_to, 9);
}

/// The smallest power of two that is at least `n`; zero stays zero.
pub fn ceil_power_of_2(n: u32) -> (p: u32)
    requires
        n <= 0x8000_0000,
    ensures
        p == next_power_of_two(n as int),
        n == 0 ==> p == 0,
        n > 0 ==> is_power_of_two(p as int) && n <= p && (p as int) < 2 * (n as int),
{
    if n == 0 {
        return 0;
    }
    let mut p: u32 = 1;
    while p < n
        invariant
            0 < n <= 0x8000_0000,
            0 < p,
            is_power_of_two(p as int),
            p == 1 || (p as int) < 2 * (n as int),
            doubled_up_to(n as int, p as int) == next_power_of_two(n as int),
        decreases 2 * (n as int) - p as int,
    {
        assert(p << 1 == 2 * p) by (bit_vector)
            requires
                p < 0x8000_0000,
        ;
        p <<= 1;
    }
    p
}


/// The codes from `first` up to `upto`, the latter left out.
pub open spec fn codes_between(first: int, upto: int) -> Seq<u32> {
    Seq::new((upto - first) as nat, |i: int| (first + i) as u32)
}

/// The two-byte codes with lead byte `high` and trail bytes from 0x40 up
/// to `upto`, the latter left out, and without the trail byte 0x7F.
pub open spec fn row_codes(high: int, upto: int) -> Seq<u32>
    decreases upto,
{
    if upto <= 0x40 {
        Seq::empty()
    } else {
        let before = row_codes(high, upto - 1);
        if (upto - 1) % 128 == 127 {
            before
        } else {
            before.push((high * 256 + upto - 1) as u32)
        }
    }
}

/// The two-byte codes with lead bytes from `first` up to `upto`, the
/// latter left out, and trail bytes from 0x40 to 0xFC.
pub open spec fn band_codes(first: int, upto: int) -> Seq<u32>
    decreases upto - first,
{
    if upto <= first {
        Seq::empty()
    } else {
        band_codes(first, upto - 1) + row_codes(upto - 1, 0xFD)
    }
}

/// The Shift-JIS code of each character slot of a legacy font: ASCII,
/// half-width katakana, and the two bands of two-byte codes.
pub open spec fn sjis_codes() -> Seq<u32> {
    codes_between(0x20, 0x80) + codes_between(0xA0, 0xE0) + band_codes(0x81, 0xA0) + band_codes(
        0xE0,
        0xEF,
    )
}

/// Appends the codes from `first` up to `upto`, the latter left out.
fn push_codes(map: &mut Vec<u32>, first: u32, upto: u32)
    requires
        first <= upto,
    ensures
        final(map)@ == old(map)@ + codes_between(first as int, upto as int),
{
    let mut code: u32 = first;
    while code < upto
        invariant
            first <= code <= upto,
            map@ =~= old(map)@ + codes_between(first as int, code as int),
        decreases upto - code,
    {
        map.push(code);
        code += 1;
    }
}

/// Appends the two-byte codes with lead bytes from `first` up to `upto`,
/// the latter left out.
fn push_band(map: &mut Vec<u32>, first: u32, upto: u32)
    requires
        first <= upto <= 0x100,
    ensures
        final(map)@ == old(map)@ + band_codes(first as int, upto as int),
{
    let mut high: u32 = first;
    assert(map@ =~= old(map)@ + band_codes(first as int, first as int));
    while high < upto
        invariant
            first <= high <= upto <= 0x100,
            map@ == old(map)@ + band_codes(first as int, high as int),
        decreases upto - high,
    {
        let ghost before = map@;
        let mut low: u32 = 0x40;
        assert(map@ =~= before + row_codes(high as int, 0x40));
        while low < 0xFD
            invariant
                0x40 <= low <= 0xFD,
                high < 0x100,
                map@ == before + row_codes(high as int, low as int),
            decreases 0xFD - low,
        {
            if low % 128 != 127 {
                map.push(high * 256 + low);
                assert(map@ =~= before + row_codes(high as int, low + 1));
            }
            low += 1;
        }
        assert(map@ =~= old(map)@ + band_codes(first as int, high + 1));
        high += 1;
    }
}

/// The Shift-JIS code of each character slot of a legacy font, in slot
/// order.
pub fn generate_sjis_map() -> (map: Vec<u32>)
    ensures
        map@ == sjis_codes(),
{
    let mut map: Vec<u32> = Vec::with_capacity(8000);
    push_codes(&mut map, 0x20, 0x80);
    push_codes(&mut map, 0xA0, 0xE0);
    push_band(&mut map, 0x81, 0xA0);
    push_band(&mut map, 0xE0, 0xEF);
    assert(map@ =~= sjis_codes());
    map
}

/// The bytes of a Shift-JIS code: one byte for a code up to 0xFF, else
/// the code's two low bytes, high byte first.
pub open spec fn sjis_bytes(code: u32) -> Seq<u8> {
    if code <= 0xFF {
        seq![code as u8]
    } else {
        seq![(code / 256 % 256) as u8, (code % 256) as u8]
    }
}

/// What `encoding_rs` makes of `bytes` read as Shift-JIS: the text, and
/// whether a malformed sequence was replaced.
pub uninterp spec fn shift_jis_decoded(bytes: Seq<u8>) -> (Seq<char>, bool);

/// `encoding_rs::Encoding::decode` on `SHIFT_JIS`: the decoded text, one
/// `char` after the other, and the flag that says whether anything was
/// malformed. Both depend on the bytes alone. The encoding that was used,
/// which the call also returns, is dropped.
#[verifier::external_body]
fn shift_jis_decode(bytes: &[u8]) -> (decoded: (Vec<char>, bool))
    requires
        bytes@.len() <= 2,
    ensures
        (decoded.0@, decoded.1) == shift_jis_decoded(bytes@),
{
    let (text, _, had_errors) = encoding_rs::SHIFT_JIS.decode(bytes);
    (text.chars().collect(), had_errors)
}

/// The first character of a decoded text, unless something in it was
/// malformed.
pub open spec fn first_decoded(decoded: (Seq<char>, bool)) -> Option<char> {
    if decoded.1 || decoded.0.len() == 0 {
        None
    } else {
        Some(decoded.0[0])
    }
}

/// The first character of a decoded text, unless something in it was
/// malformed.
pub fn first_char_unless_malformed(text: &Vec<char>, had_errors: bool) -> (c: Option<char>)
    ensures
        c == first_decoded((text@, had_errors)),
{
    if had_errors || text.len() == 0 {
        None
    } else {
        Some(text[0])
    }
}

/// The character that a Shift-JIS code stands for, if it stands for one.
pub fn decode_sjis_u32(code: u32) -> (c: Option<char>)
    ensures
        c == first_decoded(shift_jis_decoded(sjis_bytes(code))),
{
    let mut bytes: Vec<u8> = Vec::new();
    if code <= 0xFF {
        bytes.push(code as u8);
    } else {
        bytes.push((code / 256 % 256) as u8);
        bytes.push((code % 256) as u8);
    }
    assert(bytes@ =~= sjis_bytes(code));
    let (text, had_errors) = shift_jis_decode(bytes.as_slice());
    first_char_unless_malformed(&text, had_errors)
}

} // verus!
