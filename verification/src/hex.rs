//! Character codes as hexadecimal text, as the metadata file writes them.

use vstd::prelude::*;

verus! {

/// The character of a hexadecimal digit: `0` to `9`, then `A` to `F`.
pub open spec fn hex_digit(d: int) -> u8 {
    if d < 10 {
        (48 + d) as u8
    } else {
        (55 + d) as u8
    }
}

/// A number in hexadecimal, with capital letters, and with zeros in front
/// where it has fewer than `width` digits.
pub open spec fn hex_text(value: int, width: int) -> Seq<u8>
    decreases value, width,
{
    if value < 16 && width <= 1 {
        seq![hex_digit(value)]
    } else if value < 0 {
        Seq::empty()
    } else {
        hex_text(value / 16, width - 1).push(hex_digit(value % 16))
    }
}

/// The value of a hexadecimal digit, small or capital.
pub open spec fn digit_value(c: u8) -> Option<int> {
    if 48 <= c <= 57 {
        Some(c - 48)
    } else if 65 <= c <= 70 {
        Some(c - 55)
    } else if 97 <= c <= 102 {
        Some(c - 87)
    } else {
        None
    }
}

/// The value of a run of hexadecimal digits; nothing if one of them is no
/// digit.
pub open spec fn digits_value(text: Seq<u8>) -> Option<int>
    decreases text.len(),
{
    if text.len() == 0 {
        Some(0)
    } else {
        match (digits_value(text.drop_last()), digit_value(text.last())) {
            (Some(v), Some(d)) => Some(16 * v + d),
            _ => None,
        }
    }
}

/// Whether `text` starts with `0x`.
pub open spec fn has_prefix(text: Seq<u8>) -> bool {
    text.len() >= 2 && text[0] == 48 && text[1] == 120
}

/// The digits of a hexadecimal text: what follows `0x`, if the text starts
/// with it, and then a plus sign, if there is one.
pub open spec fn hex_body(text: Seq<u8>) -> Seq<u8> {
    let unprefixed = if has_prefix(text) {
        text.skip(2)
    } else {
        text
    };
    if unprefixed.len() > 0 && unprefixed[0] == 43 {
        unprefixed.skip(1)
    } else {
        unprefixed
    }
}

/// The number that a hexadecimal text stands for: at least one digit,
/// nothing else, and a value of 32 bits.
pub open spec fn parsed_hex(text: Seq<u8>) -> Option<u32> {
    let digits = hex_body(text);
    if digits.len() == 0 {
        None
    } else {
        match digits_value(digits) {
            Some(v) => if v <= u32::MAX {
                Some(v as u32)
            } else {
                None
            },
            None => None,
        }
    }
}

/// Appends a number in hexadecimal, with zeros in front where it has
/// fewer than `width` digits.
fn push_hex(out: &mut Vec<u8>, value: u32, width: usize)
    ensures
        final(out)@ == old(out)@ + hex_text(value as int, width as int),
    decreases value, width,
{
    let digit: u8 = (value % 16) as u8;
    let character: u8 = if digit < 10 {
        48 + digit
    } else {
        55 + digit
    };
    if value < 16 && width <= 1 {
        out.push(character);
        assert(out@ =~= old(out)@ + hex_text(value as int, width as int));
    } else {
        let narrower: usize = if width >= 1 {
            width - 1
        } else {
            0
        };
        push_hex(out, value / 16, narrower);
        out.push(character);
        proof {
            if width == 0 {
                lemma_hex_text_width(value as int / 16, 0, -1);
            }
            assert(out@ =~= old(out)@ + hex_text(value as int, width as int));
        }
    }
}

/// A width of one or less asks for no zeros in front.
proof fn lemma_hex_text_width(value: int, width: int, other: int)
    requires
        0 <= value,
        width <= 1,
        other <= 1,
    ensures
        hex_text(value, width) == hex_text(value, other),
    decreases value,
{
    if value >= 16 {
        lemma_hex_text_width(value / 16, width - 1, other - 1);
    }
}

/// A character code as the metadata file writes it: in hexadecimal, with
/// capital letters and at least four digits.
pub fn format_hex(value: u32) -> (text: Vec<u8>)
    ensures
        text@ == hex_text(value as int, 4),
{
    let mut text: Vec<u8> = Vec::new();
    push_hex(&mut text, value, 4);
    assert(text@ =~= hex_text(value as int, 4));
    text
}

/// The number that a hexadecimal text stands for: an optional `0x`, an
/// optional plus sign, and then digits, small or capital, whose value fits
/// 32 bits.
pub fn parse_hex(text: &[u8]) -> (value: Option<u32>)
    ensures
        value == parsed_hex(text@),
{
    let total: usize = text.len();
    let mut start: usize = 0;
    if total >= 2 && text[0] == 48 && text[1] == 120 {
        start = 2;
    }
    if start < total && text[start] == 43 {
        start = start + 1;
    }
    let ghost digits = text@.skip(start as int);
    assert(digits =~= hex_body(text@));
    if start == total {
        return None;
    }
    let mut acc: u32 = 0;
    let mut i: usize = start;
    assert(digits.take(0) =~= Seq::<u8>::empty());
    while i < total
        invariant
            start <= i <= total,
            total == text@.len(),
            digits == text@.skip(start as int),
            digits == hex_body(text@),
            digits.len() > 0,
            digits_value(digits.take(i - start)) == Some(acc as int),
        decreases total - i,
    {
        let c: u8 = text[i];
        let ghost upto = digits.take(i - start + 1);
        assert(upto.drop_last() =~= digits.take(i - start));
        assert(upto.last() == c);
        let d: u32 = if 48 <= c && c <= 57 {
            (c - 48) as u32
        } else if 65 <= c && c <= 70 {
            (c - 55) as u32
        } else if 97 <= c && c <= 102 {
            (c - 87) as u32
        } else {
            proof {
                assert(digit_value(c) is None);
                assert(digits_value(upto) is None);
                lemma_digits_value_grows(digits, i - start + 1);
            }
            return None;
        };
        assert(digit_value(c) == Some(d as int));
        assert(digits_value(upto) == Some(16 * acc + d));
        if acc > (u32::MAX - d) / 16 {
            proof {
                assert(16 * acc + d > u32::MAX);
                lemma_digits_value_grows(digits, i - start + 1);
            }
            return None;
        }
        acc = acc * 16 + d;
        i += 1;
    }
    assert(digits.take(total - start) =~= digits);
    Some(acc)
}

/// A run of digits is worth at least as much as each run that it starts
/// with, and is worth nothing if one of those is.
proof fn lemma_digits_value_grows(text: Seq<u8>, upto: int)
    requires
        0 <= upto <= text.len(),
    ensures
        digits_value(text.take(upto)) is None ==> digits_value(text) is None,
        digits_value(text) matches Some(v) ==> digits_value(text.take(upto)) matches Some(part)
            && 0 <= part <= v,
    decreases text.len() - upto,
{
    if upto == text.len() {
        assert(text.take(upto) =~= text);
        lemma_digits_value_sign(text);
    } else {
        lemma_digits_value_grows(text, upto + 1);
        assert(text.take(upto + 1).drop_last() =~= text.take(upto));
        lemma_digits_value_sign(text.take(upto));
    }
}

/// The value of a run of digits is not negative.
proof fn lemma_digits_value_sign(text: Seq<u8>)
    ensures
        digits_value(text) matches Some(v) ==> 0 <= v,
    decreases text.len(),
{
    if text.len() > 0 {
        lemma_digits_value_sign(text.drop_last());
    }
}

/// The text of a number consists of capital hexadecimal digits whose
/// value is the number.
proof fn lemma_hex_text_digits(value: int, width: int)
    requires
        0 <= value,
    ensures
        hex_text(value, width).len() >= 1,
        digits_value(hex_text(value, width)) == Some(value),
        forall|i: int|
            0 <= i < hex_text(value, width).len() ==> digit_value(
                #[trigger] hex_text(value, width)[i],
            ) is Some && hex_text(value, width)[i] != 120 && hex_text(value, width)[i] != 43,
    decreases value, width,
{
    if value < 16 && width <= 1 {
        let text = hex_text(value, width);
        assert(text.drop_last() =~= Seq::<u8>::empty());
        assert(digits_value(text.drop_last()) == Some(0int));
    } else {
        let front = hex_text(value / 16, width - 1);
        lemma_hex_text_digits(value / 16, width - 1);
        let text = hex_text(value, width);
        assert(text.drop_last() =~= front);
    }
}

/// A code that is written and read back is the code that was written.
pub proof fn lemma_hex_read_back(value: u32)
    ensures
        parsed_hex(hex_text(value as int, 4)) == Some(value),
{
    let text = hex_text(value as int, 4);
    lemma_hex_text_digits(value as int, 4);
    reveal_with_fuel(hex_text, 5);
    assert(text.len() >= 4);
    assert(text[1] != 120);
    assert(text[0] != 43);
    assert(hex_body(text) == text);
}

} // verus!
