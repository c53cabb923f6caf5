//! Reading hex colours: whether a string is one, and whether it reads as a
//! dark background.
use vstd::prelude::*;

use crate::text::{chars_of, hex, is_hex};
use vstd::string::StringSliceAdditionalSpecFns;
use vstd::utf8::{
    encode_utf8, encode_utf8_valid_utf8, is_ascii_chars, is_ascii_chars_encode_utf8,
    is_char_boundary, is_char_boundary_iff_not_is_continuation_byte,
    is_char_boundary_start_end_of_seq,
};

verus! {

/// Whether a string is `#` and six hex digits.
pub open spec fn hex_colour(s: Seq<char>) -> bool {
    s.len() == 7 && s[0] == '#' && forall|i: int| 1 <= i < 7 ==> is_hex(#[trigger] s[i])
}

/// Whether a string is a six-digit hex colour.
pub fn is_valid_hex(color: &str) -> (r: bool)
    ensures
        r == hex_colour(color@),
{
    let cs = chars_of(color);
    if cs.len() != 7 || cs[0] != '#' {
        return false;
    }
    let mut i: usize = 1;
    while i < 7
        invariant
            1 <= i <= 7,
            cs@ == color@,
            cs@.len() == 7,
            forall|j: int| 1 <= j < i ==> is_hex(#[trigger] cs@[j]),
        decreases 7 - i,
    {
        if !hex(cs[i]) {
            return false;
        }
        i += 1;
    }
    true
}

/// Whether a byte is an ASCII hex digit.
pub open spec fn hex_byte(b: u8) -> bool {
    (48 <= b <= 57) || (65 <= b <= 70) || (97 <= b <= 102)
}

/// The value of an ASCII hex digit.
pub open spec fn hex_value(b: u8) -> nat {
    if 48 <= b <= 57 {
        (b - 48) as nat
    } else if 65 <= b <= 70 {
        (b - 55) as nat
    } else {
        (b - 87) as nat
    }
}

/// What two bytes read as a hexadecimal byte: two digits, or `+` and one
/// digit, as `u8::from_str_radix` takes them; anything else reads as zero.
pub open spec fn pair_value(x: u8, y: u8) -> nat {
    if x == 43 && hex_byte(y) {
        hex_value(y)
    } else if hex_byte(x) && hex_byte(y) {
        16 * hex_value(x) + hex_value(y)
    } else {
        0
    }
}

/// The colour channel written at byte `at`: two bytes that form a string of
/// their own, read as hexadecimal, or zero when they are missing, split a
/// character, or are not a number.
pub open spec fn channel_at(bytes: Seq<u8>, at: int) -> nat {
    if at + 2 <= bytes.len() && is_char_boundary(bytes, at) && is_char_boundary(bytes, at + 2) {
        pair_value(bytes[at], bytes[at + 1])
    } else {
        0
    }
}

/// The red, green and blue channels of a colour, with or without its `#`.
pub open spec fn channels(bytes: Seq<u8>) -> (nat, nat, nat) {
    let at: int = if bytes.len() > 0 && bytes[0] == 35 {
        1
    } else {
        0
    };
    (channel_at(bytes, at), channel_at(bytes, at + 2), channel_at(bytes, at + 4))
}

pub open spec fn max3(a: nat, b: nat, c: nat) -> nat {
    if a >= b && a >= c {
        a
    } else if b >= c {
        b
    } else {
        c
    }
}

pub open spec fn min3(a: nat, b: nat, c: nat) -> nat {
    if a <= b && a <= c {
        a
    } else if b <= c {
        b
    } else {
        c
    }
}

/// Whether a colour's lightness is below one half: the brightest and the
/// dimmest channel together come to less than one full channel.
pub open spec fn dark(bytes: Seq<u8>) -> bool {
    let (r, g, b) = channels(bytes);
    max3(r, g, b) + min3(r, g, b) < 255
}

/// The number a hex digit character stands for.
pub open spec fn digit_value(c: char) -> int {
    if '0' <= c && c <= '9' {
        c as int - '0' as int
    } else if 'a' <= c && c <= 'f' {
        c as int - 'a' as int + 10
    } else {
        c as int - 'A' as int + 10
    }
}

/// The channel that the two hex digits at `at` write, high digit first.
pub open spec fn written_channel(digits: Seq<char>, at: int) -> int {
    16 * digit_value(digits[at]) + digit_value(digits[at + 1])
}

proof fn lemma_hex_char_byte(c: char)
    requires
        is_hex(c),
    ensures
        hex_byte(c as u8),
        hex_value(c as u8) == digit_value(c),
{
}

/// Six hex digits, with or without a `#` before them, make a dark background
/// exactly when the brightest and the dimmest of the three channels they
/// write (red from the first pair, green from the second, blue from the
/// third) add up to less than 255. With the `#` they are a valid hex colour;
/// without it they are not.
pub proof fn six_digits_are_dark_when_their_extreme_channels_fall_short(
    digits: Seq<char>,
    marked: bool,
)
    requires
        digits.len() == 6,
        forall|i: int| 0 <= i < 6 ==> is_hex(#[trigger] digits[i]),
    ensures
        ({
            let text = if marked {
                seq!['#'] + digits
            } else {
                digits
            };
            let r = written_channel(digits, 0);
            let g = written_channel(digits, 2);
            let b = written_channel(digits, 4);
            let hi = if r >= g && r >= b {
                r
            } else if g >= b {
                g
            } else {
                b
            };
            let lo = if r <= g && r <= b {
                r
            } else if g <= b {
                g
            } else {
                b
            };
            &&& dark(encode_utf8(text)) == (hi + lo < 255)
            &&& hex_colour(text) == marked
        }),
{
    let text = if marked {
        seq!['#'] + digits
    } else {
        digits
    };
    let at: int = if marked {
        1
    } else {
        0
    };
    assert forall|i: int| 0 <= i < text.len() implies text[i] == digits[i - at] || (marked && i
        == 0) by {}
    assert(is_ascii_chars(text)) by {
        assert forall|i: int| 0 <= i < text.len() implies '\0' <= #[trigger] text[i] <= '\u{7f}' by {
            if !(marked && i == 0) {
                assert(text[i] == digits[i - at]);
                assert(is_hex(digits[i - at]));
            }
        }
    }
    is_ascii_chars_encode_utf8(text);
    let bytes = encode_utf8(text);
    encode_utf8_valid_utf8(text);
    is_char_boundary_start_end_of_seq(bytes);
    assert forall|j: int| 0 <= j < 6 implies #[trigger] bytes[at + j] == digits[j] as u8 && hex_byte(
        bytes[at + j],
    ) && hex_value(bytes[at + j]) == digit_value(digits[j]) && is_char_boundary(bytes, at + j) by {
        assert(text[at + j] == digits[j]);
        assert(is_hex(digits[j]));
        lemma_hex_char_byte(digits[j]);
        is_char_boundary_iff_not_is_continuation_byte(bytes, at + j);
    }
    assert(bytes.len() == at + 6);
    if marked {
        assert(text[0] == '#');
        assert(bytes[0] == 35);
    } else {
        assert(is_hex(digits[0]));
        assert(bytes[0] == digits[0] as u8);
        lemma_hex_char_byte(digits[0]);
    }
    assert(bytes[at + 0] == digits[0] as u8);
    assert(bytes[at + 1] == digits[1] as u8);
    assert(bytes[at + 2] == digits[2] as u8);
    assert(bytes[at + 3] == digits[3] as u8);
    assert(bytes[at + 4] == digits[4] as u8);
    assert(bytes[at + 5] == digits[5] as u8);
    assert(channel_at(bytes, at) == written_channel(digits, 0));
    assert(channel_at(bytes, at + 2) == written_channel(digits, 2));
    assert(channel_at(bytes, at + 4) == written_channel(digits, 4));
}

fn hex_digit_value(b: u8) -> (v: u8)
    requires
        hex_byte(b),
    ensures
        v == hex_value(b),
        v < 16,
{
    if b <= 57 {
        b - 48
    } else if b <= 70 {
        b - 55
    } else {
        b - 87
    }
}

fn is_hex_byte(b: u8) -> (r: bool)
    ensures
        r == hex_byte(b),
{
    (48 <= b && b <= 57) || (65 <= b && b <= 70) || (97 <= b && b <= 102)
}

fn channel(color: &str, at: usize) -> (v: u16)
    requires
        at <= 5,
    ensures
        v == channel_at(color.spec_bytes(), at as int),
        v <= 255,
{
    let bytes = color.as_bytes();
    if at + 2 > bytes.len() || !color.is_char_boundary(at) || !color.is_char_boundary(at + 2) {
        return 0;
    }
    let x = bytes[at];
    let y = bytes[at + 1];
    if x == 43 && is_hex_byte(y) {
        hex_digit_value(y) as u16
    } else if is_hex_byte(x) && is_hex_byte(y) {
        16 * (hex_digit_value(x) as u16) + hex_digit_value(y) as u16
    } else {
        0
    }
}

/// Whether a background reads as dark, by lightness.
///
/// Lightness is half the sum of the brightest and the dimmest channel, so it
/// is below one half exactly when those two come to less than 255. A channel
/// that cannot be read counts as zero.
pub fn is_dark_background(bg_hex: &str) -> (r: bool)
    ensures
        r == dark(bg_hex.spec_bytes()),
{
    let bytes = bg_hex.as_bytes();
    let at: usize = if bytes.len() > 0 && bytes[0] == 35 {
        1
    } else {
        0
    };
    let r = channel(bg_hex, at);
    let g = channel(bg_hex, at + 2);
    let b = channel(bg_hex, at + 4);
    let hi = if r >= g && r >= b {
        r
    } else if g >= b {
        g
    } else {
        b
    };
    let lo = if r <= g && r <= b {
        r
    } else if g <= b {
        g
    } else {
        b
    };
    hi + lo < 255
}

} // verus!
