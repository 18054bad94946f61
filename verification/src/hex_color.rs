//! Colours written as `#RRGGBB` or `#RGB`.

use vstd::prelude::*;
use vstd::string::*;

verus! {

/// Whether `c` is one of `0-9`, `a-f`, `A-F`.
pub open spec fn is_hex_digit(c: char) -> bool {
    ('0' <= c && c <= '9') || ('a' <= c && c <= 'f') || ('A' <= c && c <= 'F')
}

/// The number that the hexadecimal digit `c` stands for.
pub open spec fn hex_value(c: char) -> int {
    if '0' <= c && c <= '9' {
        c as int - '0' as int
    } else if 'a' <= c && c <= 'f' {
        c as int - 'a' as int + 10
    } else {
        c as int - 'A' as int + 10
    }
}

/// A colour is well written when it is `#` followed by three or by six hexadecimal digits.
pub open spec fn spec_is_valid(text: Seq<char>) -> bool {
    &&& text.len() == 4 || text.len() == 7
    &&& text[0] == '#'
    &&& forall|i: int| 1 <= i < text.len() ==> is_hex_digit(#[trigger] text[i])
}

/// One channel (0 red, 1 green, 2 blue) of a well written colour: two digits in the long form,
/// one digit taken twice in the short form.
pub open spec fn spec_channel(text: Seq<char>, channel: int) -> int {
    if text.len() == 7 {
        16 * hex_value(text[1 + 2 * channel]) + hex_value(text[2 + 2 * channel])
    } else {
        17 * hex_value(text[1 + channel])
    }
}

/// The red, green and blue of a well written colour; nothing for any other text.
pub open spec fn spec_decode(text: Seq<char>) -> Option<Seq<u8>> {
    if spec_is_valid(text) {
        Some(
            seq![
                spec_channel(text, 0) as u8,
                spec_channel(text, 1) as u8,
                spec_channel(text, 2) as u8,
            ],
        )
    } else {
        None
    }
}

fn hex_digit(c: char) -> (value: Option<u8>)
    ensures
        value.is_some() == is_hex_digit(c),
        value.is_some() ==> value.unwrap() as int == hex_value(c) && value.unwrap() < 16,
{
    if '0' <= c && c <= '9' {
        Some((c as u32 - '0' as u32) as u8)
    } else if 'a' <= c && c <= 'f' {
        Some((c as u32 - 'a' as u32 + 10) as u8)
    } else if 'A' <= c && c <= 'F' {
        Some((c as u32 - 'A' as u32 + 10) as u8)
    } else {
        None
    }
}

/// Whether `text` is a colour: `#` and three or six hexadecimal digits behind it.
pub fn is_valid(text: &str) -> (valid: bool)
    ensures
        valid == spec_is_valid(text@),
{
    let n: usize = text.unicode_len();
    if n != 4 && n != 7 {
        return false;
    }
    if text.get_char(0) != '#' {
        return false;
    }
    let mut i: usize = 1;
    while i < n
        invariant
            1 <= i <= n,
            n == text@.len(),
            forall|j: int| 1 <= j < i ==> is_hex_digit(#[trigger] text@[j]),
        decreases n - i,
    {
        if hex_digit(text.get_char(i)).is_none() {
            return false;
        }
        i += 1;
    }
    true
}

fn channel(text: &str, at: usize) -> (value: u8)
    requires
        spec_is_valid(text@),
        at < 3,
    ensures
        value as int == spec_channel(text@, at as int),
{
    if text.unicode_len() == 7 {
        let high: u8 = hex_digit(text.get_char(1 + 2 * at)).unwrap();
        let low: u8 = hex_digit(text.get_char(2 + 2 * at)).unwrap();
        16 * high + low
    } else {
        let digit: u8 = hex_digit(text.get_char(1 + at)).unwrap();
        17 * digit
    }
}

/// Reads a colour: `#FF5733` is 255, 87, 51, and the short `#1a2` is `#11aa22`.
pub fn decode(text: &str) -> (color: Option<[u8; 3]>)
    ensures
        color.is_some() == spec_is_valid(text@),
        match color {
            Some(rgb) => Some(rgb@) == spec_decode(text@),
            None => spec_decode(text@).is_none(),
        },
{
    if is_valid(text) {
        let r: u8 = channel(text, 0);
        let g: u8 = channel(text, 1);
        let b: u8 = channel(text, 2);
        let rgb: [u8; 3] = [r, g, b];
        assert(rgb@ =~= spec_decode(text@).unwrap());
        Some(rgb)
    } else {
        None
    }
}

} // verus!
