//! The byte-level alphabet: every byte value has a printable code point that
//! stands for it, so that any text can be merged without an unknown symbol.
use vstd::prelude::*;
use vstd::utf8::char_u32_cast;

verus! {

/// `char::from_u32` gives the character of a code point, and nothing for a
/// number that is no code point: a surrogate, or a number beyond the last
/// code point.
pub assume_specification[ char::from_u32 ](i: u32) -> (r: Option<char>)
    ensures
        (i <= 0xD7FF || 0xE000 <= i <= 0x10FFFF) ==> r == Some(i as char),
        !(i <= 0xD7FF || 0xE000 <= i <= 0x10FFFF) ==> r is None,
;

/// Whether a byte is printable as it is and therefore stands for itself.
pub open spec fn stands_for_itself(b: u8) -> bool {
    33 <= b <= 126 || 161 <= b <= 172 || 174 <= b
}

/// The code point of the character that stands for a byte. A printable byte
/// stands for itself; the others follow the byte values, in order, from 256.
pub open spec fn byte_code_point(b: u8) -> u32 {
    if stands_for_itself(b) {
        b as u32
    } else if b <= 32 {
        (256 + b) as u32
    } else if b <= 160 {
        (b + 162) as u32
    } else {
        323
    }
}

/// The character that stands for a byte.
pub open spec fn byte_to_unicode(b: u8) -> char {
    byte_code_point(b) as char
}

/// The byte that a character stands for, if it stands for one.
pub open spec fn unicode_to_byte(c: char) -> Option<u8> {
    let u = c as u32;
    if 33 <= u <= 126 || 161 <= u <= 172 || 174 <= u <= 255 {
        Some(u as u8)
    } else if 256 <= u <= 288 {
        Some((u - 256) as u8)
    } else if 289 <= u <= 322 {
        Some((u - 162) as u8)
    } else if u == 323 {
        Some(173u8)
    } else {
        None
    }
}

/// The two directions of the alphabet undo each other on bytes: the
/// character that stands for a byte stands for that byte and no other.
pub proof fn lemma_byte_round_trip(b: u8)
    ensures
        unicode_to_byte(byte_to_unicode(b)) == Some(b),
        byte_to_unicode(b) as u32 == byte_code_point(b),
{
}

/// A character that stands for a byte is the character of that byte.
pub proof fn lemma_char_round_trip(c: char)
    ensures
        unicode_to_byte(c) matches Some(b) ==> byte_to_unicode(b) == c,
{
    match unicode_to_byte(c) {
        Some(b) => {
            char_u32_cast(c, c as u32);
        },
        None => {},
    }
}

/// The character that stands for a byte.
pub fn byte_to_char(b: u8) -> (r: char)
    ensures
        r == byte_to_unicode(b),
{
    let code: u32 = if (33 <= b && b <= 126) || (161 <= b && b <= 172) || 174 <= b {
        b as u32
    } else if b <= 32 {
        256 + b as u32
    } else if b <= 160 {
        b as u32 + 162
    } else {
        323
    };
    char::from_u32(code).unwrap()
}

/// The byte that a character stands for, if it stands for one.
pub fn char_to_byte(c: char) -> (r: Option<u8>)
    ensures
        r == unicode_to_byte(c),
{
    let u: u32 = c as u32;
    if (33 <= u && u <= 126) || (161 <= u && u <= 172) || (174 <= u && u <= 255) {
        Some(u as u8)
    } else if 256 <= u && u <= 288 {
        Some((u - 256) as u8)
    } else if 289 <= u && u <= 322 {
        Some((u - 162) as u8)
    } else if u == 323 {
        Some(173u8)
    } else {
        None
    }
}

} // verus!
