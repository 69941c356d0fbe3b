//! Text as frames hold it: four encodings, terminators and trailing NULs.
//!
//! A text field of a frame opens with a marker byte that names its encoding:
//! 0 for Latin-1, 1 for UTF-16 with a byte order mark, 2 for UTF-16 big-endian
//! without one, 3 for UTF-8. This module says what each encoding means on
//! sequences of bytes and characters, and converts in both directions.

use vstd::prelude::*;
use vstd::utf8::{decode_utf8, encode_utf8, valid_utf8};

verus! {

/// Marker byte of Latin-1 text.
pub const LATIN1: u8 = 0;

/// Marker byte of UTF-16 text that opens with a byte order mark.
pub const UTF16: u8 = 1;

/// Marker byte of big-endian UTF-16 text without byte order mark.
pub const UTF16BE: u8 = 2;

/// Marker byte of UTF-8 text.
pub const UTF8: u8 = 3;

/// A character is a Unicode scalar value: at most 0x10FFFF and no surrogate.
pub proof fn lemma_char_range(c: char)
    ensures
        0 <= c as int <= 0x10FFFF,
        !(0xD800 <= c as int <= 0xDFFF),
        (c as u32) as int == c as int,
{
}

/// Every character fits in one byte.
pub open spec fn is_latin1(s: Seq<char>) -> bool {
    forall|i: int| 0 <= i < s.len() ==> (#[trigger] s[i] as u32) < 256
}

/// No character is NUL.
pub open spec fn nul_free(s: Seq<char>) -> bool {
    forall|i: int| 0 <= i < s.len() ==> #[trigger] s[i] != '\0'
}

/// The text without the NUL characters at its end.
pub open spec fn strip_trailing_nuls(s: Seq<char>) -> Seq<char>
    decreases s.len(),
{
    if s.len() > 0 && s.last() == '\0' {
        strip_trailing_nuls(s.drop_last())
    } else {
        s
    }
}

/// Each byte read as the character with that code.
pub open spec fn latin1_decode(b: Seq<u8>) -> Seq<char> {
    Seq::new(b.len(), |i: int| b[i] as char)
}

/// Each character written as the byte with its code. Meant for Latin-1 text.
pub open spec fn latin1_encode(s: Seq<char>) -> Seq<u8> {
    Seq::new(s.len(), |i: int| (s[i] as u32) as u8)
}

/// The one or two UTF-16 code units of a character.
pub open spec fn utf16_char_units(c: char) -> Seq<u16> {
    let v = c as u32 as int;
    if v < 0x10000 {
        seq![v as u16]
    } else {
        seq![(0xD800 + (v - 0x10000) / 1024) as u16, (0xDC00 + (v - 0x10000) % 1024) as u16]
    }
}

/// The UTF-16 code units of a text.
pub open spec fn utf16_units(s: Seq<char>) -> Seq<u16>
    decreases s.len(),
{
    if s.len() == 0 {
        Seq::empty()
    } else {
        utf16_char_units(s[0]) + utf16_units(s.skip(1))
    }
}

/// Whether a code unit is the first of a surrogate pair.
pub open spec fn is_high_surrogate(u: u16) -> bool {
    0xD800 <= u <= 0xDBFF
}

/// Whether a code unit is the second of a surrogate pair.
pub open spec fn is_low_surrogate(u: u16) -> bool {
    0xDC00 <= u <= 0xDFFF
}

/// The character that a surrogate pair stands for.
pub open spec fn surrogate_pair_char(high: u16, low: u16) -> char {
    ((0x10000 + (high - 0xD800) * 1024 + (low - 0xDC00)) as u32) as char
}

/// The text that a sequence of UTF-16 code units spells, or `None` where a
/// surrogate stands without its partner.
pub open spec fn utf16_decode(u: Seq<u16>) -> Option<Seq<char>>
    decreases u.len(),
{
    if u.len() == 0 {
        Some(Seq::empty())
    } else if !is_high_surrogate(u[0]) && !is_low_surrogate(u[0]) {
        match utf16_decode(u.skip(1)) {
            Some(rest) => Some(seq![(u[0] as u32) as char] + rest),
            None => None,
        }
    } else if is_high_surrogate(u[0]) && u.len() >= 2 && is_low_surrogate(u[1]) {
        match utf16_decode(u.skip(2)) {
            Some(rest) => Some(seq![surrogate_pair_char(u[0], u[1])] + rest),
            None => None,
        }
    } else {
        None
    }
}

/// Pairs of bytes read as code units, low byte first. A last byte without
/// partner is left out.
pub open spec fn units_from_le(b: Seq<u8>) -> Seq<u16> {
    Seq::new((b.len() / 2) as nat, |i: int| (b[2 * i] as int + 256 * (b[2 * i + 1] as int)) as u16)
}

/// Pairs of bytes read as code units, high byte first. A last byte without
/// partner is left out.
pub open spec fn units_from_be(b: Seq<u8>) -> Seq<u16> {
    Seq::new((b.len() / 2) as nat, |i: int| (256 * (b[2 * i] as int) + b[2 * i + 1] as int) as u16)
}

/// Code units written as pairs of bytes, low byte first.
pub open spec fn units_to_le(u: Seq<u16>) -> Seq<u8> {
    Seq::new(
        2 * u.len(),
        |i: int|
            if i % 2 == 0 {
                (u[i / 2] % 256) as u8
            } else {
                (u[i / 2] / 256) as u8
            },
    )
}

/// Code units written as pairs of bytes, high byte first.
pub open spec fn units_to_be(u: Seq<u16>) -> Seq<u8> {
    Seq::new(
        2 * u.len(),
        |i: int|
            if i % 2 == 0 {
                (u[i / 2] / 256) as u8
            } else {
                (u[i / 2] % 256) as u8
            },
    )
}

/// The text that `b` holds under the encoding that `enc` names, or `None`
/// where `enc` names none or the bytes are no text in it.
pub open spec fn decode_text(b: Seq<u8>, enc: u8) -> Option<Seq<char>> {
    if enc == LATIN1 {
        Some(latin1_decode(b))
    } else if enc == UTF16 {
        if b.len() < 2 {
            Some(Seq::empty())
        } else if b[0] == 0xFF && b[1] == 0xFE {
            utf16_decode(units_from_le(b.skip(2)))
        } else if b[0] == 0xFE && b[1] == 0xFF {
            utf16_decode(units_from_be(b.skip(2)))
        } else {
            None
        }
    } else if enc == UTF16BE {
        utf16_decode(units_from_be(b))
    } else if enc == UTF8 {
        if valid_utf8(b) {
            Some(decode_utf8(b))
        } else {
            None
        }
    } else {
        None
    }
}

/// The bytes of a text under an encoding. UTF-16 with byte order mark is
/// written low byte first.
pub open spec fn encode_text(s: Seq<char>, enc: u8) -> Seq<u8> {
    if enc == LATIN1 {
        latin1_encode(s)
    } else if enc == UTF16 {
        seq![0xFFu8, 0xFEu8] + units_to_le(utf16_units(s))
    } else if enc == UTF16BE {
        units_to_be(utf16_units(s))
    } else {
        encode_utf8(s)
    }
}

/// Whether an encoding counts in units of two bytes.
pub open spec fn is_wide(enc: u8) -> bool {
    enc == UTF16 || enc == UTF16BE
}

/// The length of the terminator that ends a string inside a frame.
pub open spec fn terminator_len(enc: u8) -> int {
    if is_wide(enc) {
        2
    } else {
        1
    }
}

/// The terminator that ends a string inside a frame.
pub open spec fn terminator(enc: u8) -> Seq<u8> {
    if is_wide(enc) {
        seq![0u8, 0u8]
    } else {
        seq![0u8]
    }
}

/// Whether a terminator stands at `i`: a zero byte, or in a wide encoding
/// a pair of zero bytes.
pub open spec fn terminator_at(b: Seq<u8>, enc: u8, i: int) -> bool {
    if is_wide(enc) {
        i + 1 < b.len() && b[i] == 0 && b[i + 1] == 0
    } else {
        i < b.len() && b[i] == 0
    }
}

/// Where the first terminator at or after `start` stands. A wide encoding is
/// searched in steps of two bytes from `start`.
pub open spec fn find_terminator(b: Seq<u8>, enc: u8, start: int) -> Option<int>
    decreases b.len() - start,
{
    if start < 0 || start + terminator_len(enc) > b.len() {
        None
    } else if terminator_at(b, enc, start) {
        Some(start)
    } else {
        find_terminator(b, enc, start + terminator_len(enc))
    }
}

/// A terminated string and what follows it: the bytes before the first
/// terminator, and the bytes after it.
pub open spec fn split_terminated(b: Seq<u8>, enc: u8) -> Option<(Seq<u8>, Seq<u8>)> {
    match find_terminator(b, enc, 0) {
        Some(i) => Some((b.take(i), b.skip(i + terminator_len(enc)))),
        None => None,
    }
}

/// The most compact encoding that keeps a text whole: Latin-1 where every
/// character fits, else UTF-8 where `utf8_allowed`, else UTF-16.
pub open spec fn pick_encoding(latin1: bool, utf8_allowed: bool) -> u8 {
    if latin1 {
        LATIN1
    } else if utf8_allowed {
        UTF8
    } else {
        UTF16
    }
}

} // verus!
