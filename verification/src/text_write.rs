//! Writing text into the bytes of a frame, and the tests on a text that
//! decide how it is written.

use crate::text::{
    encode_text, is_latin1, latin1_encode, nul_free, terminator, units_to_le, utf16_char_units,
    utf16_units, LATIN1, UTF16, UTF16BE, UTF8,
};
use vstd::prelude::*;
use vstd::utf8::encode_utf8;

verus! {

/// The code units of a text with one more character are those of the text,
/// then those of the character.
pub proof fn lemma_utf16_units_push(s: Seq<char>, c: char)
    ensures
        utf16_units(s.push(c)) == utf16_units(s) + utf16_char_units(c),
    decreases s.len(),
{
    if s.len() == 0 {
        assert(s.push(c).skip(1) =~= Seq::<char>::empty());
        assert(utf16_units(s.push(c)) =~= utf16_char_units(c) + utf16_units(Seq::empty()));
        assert(utf16_units(s) + utf16_char_units(c) =~= utf16_char_units(c));
    } else {
        assert(s.push(c).skip(1) =~= s.skip(1).push(c));
        lemma_utf16_units_push(s.skip(1), c);
        assert(utf16_units(s.push(c)) =~= utf16_char_units(s[0]) + (utf16_units(s.skip(1))
            + utf16_char_units(c)));
        assert(utf16_units(s) + utf16_char_units(c) =~= utf16_char_units(s[0]) + (utf16_units(
            s.skip(1),
        ) + utf16_char_units(c)));
    }
}

/// Whether every character of `s` fits in one byte.
pub fn fits_latin1(s: &str) -> (r: bool)
    ensures
        r == is_latin1(s@),
{
    let mut ok: bool = true;
    for c in it: s.chars()
        invariant
            it.seq() == s@,
            ok == is_latin1(s@.take(it.index() as int)),
    {
        let ghost seen = s@.take(it.index() as int);
        assert(s@.take(it.index() + 1) =~= seen.push(c));
        proof {
            if is_latin1(seen.push(c)) {
                assert forall|j: int| 0 <= j < seen.len() implies (#[trigger] seen[j] as u32)
                    < 256 by {
                    assert(seen.push(c)[j] == seen[j]);
                }
                assert(seen.push(c)[seen.len() as int] == c);
            }
        }
        if c as u32 >= 256 {
            ok = false;
        }
    }
    assert(s@.take(s@.len() as int) =~= s@);
    ok
}

/// Whether no character of `s` is NUL.
pub fn has_no_nul(s: &str) -> (r: bool)
    ensures
        r == nul_free(s@),
{
    let mut ok: bool = true;
    for c in it: s.chars()
        invariant
            it.seq() == s@,
            ok == nul_free(s@.take(it.index() as int)),
    {
        let ghost seen = s@.take(it.index() as int);
        assert(s@.take(it.index() + 1) =~= seen.push(c));
        proof {
            if nul_free(seen.push(c)) {
                assert forall|j: int| 0 <= j < seen.len() implies #[trigger] seen[j] != '\0' by {
                    assert(seen.push(c)[j] == seen[j]);
                }
                assert(seen.push(c)[seen.len() as int] == c);
            }
        }
        if c == '\0' {
            ok = false;
        }
    }
    assert(s@.take(s@.len() as int) =~= s@);
    ok
}

/// Whether the last character of `s` is NUL.
pub fn ends_with_nul(s: &str) -> (r: bool)
    ensures
        r == (s@.len() > 0 && s@.last() == '\0'),
{
    let mut last_is_nul: bool = false;
    for c in it: s.chars()
        invariant
            it.seq() == s@,
            last_is_nul == (it.index() > 0 && s@[it.index() - 1] == '\0'),
    {
        last_is_nul = c == '\0';
    }
    last_is_nul
}

/// Appends `s` in Latin-1.
pub fn push_latin1(out: &mut Vec<u8>, s: &str)
    requires
        is_latin1(s@),
    ensures
        final(out)@ == old(out)@ + latin1_encode(s@),
{
    let ghost before = out@;
    assert(out@ =~= before + latin1_encode(s@.take(0)));
    for c in it: s.chars()
        invariant
            it.seq() == s@,
            is_latin1(s@),
            out@ == before + latin1_encode(s@.take(it.index() as int)),
    {
        let ghost seen = s@.take(it.index() as int);
        assert(s@.take(it.index() + 1) =~= seen.push(c));
        assert(s@[it.index() as int] == c);
        assert((c as u32) < 256);
        let byte: u8 = (c as u32) as u8;
        assert(latin1_encode(seen.push(c)) =~= latin1_encode(seen).push(byte));
        out.push(byte);
        assert(out@ =~= before + latin1_encode(seen.push(c)));
    }
    assert(s@.take(s@.len() as int) =~= s@);
}

/// Appends `s` in UTF-16, low byte first, behind a byte order mark.
pub fn push_utf16(out: &mut Vec<u8>, s: &str)
    ensures
        final(out)@ == old(out)@ + encode_text(s@, UTF16),
{
    let ghost before = out@;
    let ghost mark = seq![0xFFu8, 0xFEu8];
    out.push(0xFF);
    out.push(0xFE);
    assert(s@.take(0) =~= Seq::<char>::empty());
    assert(out@ =~= before + mark + units_to_le(utf16_units(s@.take(0))));
    for c in it: s.chars()
        invariant
            it.seq() == s@,
            mark == seq![0xFFu8, 0xFEu8],
            out@ == before + mark + units_to_le(utf16_units(s@.take(it.index() as int))),
    {
        let ghost seen = s@.take(it.index() as int);
        let ghost sofar = out@;
        assert(s@.take(it.index() + 1) =~= seen.push(c));
        proof {
            lemma_utf16_units_push(seen, c);
        }
        let code: u32 = c as u32;
        if code < 0x10000 {
            let unit: u16 = code as u16;
            out.push((unit % 256) as u8);
            out.push((unit / 256) as u8);
            assert(utf16_char_units(c) =~= seq![unit]);
            assert(units_to_le(utf16_units(seen) + seq![unit]) =~= units_to_le(utf16_units(seen))
                + seq![(unit % 256) as u8, (unit / 256) as u8]);
        } else {
            let high: u16 = (0xD800 + (code - 0x10000) / 1024) as u16;
            let low: u16 = (0xDC00 + (code - 0x10000) % 1024) as u16;
            out.push((high % 256) as u8);
            out.push((high / 256) as u8);
            out.push((low % 256) as u8);
            out.push((low / 256) as u8);
            assert(utf16_char_units(c) =~= seq![high, low]);
            assert(units_to_le(utf16_units(seen) + seq![high, low]) =~= units_to_le(
                utf16_units(seen),
            ) + seq![
                (high % 256) as u8,
                (high / 256) as u8,
                (low % 256) as u8,
                (low / 256) as u8,
            ]);
        }
        assert(out@ =~= before + mark + units_to_le(utf16_units(seen.push(c))));
    }
    assert(s@.take(s@.len() as int) =~= s@);
    assert(out@ =~= before + (mark + units_to_le(utf16_units(s@))));
}

/// Appends `s` in UTF-8.
pub fn push_utf8(out: &mut Vec<u8>, s: &str)
    ensures
        final(out)@ == old(out)@ + encode_utf8(s@),
{
    out.extend_from_slice(s.as_bytes());
}

/// Appends `s` in the encoding that `enc` names: Latin-1, UTF-16 with byte
/// order mark, or UTF-8.
pub fn push_text(out: &mut Vec<u8>, s: &str, enc: u8)
    requires
        enc == LATIN1 || enc == UTF16 || enc == UTF8,
        enc == LATIN1 ==> is_latin1(s@),
    ensures
        final(out)@ == old(out)@ + encode_text(s@, enc),
{
    if enc == LATIN1 {
        push_latin1(out, s);
    } else if enc == UTF16 {
        push_utf16(out, s);
    } else {
        push_utf8(out, s);
    }
}

/// Appends the terminator of the encoding that `enc` names.
pub fn push_terminator(out: &mut Vec<u8>, enc: u8)
    ensures
        final(out)@ == old(out)@ + terminator(enc),
{
    let ghost before = out@;
    out.push(0);
    if enc == UTF16 || enc == UTF16BE {
        out.push(0);
    }
    assert(out@ =~= before + terminator(enc));
}

} // verus!
