//! Laws of the text encodings: what is written reads back, and a written
//! string holds no terminator.

use crate::text::{
    decode_text, encode_text, find_terminator, is_latin1, is_wide, latin1_decode, latin1_encode,
    lemma_char_range, nul_free, split_terminated, terminator, terminator_at, terminator_len,
    units_from_le, units_to_le, utf16_char_units, utf16_decode, utf16_units, LATIN1, UTF16, UTF8,
};
use vstd::prelude::*;
use vstd::utf8::{encode_scalar, encode_utf8, encode_utf8_decode_utf8, encode_utf8_valid_utf8};

verus! {

/// Latin-1 text written and read is the text.
pub proof fn lemma_latin1_round_trip(s: Seq<char>)
    requires
        is_latin1(s),
    ensures
        latin1_encode(s).len() == s.len(),
        latin1_decode(latin1_encode(s)) == s,
{
    assert forall|i: int| 0 <= i < s.len() implies latin1_decode(latin1_encode(s))[i] == s[i] by {
        lemma_char_range(s[i]);
        assert((s[i] as u32) < 256);
    }
    assert(latin1_decode(latin1_encode(s)) =~= s);
}

/// Bytes read as Latin-1 are Latin-1 text, and written again they are the
/// bytes.
pub proof fn lemma_latin1_decode(b: Seq<u8>)
    ensures
        is_latin1(latin1_decode(b)),
        latin1_encode(latin1_decode(b)) == b,
{
    assert(latin1_encode(latin1_decode(b)) =~= b);
}

/// Code units written low byte first and read back are the code units.
pub proof fn lemma_units_le_round_trip(u: Seq<u16>)
    ensures
        units_to_le(u).len() == 2 * u.len(),
        units_from_le(units_to_le(u)) == u,
{
    let b = units_to_le(u);
    assert forall|i: int| 0 <= i < u.len() implies units_from_le(b)[i] == u[i] by {
        assert(b[2 * i] == (u[i] % 256) as u8);
        assert(b[2 * i + 1] == (u[i] / 256) as u8);
    }
    assert(units_from_le(b) =~= u);
}

/// The code units of a character read back as the character, whatever
/// follows them.
pub proof fn lemma_utf16_decode_char(c: char, rest: Seq<u16>)
    ensures
        utf16_decode(utf16_char_units(c) + rest) == (match utf16_decode(rest) {
            Some(r) => Some(seq![c] + r),
            None => None,
        }),
{
    lemma_char_range(c);
    let v = c as u32 as int;
    let all = utf16_char_units(c) + rest;
    if v < 0x10000 {
        assert(all[0] == v as u16);
        assert(all.skip(1) =~= rest);
        assert((all[0] as u32) as char == c);
    } else {
        let high = (0xD800 + (v - 0x10000) / 1024) as u16;
        let low = (0xDC00 + (v - 0x10000) % 1024) as u16;
        assert(all[0] == high);
        assert(all[1] == low);
        assert(all.skip(2) =~= rest);
        assert(0x10000 + (high - 0xD800) * 1024 + (low - 0xDC00) == v);
    }
}

/// UTF-16 code units written and read are the text.
pub proof fn lemma_utf16_round_trip(s: Seq<char>)
    ensures
        utf16_decode(utf16_units(s)) == Some(s),
    decreases s.len(),
{
    if s.len() == 0 {
        assert(utf16_units(s) =~= Seq::<u16>::empty());
        assert(s =~= Seq::<char>::empty());
    } else {
        lemma_utf16_round_trip(s.skip(1));
        lemma_utf16_decode_char(s[0], utf16_units(s.skip(1)));
        assert(seq![s[0]] + s.skip(1) =~= s);
    }
}

/// A text written under a marker reads back under it: Latin-1 for Latin-1
/// text, UTF-16 and UTF-8 for any.
pub proof fn lemma_text_round_trip(s: Seq<char>, enc: u8)
    requires
        enc == LATIN1 || enc == UTF16 || enc == UTF8,
        enc == LATIN1 ==> is_latin1(s),
    ensures
        decode_text(encode_text(s, enc), enc) == Some(s),
{
    if enc == LATIN1 {
        lemma_latin1_round_trip(s);
    } else if enc == UTF16 {
        let u = utf16_units(s);
        let b = encode_text(s, enc);
        lemma_units_le_round_trip(u);
        lemma_utf16_round_trip(s);
        assert(b.skip(2) =~= units_to_le(u));
    } else {
        encode_utf8_valid_utf8(s);
        encode_utf8_decode_utf8(s);
    }
}

/// The code units of a character other than NUL are not zero.
pub proof fn lemma_utf16_char_units_nonzero(c: char)
    requires
        c != '\0',
    ensures
        forall|i: int|
            0 <= i < utf16_char_units(c).len() ==> #[trigger] utf16_char_units(c)[i] != 0,
{
    lemma_char_range(c);
}

/// The code units of a text without NUL are not zero, and there is an even
/// number of bytes to them.
pub proof fn lemma_utf16_units_nonzero(s: Seq<char>)
    requires
        nul_free(s),
    ensures
        forall|i: int| 0 <= i < utf16_units(s).len() ==> #[trigger] utf16_units(s)[i] != 0,
    decreases s.len(),
{
    if s.len() > 0 {
        assert(nul_free(s.skip(1))) by {
            assert forall|i: int| 0 <= i < s.skip(1).len() implies #[trigger] s.skip(1)[i]
                != '\0' by {
                assert(s.skip(1)[i] == s[i + 1]);
            }
        }
        lemma_utf16_units_nonzero(s.skip(1));
        lemma_utf16_char_units_nonzero(s[0]);
        let head = utf16_char_units(s[0]);
        let tail = utf16_units(s.skip(1));
        assert forall|i: int| 0 <= i < utf16_units(s).len() implies #[trigger] utf16_units(s)[i]
            != 0 by {
            if i < head.len() {
                assert(utf16_units(s)[i] == head[i]);
            } else {
                assert(utf16_units(s)[i] == tail[i - head.len()]);
            }
        }
    }
}

/// The bytes of a scalar value other than zero are not zero.
proof fn lemma_scalar_bytes_nonzero(v: u32)
    by (bit_vector)
    requires
        v != 0,
        v <= 0x10FFFF,
    ensures
        v <= 0x7F ==> (v & 0x7F) as u8 != 0,
        0xC0u8 | ((v >> 6) & 0x1F) as u8 != 0,
        0xE0u8 | ((v >> 12) & 0x0F) as u8 != 0,
        0xF0u8 | ((v >> 18) & 0x7) as u8 != 0,
        0x80u8 | (v & 0x3F) as u8 != 0,
        0x80u8 | ((v >> 6) & 0x3F) as u8 != 0,
        0x80u8 | ((v >> 12) & 0x3F) as u8 != 0,
{
}

/// UTF-8 writes no zero byte for a text without NUL.
pub proof fn lemma_utf8_nonzero(s: Seq<char>)
    requires
        nul_free(s),
    ensures
        forall|i: int| 0 <= i < encode_utf8(s).len() ==> #[trigger] encode_utf8(s)[i] != 0,
    decreases s.len(),
{
    if s.len() > 0 {
        assert(nul_free(s.drop_first())) by {
            assert forall|i: int| 0 <= i < s.drop_first().len() implies #[trigger] s.drop_first()[i]
                != '\0' by {
                assert(s.drop_first()[i] == s[i + 1]);
            }
        }
        lemma_utf8_nonzero(s.drop_first());
        lemma_char_range(s[0]);
        let v = s[0] as u32;
        assert(v != 0);
        lemma_scalar_bytes_nonzero(v);
        let head = encode_scalar(v);
        let tail = encode_utf8(s.drop_first());
        assert forall|i: int| 0 <= i < head.len() implies #[trigger] head[i] != 0 by {}
        assert forall|i: int| 0 <= i < encode_utf8(s).len() implies #[trigger] encode_utf8(s)[i]
            != 0 by {
            if i < head.len() {
                assert(encode_utf8(s)[i] == head[i]);
            } else {
                assert(encode_utf8(s)[i] == tail[i - head.len()]);
            }
        }
    }
}

/// Whether no terminator of the encoding stands in `b` at a place that a
/// search from the start would look at before `n`.
pub open spec fn terminator_free(b: Seq<u8>, enc: u8, n: int) -> bool {
    forall|j: int|
        0 <= j < n && j % terminator_len(enc) == 0 ==> !#[trigger] terminator_at(b, enc, j)
}

/// Where the first terminator stands at `n`, the search finds it there.
pub proof fn lemma_find_terminator(b: Seq<u8>, enc: u8, start: int, n: int)
    requires
        0 <= start <= n,
        start % terminator_len(enc) == 0,
        n % terminator_len(enc) == 0,
        terminator_free(b, enc, n),
        terminator_at(b, enc, n),
    ensures
        find_terminator(b, enc, start) == Some(n),
    decreases n - start,
{
    if start < n {
        assert(!terminator_at(b, enc, start));
        if is_wide(enc) {
            assert(terminator_len(enc) == 2);
            assert(start % 2 == 0 && n % 2 == 0);
            assert(start + 2 <= n);
            assert((start + 2) % 2 == 0);
        } else {
            assert(terminator_len(enc) == 1);
        }
        lemma_find_terminator(b, enc, start + terminator_len(enc), n);
    }
}

/// Latin-1 text without NUL is written without a zero byte.
proof fn lemma_latin1_terminator_free(s: Seq<char>, rest: Seq<u8>)
    requires
        is_latin1(s),
        nul_free(s),
    ensures
        terminator_free(latin1_encode(s) + rest, LATIN1, s.len() as int),
{
    let e = latin1_encode(s);
    let b = e + rest;
    assert forall|j: int| 0 <= j < s.len() implies !#[trigger] terminator_at(b, LATIN1, j) by {
        lemma_char_range(s[j]);
        assert(b[j] == e[j]);
        assert(s[j] != '\0');
    }
}

/// UTF-8 text without NUL is written without a zero byte.
proof fn lemma_utf8_terminator_free(s: Seq<char>, rest: Seq<u8>)
    requires
        nul_free(s),
    ensures
        terminator_free(encode_utf8(s) + rest, UTF8, encode_utf8(s).len() as int),
{
    let e = encode_utf8(s);
    let b = e + rest;
    lemma_utf8_nonzero(s);
    assert forall|j: int| 0 <= j < e.len() implies !#[trigger] terminator_at(b, UTF8, j) by {
        assert(b[j] == e[j]);
        assert(encode_utf8(s)[j] != 0);
    }
}

/// A code unit that is not zero has a byte that is not zero.
proof fn lemma_unit_bytes(u: u16)
    requires
        u != 0,
    ensures
        !((u % 256) as u8 == 0 && (u / 256) as u8 == 0),
{
}

/// UTF-16 text without NUL is written without a pair of zero bytes at an
/// even place.
proof fn lemma_utf16_terminator_free(s: Seq<char>, rest: Seq<u8>)
    requires
        nul_free(s),
    ensures
        encode_text(s, UTF16).len() == 2 + 2 * utf16_units(s).len(),
        terminator_free(encode_text(s, UTF16) + rest, UTF16, encode_text(s, UTF16).len() as int),
{
    let u = utf16_units(s);
    let w = units_to_le(u);
    let e = encode_text(s, UTF16);
    let b = e + rest;
    lemma_utf16_units_nonzero(s);
    assert(w.len() == 2 * u.len());
    assert(e =~= seq![0xFFu8, 0xFEu8] + w);
    assert(e.len() == 2 + 2 * u.len());
    assert forall|j: int| 0 <= j < e.len() && j % 2 == 0 implies !#[trigger] terminator_at(
        b,
        UTF16,
        j,
    ) by {
        assert(b[j] == e[j]);
        if j >= 2 {
            let k = (j - 2) / 2;
            assert(j - 2 == 2 * k);
            assert(0 <= k < u.len());
            assert(u[k] != 0);
            lemma_unit_bytes(u[k]);
            assert(b[j + 1] == e[j + 1]);
            assert(e[j] == w[j - 2]);
            assert(e[j + 1] == w[j - 1]);
            assert(w[2 * k] == (u[k] % 256) as u8);
            assert(w[2 * k + 1] == (u[k] / 256) as u8);
        } else {
            assert(j == 0);
            assert(e[0] == 0xFF);
        }
    }
}

/// A written text without NUL holds no terminator where a search would look,
/// and a wide encoding writes an even number of bytes.
pub proof fn lemma_written_terminator_free(s: Seq<char>, enc: u8, rest: Seq<u8>)
    requires
        enc == LATIN1 || enc == UTF16 || enc == UTF8,
        enc == LATIN1 ==> is_latin1(s),
        nul_free(s),
    ensures
        terminator_free(encode_text(s, enc) + rest, enc, encode_text(s, enc).len() as int),
        encode_text(s, enc).len() as int % terminator_len(enc) == 0,
{
    if enc == LATIN1 {
        lemma_latin1_terminator_free(s, rest);
    } else if enc == UTF8 {
        lemma_utf8_terminator_free(s, rest);
    } else {
        lemma_utf16_terminator_free(s, rest);
    }
}

/// A written text without NUL, its terminator and what follows split into
/// the written text and what follows.
pub proof fn lemma_split_written(s: Seq<char>, enc: u8, rest: Seq<u8>)
    requires
        enc == LATIN1 || enc == UTF16 || enc == UTF8,
        enc == LATIN1 ==> is_latin1(s),
        nul_free(s),
    ensures
        split_terminated(encode_text(s, enc) + terminator(enc) + rest, enc) == Some(
            (encode_text(s, enc), rest),
        ),
{
    let e = encode_text(s, enc);
    let b = e + terminator(enc) + rest;
    let n = e.len() as int;
    lemma_written_terminator_free(s, enc, terminator(enc) + rest);
    assert(b =~= e + (terminator(enc) + rest));
    assert(terminator_at(b, enc, n)) by {
        assert(b[n] == terminator(enc)[0]);
        if is_wide(enc) {
            assert(b[n + 1] == terminator(enc)[1]);
        }
    }
    lemma_find_terminator(b, enc, 0, n);
    assert(b.take(n) =~= e);
    assert(b.skip(n + terminator_len(enc)) =~= rest);
}

} // verus!
