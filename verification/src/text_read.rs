//! Reading text out of the bytes of a frame.

use crate::text::{
    decode_text, find_terminator, is_wide, latin1_decode, strip_trailing_nuls, terminator_len,
    units_from_be, units_from_le, utf16_decode, LATIN1, UTF16, UTF16BE, UTF8,
};
use vstd::prelude::*;
use vstd::slice::slice_subrange;
use vstd::utf8::{decode_utf8, encode_utf8, encode_utf8_decode_utf8, is_scalar, valid_utf8};

verus! {

/// `String::push` of std, which appends one character to the string.
#[verifier::external_body]
fn push_char(s: &mut String, c: char)
    ensures
        final(s)@ == old(s)@.push(c),
{
    s.push(c);
}

/// `char::from_u32` of std, which gives the character with the code `v` where
/// `v` is a Unicode scalar value (at most 0x10FFFF and no surrogate), and
/// `None` for any other number.
#[verifier::external_body]
fn char_from_u32(v: u32) -> (r: Option<char>)
    ensures
        r == (if is_scalar(v) {
            Some(v as char)
        } else {
            None::<char>
        }),
{
    char::from_u32(v)
}

/// `std::str::from_utf8`, which hands the bytes back as a string slice where
/// they are well-formed UTF-8, and fails where they are not. The slice it
/// hands back holds exactly the bytes it was given.
#[verifier::external_body]
fn str_from_utf8(b: &[u8]) -> (r: Option<&str>)
    ensures
        r is Some <==> valid_utf8(b@),
        r matches Some(s) ==> encode_utf8(s@) == b@,
{
    std::str::from_utf8(b).ok()
}

/// `rest` after `acc`, where there is a `rest`.
spec fn prepend(acc: Seq<char>, rest: Option<Seq<char>>) -> Option<Seq<char>> {
    match rest {
        Some(r) => Some(acc + r),
        None => None,
    }
}

/// The code units of `b` in the byte order asked for.
pub open spec fn units_from(b: Seq<u8>, big_endian: bool) -> Seq<u16> {
    if big_endian {
        units_from_be(b)
    } else {
        units_from_le(b)
    }
}

/// The string made of the characters of `v`.
pub fn string_from_chars(v: &[char]) -> (r: String)
    ensures
        r@ == v@,
{
    let mut s = String::new();
    let mut i: usize = 0;
    while i < v.len()
        invariant
            i <= v@.len(),
            s@ == v@.take(i as int),
        decreases v@.len() - i,
    {
        push_char(&mut s, v[i]);
        assert(v@.take(i + 1) =~= v@.take(i as int).push(v@[i as int]));
        i = i + 1;
    }
    assert(v@.take(v@.len() as int) =~= v@);
    s
}

/// The characters of `s`, in order.
pub fn chars_of(s: &str) -> (r: Vec<char>)
    ensures
        r@ == s@,
{
    let mut v: Vec<char> = Vec::new();
    for c in it: s.chars()
        invariant
            v@ == it.seq().take(it.index() as int),
    {
        assert(it.seq().take(it.index() + 1) =~= it.seq().take(it.index() as int).push(c));
        v.push(c);
    }
    assert(s@.take(s@.len() as int) =~= s@);
    v
}

/// Reads Latin-1: every byte is the character with that code.
pub fn decode_latin1(b: &[u8]) -> (r: Vec<char>)
    ensures
        r@ == latin1_decode(b@),
{
    let mut v: Vec<char> = Vec::new();
    let mut i: usize = 0;
    while i < b.len()
        invariant
            i <= b@.len(),
            v@.len() == i,
            forall|j: int| 0 <= j < i ==> v@[j] == b@[j] as char,
        decreases b@.len() - i,
    {
        v.push(b[i] as char);
        i = i + 1;
    }
    assert(v@ =~= latin1_decode(b@));
    v
}

/// The code unit that starts at byte `2 * k`.
fn unit_at(b: &[u8], k: usize, big_endian: bool) -> (u: u16)
    requires
        2 * k + 1 < b@.len(),
    ensures
        u == units_from(b@, big_endian)[k as int],
{
    let len: usize = b.len();
    assert(2 * k + 1 < len);
    let first: u16 = b[2 * k] as u16;
    let second: u16 = b[2 * k + 1] as u16;
    if big_endian {
        256 * first + second
    } else {
        first + 256 * second
    }
}

/// Reads UTF-16 in the byte order asked for. Fails where a surrogate stands
/// alone; a last byte without partner is left out.
pub fn decode_utf16(b: &[u8], big_endian: bool) -> (r: Option<Vec<char>>)
    ensures
        match r {
            Some(v) => utf16_decode(units_from(b@, big_endian)) == Some(v@),
            None => utf16_decode(units_from(b@, big_endian)) is None,
        },
{
    let n: usize = b.len() / 2;
    let ghost u = units_from(b@, big_endian);
    let mut out: Vec<char> = Vec::new();
    let mut k: usize = 0;
    assert(out@ + utf16_decode(u).unwrap() =~= utf16_decode(u).unwrap());
    assert(u.skip(0) =~= u);
    while k < n
        invariant
            k <= n,
            n == b@.len() / 2,
            n == u.len(),
            u == units_from(b@, big_endian),
            utf16_decode(u) == prepend(out@, utf16_decode(u.skip(k as int))),
        decreases n - k,
    {
        let ghost rest = u.skip(k as int);
        let u0: u16 = unit_at(b, k, big_endian);
        assert(rest[0] == u0);
        if u0 < 0xD800 || u0 > 0xDFFF {
            let c: char = match char_from_u32(u0 as u32) {
                Some(c) => c,
                None => { return None; },
            };
            proof {
                assert(rest.skip(1) =~= u.skip(k + 1));
                let tail = utf16_decode(u.skip(k + 1));
                if tail is Some {
                    assert(out@.push(c) + tail.unwrap() =~= out@ + (seq![c] + tail.unwrap()));
                }
            }
            out.push(c);
            k = k + 1;
        } else if u0 <= 0xDBFF && k + 1 < n {
            let u1: u16 = unit_at(b, k + 1, big_endian);
            assert(rest[1] == u1);
            if 0xDC00 <= u1 && u1 <= 0xDFFF {
                let code: u32 = 0x10000 + (u0 as u32 - 0xD800) * 1024 + (u1 as u32 - 0xDC00);
                let c: char = match char_from_u32(code) {
                    Some(c) => c,
                    None => { return None; },
                };
                proof {
                    assert(rest.skip(2) =~= u.skip(k + 2));
                    let tail = utf16_decode(u.skip(k + 2));
                    if tail is Some {
                        assert(out@.push(c) + tail.unwrap() =~= out@ + (seq![c] + tail.unwrap()));
                    }
                }
                out.push(c);
                k = k + 2;
            } else {
                return None;
            }
        } else {
            return None;
        }
    }
    assert(out@ + Seq::<char>::empty() =~= out@);
    Some(out)
}

/// Reads UTF-8. Fails where the bytes are not well-formed.
pub fn decode_utf8_chars(b: &[u8]) -> (r: Option<Vec<char>>)
    ensures
        match r {
            Some(v) => valid_utf8(b@) && v@ == decode_utf8(b@),
            None => !valid_utf8(b@),
        },
{
    match str_from_utf8(b) {
        Some(s) => {
            proof {
                encode_utf8_decode_utf8(s@);
            }
            Some(chars_of(s))
        },
        None => None,
    }
}

/// Reads the text that `b` holds under the encoding that `enc` names.
pub fn decode_chars(b: &[u8], enc: u8) -> (r: Option<Vec<char>>)
    ensures
        match r {
            Some(v) => decode_text(b@, enc) == Some(v@),
            None => decode_text(b@, enc) is None,
        },
{
    if enc == LATIN1 {
        Some(decode_latin1(b))
    } else if enc == UTF16 {
        if b.len() < 2 {
            Some(Vec::new())
        } else if b[0] == 0xFF && b[1] == 0xFE {
            decode_utf16(slice_subrange(b, 2, b.len()), false)
        } else if b[0] == 0xFE && b[1] == 0xFF {
            decode_utf16(slice_subrange(b, 2, b.len()), true)
        } else {
            None
        }
    } else if enc == UTF16BE {
        decode_utf16(b, true)
    } else if enc == UTF8 {
        decode_utf8_chars(b)
    } else {
        None
    }
}

/// How many characters of `v` are left once the NULs at its end are gone.
pub fn stripped_len(v: &[char]) -> (n: usize)
    ensures
        n <= v@.len(),
        v@.take(n as int) == strip_trailing_nuls(v@),
{
    let mut n: usize = v.len();
    assert(v@.take(n as int) =~= v@);
    while n > 0 && v[n - 1] == '\0'
        invariant
            n <= v@.len(),
            strip_trailing_nuls(v@) == strip_trailing_nuls(v@.take(n as int)),
        decreases n,
    {
        assert(v@.take(n as int).drop_last() =~= v@.take(n - 1));
        n = n - 1;
    }
    n
}

/// Reads a text under the encoding that `enc` names and drops the NULs at its
/// end.
pub fn decode_stripped(b: &[u8], enc: u8) -> (r: Option<String>)
    ensures
        match r {
            Some(s) => decode_text(b@, enc) is Some && s@ == strip_trailing_nuls(
                decode_text(b@, enc).unwrap(),
            ),
            None => decode_text(b@, enc) is None,
        },
{
    match decode_chars(b, enc) {
        Some(v) => {
            let n: usize = stripped_len(v.as_slice());
            Some(string_from_chars(slice_subrange(v.as_slice(), 0, n)))
        },
        None => None,
    }
}

/// Reads a text under the encoding that `enc` names, whole.
pub fn decode_string(b: &[u8], enc: u8) -> (r: Option<String>)
    ensures
        match r {
            Some(s) => decode_text(b@, enc) == Some(s@),
            None => decode_text(b@, enc) is None,
        },
{
    match decode_chars(b, enc) {
        Some(v) => Some(string_from_chars(v.as_slice())),
        None => None,
    }
}

/// Reads Latin-1 into a string.
pub fn decode_latin1_string(b: &[u8]) -> (r: String)
    ensures
        r@ == latin1_decode(b@),
{
    let v: Vec<char> = decode_latin1(b);
    string_from_chars(v.as_slice())
}

/// Finds the first terminator of the encoding in `b`.
pub fn find_terminator_in(b: &[u8], enc: u8) -> (r: Option<usize>)
    ensures
        match r {
            Some(i) => find_terminator(b@, enc, 0) == Some(i as int) && i + terminator_len(enc)
                <= b@.len(),
            None => find_terminator(b@, enc, 0) is None,
        },
{
    let wide: bool = enc == UTF16 || enc == UTF16BE;
    let step: usize = if wide {
        2
    } else {
        1
    };
    let mut i: usize = 0;
    while i < b.len() && b.len() - i >= step
        invariant
            i <= b@.len(),
            wide == is_wide(enc),
            step == terminator_len(enc),
            find_terminator(b@, enc, 0) == find_terminator(b@, enc, i as int),
        decreases b@.len() - i,
    {
        if b[i] == 0 && (!wide || b[i + 1] == 0) {
            return Some(i);
        }
        i = i + step;
    }
    None
}

} // verus!
