//! Synchsafe integers and big-endian words.
//!
//! An ID3v2 size field spreads a 28-bit value over four bytes, seven bits to a
//! byte, so that no byte of the field has its high bit set.

use vstd::prelude::*;

verus! {

/// One more than the largest value a synchsafe word can carry.
pub const SYNCHSAFE_LIMIT: u32 = 0x1000_0000;

/// The synchsafe word for `n`: the four 7-bit groups of `n`, each moved into
/// the low bits of a byte of its own.
pub open spec fn spec_synchsafe(n: int) -> int {
    (n % 128) + ((n / 128) % 128) * 256 + ((n / 16384) % 128) * 65536 + ((n / 2097152) % 128)
        * 16777216
}

/// The value a word carries when only the low seven bits of each of its four
/// bytes count.
pub open spec fn spec_unsynchsafe(s: int) -> int {
    (s % 128) + ((s / 256) % 128) * 128 + ((s / 65536) % 128) * 16384 + ((s / 16777216) % 128)
        * 2097152
}

/// The number that four bytes spell, most significant byte first.
pub open spec fn spec_be_u32(b: Seq<u8>) -> int
    recommends
        b.len() == 4,
{
    b[0] as int * 16777216 + b[1] as int * 65536 + b[2] as int * 256 + b[3] as int
}

/// The four bytes of `n`, most significant first.
pub open spec fn spec_be_bytes(n: int) -> Seq<u8>
    recommends
        0 <= n < 0x1_0000_0000,
{
    seq![
        ((n / 16777216) % 256) as u8,
        ((n / 65536) % 256) as u8,
        ((n / 256) % 256) as u8,
        (n % 256) as u8,
    ]
}

/// Packs a 28-bit value into a synchsafe word.
pub fn synchsafe(n: u32) -> (r: u32)
    requires
        n < SYNCHSAFE_LIMIT,
    ensures
        r == spec_synchsafe(n as int),
        spec_unsynchsafe(r as int) == n,
        forall|i: int| 0 <= i < 4 ==> #[trigger] spec_be_bytes(r as int)[i] < 128,
{
    let r: u32 = (n & 0x7f) | ((n & 0x3f80) << 1) | ((n & 0x1f_c000) << 2) | ((n & 0xfe0_0000)
        << 3);
    assert(r == (n % 128) + ((n / 128) % 128) * 256 + ((n / 16384) % 128) * 65536 + ((n
        / 2097152) % 128) * 16777216) by (bit_vector)
        requires
            n < 0x1000_0000u32,
            r == (n & 0x7f) | ((n & 0x3f80) << 1) | ((n & 0x1f_c000) << 2) | ((n & 0xfe0_0000)
                << 3),
    ;
    proof {
        lemma_synchsafe_round_trip(n as int);
        lemma_synchsafe_bytes_clear(n as int);
    }
    r
}

/// Reads the 28-bit value out of a word, taking the low seven bits of each
/// byte and dropping the high ones.
pub fn unsynchsafe(s: u32) -> (r: u32)
    ensures
        r == spec_unsynchsafe(s as int),
        r < SYNCHSAFE_LIMIT,
{
    let r: u32 = (s & 0x7f) | ((s & 0x7f00) >> 1) | ((s & 0x7f_0000) >> 2) | ((s & 0x7f00_0000)
        >> 3);
    assert(r == (s % 128) + ((s / 256) % 128) * 128 + ((s / 65536) % 128) * 16384 + ((s
        / 16777216) % 128) * 2097152 && r < 0x1000_0000u32) by (bit_vector)
        requires
            r == (s & 0x7f) | ((s & 0x7f00) >> 1) | ((s & 0x7f_0000) >> 2) | ((s & 0x7f00_0000)
                >> 3),
    ;
    r
}

/// Unpacking what `spec_synchsafe` packed gives the value back, for every
/// value of 28 bits.
pub proof fn lemma_synchsafe_round_trip(n: int)
    requires
        0 <= n < SYNCHSAFE_LIMIT,
    ensures
        spec_unsynchsafe(spec_synchsafe(n)) == n,
        0 <= spec_synchsafe(n) < 0x8000_0000,
{
    let m: u32 = n as u32;
    let s: u32 = ((m % 128) + ((m / 128) % 128) * 256 + ((m / 16384) % 128) * 65536 + ((m / 2097152)
        % 128) * 16777216) as u32;
    assert(s == (m % 128) + ((m / 128) % 128) * 256 + ((m / 16384) % 128) * 65536 + ((m
        / 2097152) % 128) * 16777216);
    assert(s < 0x8000_0000u32 && (s % 128) + ((s / 256) % 128) * 128 + ((s / 65536) % 128)
        * 16384 + ((s / 16777216) % 128) * 2097152 == m) by (bit_vector)
        requires
            m < 0x1000_0000u32,
            s == (m % 128) + ((m / 128) % 128) * 256 + ((m / 16384) % 128) * 65536 + ((m
                / 2097152) % 128) * 16777216,
    ;
}

/// A synchsafe word keeps the high bit of each of its bytes clear.
pub proof fn lemma_synchsafe_bytes_clear(n: int)
    requires
        0 <= n < SYNCHSAFE_LIMIT,
    ensures
        forall|i: int| 0 <= i < 4 ==> #[trigger] spec_be_bytes(spec_synchsafe(n))[i] < 128,
{
    let m: u32 = n as u32;
    let s: u32 = ((m % 128) + ((m / 128) % 128) * 256 + ((m / 16384) % 128) * 65536 + ((m / 2097152)
        % 128) * 16777216) as u32;
    assert(s == (m % 128) + ((m / 128) % 128) * 256 + ((m / 16384) % 128) * 65536 + ((m
        / 2097152) % 128) * 16777216);
    assert((s / 16777216) % 256 < 128 && (s / 65536) % 256 < 128 && (s / 256) % 256 < 128 && s
        % 256 < 128) by (bit_vector)
        requires
            m < 0x1000_0000u32,
            s == (m % 128) + ((m / 128) % 128) * 256 + ((m / 16384) % 128) * 65536 + ((m
                / 2097152) % 128) * 16777216,
    ;
}

/// Reads four bytes at `pos` as a big-endian word.
pub fn read_u32_be(bytes: &[u8], pos: usize) -> (r: u32)
    requires
        pos + 4 <= bytes@.len(),
    ensures
        r == spec_be_u32(bytes@.subrange(pos as int, pos + 4)),
{
    let b0: u32 = bytes[pos] as u32;
    let b1: u32 = bytes[pos + 1] as u32;
    let b2: u32 = bytes[pos + 2] as u32;
    let b3: u32 = bytes[pos + 3] as u32;
    b0 * 16777216 + b1 * 65536 + b2 * 256 + b3
}

/// Appends the four bytes of `n` to `out`, most significant first.
pub fn write_u32_be(out: &mut Vec<u8>, n: u32)
    ensures
        final(out)@ == old(out)@ + spec_be_bytes(n as int),
{
    out.push((n >> 24) as u8);
    out.push(((n >> 16) & 0xff) as u8);
    out.push(((n >> 8) & 0xff) as u8);
    out.push((n & 0xff) as u8);
    assert((n >> 24) as u8 == ((n / 16777216) % 256) as u8 && ((n >> 16) & 0xff) as u8 == ((n
        / 65536) % 256) as u8 && ((n >> 8) & 0xff) as u8 == ((n / 256) % 256) as u8 && (n
        & 0xff) as u8 == (n % 256) as u8) by (bit_vector);
    assert(out@ =~= old(out)@ + spec_be_bytes(n as int));
}

/// Reading back the bytes of a word gives the word.
pub proof fn lemma_be_round_trip(n: int)
    requires
        0 <= n < 0x1_0000_0000,
    ensures
        spec_be_bytes(n).len() == 4,
        spec_be_u32(spec_be_bytes(n)) == n,
{
    let m: u32 = n as u32;
    let b0: u32 = (m / 16777216) % 256;
    let b1: u32 = (m / 65536) % 256;
    let b2: u32 = (m / 256) % 256;
    let b3: u32 = m % 256;
    assert(b0 * 16777216 + b1 * 65536 + b2 * 256 + b3 == m) by (bit_vector)
        requires
            b0 == (m / 16777216) % 256,
            b1 == (m / 65536) % 256,
            b2 == (m / 256) % 256,
            b3 == m % 256,
    ;
}

} // verus!
