//! How a tag lies in a file: the header of the tag, and the frames one after
//! another, each behind a header of its own.
//!
//! A tag opens with ten bytes: the marker `ID3`, the major version, a
//! revision, a byte of flags, and the size of what follows as a synchsafe
//! word. A frame opens with ten bytes as well: four for the identifier, four
//! for the size of the body (synchsafe in version 2.4, a plain big-endian word
//! before), two for flags.

use crate::frame::Version;
use crate::synchsafe::{spec_be_bytes, spec_be_u32, spec_synchsafe, spec_unsynchsafe};
use crate::text::latin1_decode;
use vstd::prelude::*;

verus! {

/// The length of the header of a tag, and of the header of a frame.
pub const HEADER_LEN: usize = 10;

/// A frame as it lies in the tag: the bytes of its identifier and its body.
pub struct RawFrame {
    pub id: Seq<u8>,
    pub body: Seq<u8>,
}

/// Whether `b` opens with the marker of a tag.
pub open spec fn has_marker(b: Seq<u8>) -> bool {
    b.len() >= 3 && b[0] == 0x49 && b[1] == 0x44 && b[2] == 0x33
}

/// The version that a major version byte names.
pub open spec fn version_of(major: u8) -> Option<Version> {
    if major == 2 {
        Some(Version::Id3v22)
    } else if major == 3 {
        Some(Version::Id3v23)
    } else if major == 4 {
        Some(Version::Id3v24)
    } else {
        None
    }
}

/// The major version byte of a version.
pub open spec fn major_of(v: Version) -> u8 {
    match v {
        Version::Id3v22 => 2,
        Version::Id3v23 => 3,
        Version::Id3v24 => 4,
    }
}

/// Whether the frames of a version carry their size as a synchsafe word.
pub open spec fn synchsafe_sizes(v: Version) -> bool {
    v == Version::Id3v24
}

/// The size that the four bytes of a frame's size field declare.
pub open spec fn declared_size(field: Seq<u8>, v: Version) -> int {
    if synchsafe_sizes(v) {
        spec_unsynchsafe(spec_be_u32(field))
    } else {
        spec_be_u32(field)
    }
}

/// The four bytes that declare the size `n` in a frame of version `v`.
pub open spec fn size_field(n: int, v: Version) -> Seq<u8> {
    if synchsafe_sizes(v) {
        spec_be_bytes(spec_synchsafe(n))
    } else {
        spec_be_bytes(n)
    }
}

/// Whether padding starts here: an identifier of four zero bytes.
pub open spec fn is_padding(b: Seq<u8>) -> bool {
    b.len() >= 4 && b[0] == 0 && b[1] == 0 && b[2] == 0 && b[3] == 0
}

/// Whether four bytes can be an identifier: each is an ASCII character.
pub open spec fn ascii_id(id: Seq<u8>) -> bool {
    id.len() == 4 && forall|i: int| 0 <= i < 4 ==> #[trigger] id[i] < 128
}

/// The frames that lie in `b` one after another, up to the padding or to the
/// point from which no header fits any more. `None` where an identifier is no
/// ASCII or a frame declares more bytes than are left.
pub open spec fn split_frames(b: Seq<u8>, v: Version) -> Option<Seq<RawFrame>>
    decreases b.len(),
{
    if b.len() < HEADER_LEN || is_padding(b) {
        Some(Seq::empty())
    } else {
        let size = declared_size(b.subrange(4, 8), v);
        if !ascii_id(b.subrange(0, 4)) || HEADER_LEN + size > b.len() {
            None
        } else {
            match split_frames(b.skip(HEADER_LEN + size), v) {
                Some(rest) => Some(
                    seq![RawFrame { id: b.subrange(0, 4), body: b.subrange(10, HEADER_LEN + size) }]
                        + rest,
                ),
                None => None,
            }
        }
    }
}

/// How many bytes a list of raw frames takes: a header and a body for each.
pub open spec fn raws_len(raws: Seq<RawFrame>) -> nat
    decreases raws.len(),
{
    if raws.len() == 0 {
        0
    } else {
        HEADER_LEN as nat + raws[0].body.len() + raws_len(raws.skip(1))
    }
}

/// The frames that are cut out of a run of bytes take no more bytes than the
/// run has.
pub proof fn lemma_split_len(b: Seq<u8>, v: Version)
    requires
        split_frames(b, v) is Some,
    ensures
        raws_len(split_frames(b, v).unwrap()) <= b.len(),
    decreases b.len(),
{
    if b.len() < HEADER_LEN || is_padding(b) {
    } else {
        let size = declared_size(b.subrange(4, 8), v);
        let raws = split_frames(b, v).unwrap();
        lemma_split_len(b.skip(HEADER_LEN + size), v);
        assert(raws.skip(1) =~= split_frames(b.skip(HEADER_LEN + size), v).unwrap());
        assert(raws[0].body.len() == size);
    }
}

/// The identifier that four ASCII bytes spell.
pub open spec fn id_of(raw: Seq<u8>) -> Seq<char> {
    latin1_decode(raw)
}

/// The identifier of comments.
pub open spec fn id_comm() -> Seq<char> {
    seq!['C', 'O', 'M', 'M']
}

/// The identifier of lyrics.
pub open spec fn id_uslt() -> Seq<char> {
    seq!['U', 'S', 'L', 'T']
}

/// The identifier of attached pictures.
pub open spec fn id_apic() -> Seq<char> {
    seq!['A', 'P', 'I', 'C']
}

/// The identifier of user-defined links.
pub open spec fn id_wxxx() -> Seq<char> {
    seq!['W', 'X', 'X', 'X']
}

/// The identifier of chapters.
pub open spec fn id_chap() -> Seq<char> {
    seq!['C', 'H', 'A', 'P']
}

/// The identifier of tables of contents.
pub open spec fn id_ctoc() -> Seq<char> {
    seq!['C', 'T', 'O', 'C']
}

/// Whether an identifier names a text frame: it starts with `T`.
pub open spec fn is_text_id(id: Seq<char>) -> bool {
    id.len() > 0 && id[0] == 'T'
}

/// Whether frames with this identifier are read into a variant of their own
/// wherever they stand, rather than kept as bytes.
pub open spec fn is_typed_id(id: Seq<char>) -> bool {
    is_text_id(id) || id == id_comm() || id == id_uslt() || id == id_apic() || id == id_wxxx()
        || id == id_ctoc()
}

} // verus!
