//! What a tag is written as: the body of each frame, the block of the whole
//! tag, and the file that carries it.

use crate::error::EncodeError;
use crate::frame::{FrameView, Version};
use crate::layout::{has_marker, id_chap, major_of, size_field, HEADER_LEN};
use crate::read_spec::declared_tag_size;
use crate::synchsafe::{spec_be_bytes, spec_synchsafe, SYNCHSAFE_LIMIT};
use crate::tag::{tag_ok, ChapterView, TagView};
use crate::text::{encode_text, is_latin1, latin1_encode, pick_encoding, terminator};
use vstd::prelude::*;

verus! {

/// The marker byte that text is written under: Latin-1 where it fits, else
/// UTF-8 in version 2.4 and UTF-16 with byte order mark before.
pub open spec fn marker_for(latin1: bool, v: Version) -> u8 {
    pick_encoding(latin1, v == Version::Id3v24)
}

/// The body of a text frame.
pub open spec fn text_body(text: Seq<char>, v: Version) -> Seq<u8> {
    let enc = marker_for(is_latin1(text), v);
    seq![enc] + encode_text(text, enc)
}

/// The body of a comment or of lyrics.
pub open spec fn comment_body(
    language: Seq<char>,
    description: Seq<char>,
    text: Seq<char>,
    v: Version,
) -> Seq<u8> {
    let enc = marker_for(is_latin1(description) && is_latin1(text), v);
    seq![enc] + latin1_encode(language) + encode_text(description, enc) + terminator(enc)
        + encode_text(text, enc)
}

/// The body of a picture.
pub open spec fn picture_body(
    mime_type: Seq<char>,
    picture_type: u8,
    description: Seq<char>,
    data: Seq<u8>,
    v: Version,
) -> Seq<u8> {
    let enc = marker_for(is_latin1(description), v);
    seq![enc] + latin1_encode(mime_type) + seq![0u8] + seq![picture_type] + encode_text(
        description,
        enc,
    ) + terminator(enc) + data
}

/// The body of a link.
pub open spec fn link_body(description: Seq<char>, url: Seq<char>, v: Version) -> Seq<u8> {
    let enc = marker_for(is_latin1(description), v);
    seq![enc] + encode_text(description, enc) + terminator(enc) + latin1_encode(url)
}

/// Names one after another, each in Latin-1 with a zero byte behind it.
pub open spec fn names_bytes(names: Seq<Seq<char>>) -> Seq<u8>
    decreases names.len(),
{
    if names.len() == 0 {
        Seq::empty()
    } else {
        latin1_encode(names[0]) + seq![0u8] + names_bytes(names.skip(1))
    }
}

/// The flags of a table of contents: it is marked as the top-level table,
/// and as ordered where it is.
pub open spec fn toc_flags(ordered: bool) -> u8 {
    if ordered {
        3
    } else {
        2
    }
}

/// The body of a table of contents. It is written without frames of its
/// own, which the model does not hold.
pub open spec fn toc_body(element_id: Seq<char>, ordered: bool, names: Seq<Seq<char>>) -> Seq<u8> {
    latin1_encode(element_id) + seq![0u8] + seq![toc_flags(ordered)] + seq![names.len() as u8]
        + names_bytes(names)
}

/// The body of a frame.
#[verifier::opaque]
pub open spec fn frame_body(f: FrameView, v: Version) -> Seq<u8> {
    match f {
        FrameView::TextFrame { text, .. } => text_body(text, v),
        FrameView::CommentFrame { language, description, text, .. } => comment_body(
            language,
            description,
            text,
            v,
        ),
        FrameView::LyricsFrame { language, description, text, .. } => comment_body(
            language,
            description,
            text,
            v,
        ),
        FrameView::PictureFrame { mime_type, picture_type, description, data, .. } => picture_body(
            mime_type,
            picture_type,
            description,
            data,
            v,
        ),
        FrameView::LinkFrame { description, url, .. } => link_body(description, url, v),
        FrameView::TableOfContentsFrame { element_id, ordered, child_element_ids, .. } => toc_body(
            element_id,
            ordered,
            child_element_ids,
        ),
        FrameView::GenericFrame { data, .. } => data,
    }
}

/// A frame with the identifier `id` around `body`: the header with clear
/// flags, then the body.
#[verifier::opaque]
pub open spec fn framed(id: Seq<char>, body: Seq<u8>, v: Version) -> Seq<u8> {
    latin1_encode(id) + size_field(body.len() as int, v) + seq![0u8, 0u8] + body
}

/// A frame as it is written.
pub open spec fn frame_bytes(f: FrameView, v: Version) -> Seq<u8> {
    framed(f.id(), frame_body(f, v), v)
}

/// Frames as they are written, one after another.
pub open spec fn frames_bytes(fs: Seq<FrameView>, v: Version) -> Seq<u8>
    decreases fs.len(),
{
    if fs.len() == 0 {
        Seq::empty()
    } else {
        frame_bytes(fs[0], v) + frames_bytes(fs.skip(1), v)
    }
}

/// The two byte offsets of a chapter, written as "not given".
pub open spec fn no_offsets() -> Seq<u8> {
    seq![0xFFu8, 0xFFu8, 0xFFu8, 0xFFu8, 0xFFu8, 0xFFu8, 0xFFu8, 0xFFu8]
}

/// The body of a chapter's frame.
#[verifier::opaque]
pub open spec fn chapter_body(c: ChapterView, v: Version) -> Seq<u8> {
    latin1_encode(c.element_id) + seq![0u8] + spec_be_bytes(c.start_time_ms as int)
        + spec_be_bytes(c.end_time_ms as int) + no_offsets() + frames_bytes(c.sub_frames, v)
}

/// A chapter as it is written.
pub open spec fn chapter_bytes(c: ChapterView, v: Version) -> Seq<u8> {
    framed(id_chap(), chapter_body(c, v), v)
}

/// Chapters as they are written, one after another.
pub open spec fn chapters_bytes(cs: Seq<ChapterView>, v: Version) -> Seq<u8>
    decreases cs.len(),
{
    if cs.len() == 0 {
        Seq::empty()
    } else {
        chapter_bytes(cs[0], v) + chapters_bytes(cs.skip(1), v)
    }
}

/// What follows the header of a tag: its frames, then its chapters.
pub open spec fn tag_body(t: TagView) -> Seq<u8> {
    frames_bytes(t.frames, t.version) + chapters_bytes(t.chapters, t.version)
}

/// The header of a tag of version `v` with `n` bytes behind it.
#[verifier::opaque]
pub open spec fn tag_header(v: Version, n: int) -> Seq<u8> {
    seq![0x49u8, 0x44u8, 0x33u8, major_of(v), 0u8, 0u8] + spec_be_bytes(spec_synchsafe(n))
}

/// A tag as it is written: the header, the frames, the chapters.
pub open spec fn tag_block(t: TagView) -> Seq<u8> {
    tag_header(t.version, tag_body(t).len() as int) + tag_body(t)
}

/// How many bytes at the start of a file belong to the tag that it
/// announces: none where it does not open with the marker, else the header
/// and what the header declares.
pub open spec fn announced_len(file: Seq<u8>) -> int {
    if !has_marker(file) {
        0
    } else if file.len() < HEADER_LEN {
        HEADER_LEN as int
    } else {
        HEADER_LEN + declared_tag_size(file)
    }
}

/// The part of a file behind the tag that it announces.
pub open spec fn audio_of(file: Seq<u8>) -> Seq<u8> {
    file.skip(announced_len(file))
}

/// Whether a tag can be written: it keeps to the model, and what it holds
/// fits the size field of the header.
pub open spec fn writable(t: TagView) -> bool {
    tag_ok(t) && tag_body(t).len() < SYNCHSAFE_LIMIT
}

/// The file that carries the tag `t` in place of the tag that `file`
/// announces, with everything behind that tag as it was.
///
/// - `InvalidTag` where `t` cannot be written.
/// - `MissingAudioPayload` where `file` announces a tag longer than itself.
pub open spec fn spec_encode(t: TagView, file: Seq<u8>) -> Result<Seq<u8>, EncodeError> {
    if !writable(t) {
        Err(EncodeError::InvalidTag)
    } else if announced_len(file) > file.len() {
        Err(EncodeError::MissingAudioPayload)
    } else {
        Ok(tag_block(t) + audio_of(file))
    }
}

} // verus!
