//! What the bytes of a tag mean: the frame that a body stands for, the
//! chapter, and the tag as a whole.

use crate::error::DecodeError;
use crate::frame::{FrameView, Version};
use crate::layout::{
    has_marker, id_apic, id_chap, id_comm, id_ctoc, id_of, id_uslt, id_wxxx, is_text_id,
    lemma_split_len, raws_len, split_frames, version_of, RawFrame, HEADER_LEN,
};
use crate::read_ok::lemma_found_is_first;
use crate::synchsafe::{spec_be_u32, spec_unsynchsafe};
use crate::tag::{ChapterView, TagView};
use crate::text::{decode_text, latin1_decode, split_terminated, strip_trailing_nuls, LATIN1};
use vstd::prelude::*;

verus! {

/// A terminated string at the start of `b` in the encoding that `enc` names,
/// and the bytes behind its terminator.
pub open spec fn read_terminated(b: Seq<u8>, enc: u8) -> Option<(Seq<char>, Seq<u8>)> {
    match split_terminated(b, enc) {
        Some((head, rest)) => match decode_text(head, enc) {
            Some(s) => Some((s, rest)),
            None => None,
        },
        None => None,
    }
}

/// A text to the end of `b` in the encoding that `enc` names, without the
/// NULs at its end.
pub open spec fn read_text(b: Seq<u8>, enc: u8) -> Option<Seq<char>> {
    match decode_text(b, enc) {
        Some(s) => Some(strip_trailing_nuls(s)),
        None => None,
    }
}

/// The body of a text frame: a marker byte, then the text.
pub open spec fn read_text_body(body: Seq<u8>) -> Option<Seq<char>> {
    if body.len() < 1 {
        None
    } else {
        read_text(body.skip(1), body[0])
    }
}

/// The body of a comment or of lyrics: a marker byte, three bytes of
/// language, a terminated description, then the text. Gives language,
/// description and text.
pub open spec fn read_comment_body(body: Seq<u8>) -> Option<(Seq<char>, Seq<char>, Seq<char>)> {
    if body.len() < 4 {
        None
    } else {
        match read_terminated(body.skip(4), body[0]) {
            Some((description, rest)) => match read_text(rest, body[0]) {
                Some(text) => Some((latin1_decode(body.subrange(1, 4)), description, text)),
                None => None,
            },
            None => None,
        }
    }
}

/// The body of a picture: a marker byte, the terminated Latin-1 MIME type,
/// the picture type, a terminated description, then the image as it is.
pub open spec fn read_picture_body(body: Seq<u8>) -> Option<(Seq<char>, u8, Seq<char>, Seq<u8>)> {
    if body.len() < 1 {
        None
    } else {
        match read_terminated(body.skip(1), LATIN1) {
            Some((mime_type, rest)) => if rest.len() < 1 {
                None
            } else {
                match read_terminated(rest.skip(1), body[0]) {
                    Some((description, data)) => Some((mime_type, rest[0], description, data)),
                    None => None,
                }
            },
            None => None,
        }
    }
}

/// The body of a link: a marker byte, a terminated description, then the
/// address in Latin-1 whatever the marker says.
pub open spec fn read_link_body(body: Seq<u8>) -> Option<(Seq<char>, Seq<char>)> {
    if body.len() < 1 {
        None
    } else {
        match read_terminated(body.skip(1), body[0]) {
            Some((description, rest)) => Some((description, latin1_decode(rest))),
            None => None,
        }
    }
}

/// `n` terminated Latin-1 strings one after another at the start of `b`,
/// and the bytes behind them.
pub open spec fn read_names(b: Seq<u8>, n: nat) -> Option<(Seq<Seq<char>>, Seq<u8>)>
    decreases n,
{
    if n == 0 {
        Some((Seq::empty(), b))
    } else {
        match read_terminated(b, LATIN1) {
            Some((name, rest)) => match read_names(rest, (n - 1) as nat) {
                Some((names, behind)) => Some((seq![name] + names, behind)),
                None => None,
            },
            None => None,
        }
    }
}

/// The fields of a table of contents: the terminated element identifier, a
/// byte of flags whose lowest bit says whether the entries are ordered, the
/// number of entries, and the entries as terminated strings. Gives element
/// identifier, ordering and entries, and the bytes behind the entries,
/// where the frames of the table stand.
pub open spec fn read_toc_fields(body: Seq<u8>) -> Option<
    (Seq<char>, bool, Seq<Seq<char>>, Seq<u8>),
> {
    match read_terminated(body, LATIN1) {
        Some((element_id, rest)) => if rest.len() < 2 {
            None
        } else {
            match read_names(rest.skip(2), rest[1] as nat) {
                Some((names, behind)) => Some((element_id, rest[0] % 2 == 1, names, behind)),
                None => None,
            }
        },
        None => None,
    }
}

/// What stands behind a terminated string is shorter than the whole.
pub proof fn lemma_terminated_shrinks(b: Seq<u8>, enc: u8)
    requires
        read_terminated(b, enc) is Some,
    ensures
        read_terminated(b, enc).unwrap().1.len() < b.len(),
{
    lemma_found_is_first(b, enc, 0);
}

/// What stands behind names is no longer than the whole.
pub proof fn lemma_names_shrink(b: Seq<u8>, n: nat)
    requires
        read_names(b, n) is Some,
    ensures
        read_names(b, n).unwrap().1.len() <= b.len(),
    decreases n,
{
    if n > 0 {
        lemma_terminated_shrinks(b, LATIN1);
        lemma_names_shrink(read_terminated(b, LATIN1).unwrap().1, (n - 1) as nat);
    }
}

/// What stands behind the entries of a table of contents is shorter than
/// the body of the table.
pub proof fn lemma_toc_behind_shorter(body: Seq<u8>)
    requires
        read_toc_fields(body) is Some,
    ensures
        read_toc_fields(body).unwrap().3.len() < body.len(),
{
    lemma_terminated_shrinks(body, LATIN1);
    let rest = read_terminated(body, LATIN1).unwrap().1;
    lemma_names_shrink(rest.skip(2), rest[1] as nat);
}

/// The body of a table of contents: its fields, then frames of its own.
/// The frames are cut and read as any run of frames is, and the table
/// cannot be read where they cannot; the model has no place for them, so
/// they are not kept. Gives element identifier, ordering and entries.
pub open spec fn read_toc_body(body: Seq<u8>, v: Version) -> Option<
    (Seq<char>, bool, Seq<Seq<char>>),
>
    decreases body.len(), 1int,
    via read_toc_body_decreases
{
    match read_toc_fields(body) {
        Some((element_id, ordered, names, behind)) => match split_frames(behind, v) {
            Some(raws) => match read_frames(raws, v) {
                Some(_) => Some((element_id, ordered, names)),
                None => None,
            },
            None => None,
        },
        None => None,
    }
}

/// Why reading a table of contents comes to an end: the frames behind its
/// entries take less bytes than the table.
#[via_fn]
proof fn read_toc_body_decreases(body: Seq<u8>, v: Version) {
    if read_toc_fields(body) is Some {
        lemma_toc_behind_shorter(body);
        let behind = read_toc_fields(body).unwrap().3;
        if split_frames(behind, v) is Some {
            lemma_split_len(behind, v);
        }
    }
}

/// The frame that a body stands for under an identifier other than that of
/// tables of contents. A chapter is not among the variants: read as a
/// frame, it is kept as bytes.
#[verifier::opaque]
pub open spec fn read_plain(id: Seq<char>, body: Seq<u8>) -> Option<FrameView> {
    if is_text_id(id) {
        match read_text_body(body) {
            Some(text) => Some(FrameView::TextFrame { id, text }),
            None => None,
        }
    } else if id == id_comm() {
        match read_comment_body(body) {
            Some((language, description, text)) => Some(
                FrameView::CommentFrame { id, language, description, text },
            ),
            None => None,
        }
    } else if id == id_uslt() {
        match read_comment_body(body) {
            Some((language, description, text)) => Some(
                FrameView::LyricsFrame { id, language, description, text },
            ),
            None => None,
        }
    } else if id == id_apic() {
        match read_picture_body(body) {
            Some((mime_type, picture_type, description, data)) => Some(
                FrameView::PictureFrame { id, mime_type, picture_type, description, data },
            ),
            None => None,
        }
    } else if id == id_wxxx() {
        match read_link_body(body) {
            Some((description, url)) => Some(FrameView::LinkFrame { id, description, url }),
            None => None,
        }
    } else {
        Some(FrameView::GenericFrame { id, data: body })
    }
}

/// The frame that a body stands for under an identifier.
pub open spec fn read_frame(id: Seq<char>, body: Seq<u8>, v: Version) -> Option<FrameView>
    decreases body.len(), 2int,
{
    if id == id_ctoc() {
        match read_toc_body(body, v) {
            Some((element_id, ordered, child_element_ids)) => Some(
                FrameView::TableOfContentsFrame { id, element_id, ordered, child_element_ids },
            ),
            None => None,
        }
    } else {
        read_plain(id, body)
    }
}

/// The frames that a list of raw frames stands for, in order. `None` where
/// one of them cannot be read.
pub open spec fn read_frames(raws: Seq<RawFrame>, v: Version) -> Option<Seq<FrameView>>
    decreases raws_len(raws), 0int,
{
    if raws.len() == 0 {
        Some(Seq::empty())
    } else {
        match read_frame(id_of(raws[0].id), raws[0].body, v) {
            Some(f) => match read_frames(raws.skip(1), v) {
                Some(fs) => Some(seq![f] + fs),
                None => None,
            },
            None => None,
        }
    }
}

/// Whether a run of bytes can be cut into frames that can all be read.
pub open spec fn frames_readable(b: Seq<u8>, v: Version) -> bool {
    split_frames(b, v) matches Some(raws) && read_frames(raws, v) is Some
}

/// The chapter that the body of a `CHAP` frame stands for: the terminated
/// element identifier, start and end time as big-endian words, two words of
/// byte offsets that are passed over, then the chapter's own frames. `None`
/// where a field is missing, the end lies before the start, or a frame of
/// the chapter cannot be read.
#[verifier::opaque]
pub open spec fn read_chapter(body: Seq<u8>, v: Version) -> Option<ChapterView> {
    match read_terminated(body, LATIN1) {
        Some((element_id, rest)) => if rest.len() < 16 {
            None
        } else {
            let start = spec_be_u32(rest.subrange(0, 4));
            let end = spec_be_u32(rest.subrange(4, 8));
            if start > end {
                None
            } else {
                match split_frames(rest.skip(16), v) {
                    Some(raws) => match read_frames(raws, v) {
                        Some(sub_frames) => Some(
                            ChapterView {
                                element_id,
                                start_time_ms: start as u32,
                                end_time_ms: end as u32,
                                sub_frames,
                            },
                        ),
                        None => None,
                    },
                    None => None,
                }
            }
        },
        None => None,
    }
}

/// The frames and the chapters that the raw frames of a tag stand for: a
/// raw frame with the identifier `CHAP` is a chapter, any other a frame.
/// Each list keeps the order of the tag.
pub open spec fn read_items(raws: Seq<RawFrame>, v: Version) -> Option<
    (Seq<FrameView>, Seq<ChapterView>),
>
    decreases raws.len(),
{
    if raws.len() == 0 {
        Some((Seq::empty(), Seq::empty()))
    } else if id_of(raws[0].id) == id_chap() {
        match read_chapter(raws[0].body, v) {
            Some(c) => match read_items(raws.skip(1), v) {
                Some((fs, cs)) => Some((fs, seq![c] + cs)),
                None => None,
            },
            None => None,
        }
    } else {
        match read_frame(id_of(raws[0].id), raws[0].body, v) {
            Some(f) => match read_items(raws.skip(1), v) {
                Some((fs, cs)) => Some((seq![f] + fs, cs)),
                None => None,
            },
            None => None,
        }
    }
}

/// The size that the header of a tag declares for what follows it.
pub open spec fn declared_tag_size(b: Seq<u8>) -> int
    recommends
        b.len() >= HEADER_LEN,
{
    spec_unsynchsafe(spec_be_u32(b.subrange(6, 10)))
}

/// The tag that a file holds at its start.
///
/// - `NoTagFound` where the file does not open with the marker `ID3`.
/// - `Truncated` where the header is cut short.
/// - `UnsupportedVersion` where the major version is none of 2, 3 and 4.
/// - `Truncated` where the tag declares more bytes than the file has, where a
///   frame declares more bytes than are left in the tag, in its chapter or in
///   its table of contents, and where a frame cannot be read as what its
///   identifier says it is.
pub open spec fn spec_decode(b: Seq<u8>) -> Result<TagView, DecodeError> {
    if !has_marker(b) {
        Err(DecodeError::NoTagFound)
    } else if b.len() < HEADER_LEN {
        Err(DecodeError::Truncated)
    } else {
        match version_of(b[3]) {
            None => Err(DecodeError::UnsupportedVersion),
            Some(version) => {
                let size = declared_tag_size(b);
                if HEADER_LEN + size > b.len() {
                    Err(DecodeError::Truncated)
                } else {
                    match split_frames(b.subrange(10, HEADER_LEN + size), version) {
                        Some(raws) => match read_items(raws, version) {
                            Some((frames, chapters)) => Ok(TagView { frames, chapters, version }),
                            None => Err(DecodeError::Truncated),
                        },
                        None => Err(DecodeError::Truncated),
                    }
                }
            },
        }
    }
}

} // verus!
