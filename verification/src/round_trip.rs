//! What is written reads back: the laws that tie the layout for writing to
//! the layout for reading.

use crate::error::{DecodeError, EncodeError};
use crate::frame::{frame_ok, frames_ok, id_ok, name_ok, names_ok, text_ok, FrameView, Version};
use crate::layout::{
    ascii_id, declared_size, has_marker, id_apic, id_chap, id_comm, id_ctoc, id_of, id_uslt,
    id_wxxx, is_padding, is_text_id, is_typed_id, size_field, split_frames, version_of, RawFrame,
};
use crate::read_spec::{
    declared_tag_size, read_chapter, read_comment_body, read_frame, read_frames, read_items,
    read_link_body, read_names, read_picture_body, read_plain, read_terminated, read_text,
    read_text_body, read_toc_body, read_toc_fields, spec_decode,
};
use crate::synchsafe::{
    lemma_be_round_trip, lemma_synchsafe_round_trip, spec_be_bytes, spec_synchsafe,
    SYNCHSAFE_LIMIT,
};
use crate::tag::{chapter_ok, chapters_ok, ChapterView, TagView};
use crate::text::{
    encode_text, is_latin1, latin1_encode, lemma_char_range, nul_free, strip_trailing_nuls,
    terminator, LATIN1, UTF16, UTF8,
};
use crate::text_laws::{lemma_latin1_round_trip, lemma_split_written, lemma_text_round_trip};
use crate::write_laws::lemma_framed_len;
use crate::write_spec::{
    announced_len, audio_of, chapter_body, chapters_bytes, comment_body, frame_body, frame_bytes,
    framed, frames_bytes, link_body, marker_for, names_bytes, no_offsets, picture_body,
    spec_encode, tag_block, tag_body, tag_header, text_body, toc_body, toc_flags, writable,
};
use vstd::prelude::*;

verus! {

/// An identifier is Latin-1, and written and read it is itself.
pub proof fn lemma_id_round_trip(id: Seq<char>)
    requires
        id_ok(id),
    ensures
        is_latin1(id),
        latin1_encode(id).len() == 4,
        ascii_id(latin1_encode(id)),
        !is_padding(latin1_encode(id)),
        id_of(latin1_encode(id)) == id,
{
    assert forall|i: int| 0 <= i < id.len() implies (#[trigger] id[i] as u32) < 256 by {
        lemma_char_range(id[i]);
    }
    lemma_latin1_round_trip(id);
    let b = latin1_encode(id);
    assert forall|i: int| 0 <= i < 4 implies #[trigger] b[i] < 128 by {
        lemma_char_range(id[i]);
    }
    lemma_char_range(id[0]);
    lemma_char_range(id[1]);
    lemma_char_range(id[2]);
    lemma_char_range(id[3]);
}

/// The identifiers that the variants claim are identifiers, and no two of
/// them are the same.
pub proof fn lemma_known_ids()
    ensures
        id_ok(id_comm()),
        id_ok(id_uslt()),
        id_ok(id_apic()),
        id_ok(id_wxxx()),
        id_ok(id_ctoc()),
        id_ok(id_chap()),
        !is_text_id(id_comm()),
        !is_text_id(id_uslt()),
        !is_text_id(id_apic()),
        !is_text_id(id_wxxx()),
        !is_text_id(id_ctoc()),
        !is_text_id(id_chap()),
        id_comm() != id_uslt(),
        id_comm() != id_apic(),
        id_comm() != id_wxxx(),
        id_comm() != id_ctoc(),
        id_comm() != id_chap(),
        id_uslt() != id_apic(),
        id_uslt() != id_wxxx(),
        id_uslt() != id_ctoc(),
        id_uslt() != id_chap(),
        id_apic() != id_wxxx(),
        id_apic() != id_ctoc(),
        id_apic() != id_chap(),
        id_wxxx() != id_ctoc(),
        id_wxxx() != id_chap(),
        id_ctoc() != id_chap(),
        !is_typed_id(id_chap()),
{
    assert(id_comm()[0] == 'C' && id_comm()[1] == 'O' && id_comm()[3] == 'M');
    assert(id_uslt()[0] == 'U');
    assert(id_apic()[0] == 'A');
    assert(id_wxxx()[0] == 'W');
    assert(id_ctoc()[0] == 'C' && id_ctoc()[1] == 'T' && id_ctoc()[3] == 'C');
    assert(id_chap()[0] == 'C' && id_chap()[1] == 'H' && id_chap()[3] == 'P');
}

/// The identifier of a frame that keeps to the model is an identifier.
pub proof fn lemma_frame_id_ok(f: FrameView, nested: bool)
    requires
        frame_ok(f, nested),
    ensures
        id_ok(f.id()),
        !nested ==> f.id() != id_chap(),
{
    reveal(frame_ok);
    lemma_known_ids();
}

/// The identifier of a frame that keeps to the model is Latin-1.
pub proof fn lemma_id_is_latin1(f: FrameView, nested: bool)
    requires
        frame_ok(f, nested),
    ensures
        is_latin1(f.id()),
{
    lemma_frame_id_ok(f, nested);
    lemma_id_round_trip(f.id());
}

/// The marker that text is written under is one that text can be written
/// under, and Latin-1 only for Latin-1 text.
pub proof fn lemma_marker(latin1: bool, v: Version)
    ensures
        marker_for(latin1, v) == LATIN1 || marker_for(latin1, v) == UTF16 || marker_for(latin1, v)
            == UTF8,
        marker_for(latin1, v) == LATIN1 ==> latin1,
{
}

/// A written string without NUL, its terminator and what follows read back
/// as the string and what follows.
pub proof fn lemma_read_terminated_written(s: Seq<char>, enc: u8, rest: Seq<u8>)
    requires
        enc == LATIN1 || enc == UTF16 || enc == UTF8,
        enc == LATIN1 ==> is_latin1(s),
        nul_free(s),
    ensures
        read_terminated(encode_text(s, enc) + terminator(enc) + rest, enc) == Some((s, rest)),
{
    lemma_split_written(s, enc, rest);
    lemma_text_round_trip(s, enc);
}

/// A written text that does not end in NUL reads back as it is.
pub proof fn lemma_read_text_written(s: Seq<char>, enc: u8)
    requires
        enc == LATIN1 || enc == UTF16 || enc == UTF8,
        enc == LATIN1 ==> is_latin1(s),
        text_ok(s),
    ensures
        read_text(encode_text(s, enc), enc) == Some(s),
{
    lemma_text_round_trip(s, enc);
    assert(strip_trailing_nuls(s) == s);
}

/// The body of a text frame reads back.
pub proof fn lemma_text_body(text: Seq<char>, v: Version)
    requires
        text_ok(text),
    ensures
        read_text_body(text_body(text, v)) == Some(text),
{
    let enc = marker_for(is_latin1(text), v);
    let body = text_body(text, v);
    lemma_marker(is_latin1(text), v);
    assert(body[0] == enc);
    assert(body.skip(1) =~= encode_text(text, enc));
    lemma_read_text_written(text, enc);
}

/// The body of a comment or of lyrics reads back.
pub proof fn lemma_comment_body(
    language: Seq<char>,
    description: Seq<char>,
    text: Seq<char>,
    v: Version,
)
    requires
        language.len() == 3,
        is_latin1(language),
        nul_free(description),
        text_ok(text),
    ensures
        read_comment_body(comment_body(language, description, text, v)) == Some(
            (language, description, text),
        ),
{
    let latin1 = is_latin1(description) && is_latin1(text);
    let enc = marker_for(latin1, v);
    let body = comment_body(language, description, text, v);
    lemma_marker(latin1, v);
    lemma_latin1_round_trip(language);
    assert(body[0] == enc);
    assert(body.subrange(1, 4) =~= latin1_encode(language));
    assert(body.skip(4) =~= encode_text(description, enc) + terminator(enc) + encode_text(
        text,
        enc,
    ));
    lemma_read_terminated_written(description, enc, encode_text(text, enc));
    lemma_read_text_written(text, enc);
}

/// The body of a picture reads back.
pub proof fn lemma_picture_body(
    mime_type: Seq<char>,
    picture_type: u8,
    description: Seq<char>,
    data: Seq<u8>,
    v: Version,
)
    requires
        name_ok(mime_type),
        nul_free(description),
    ensures
        read_picture_body(picture_body(mime_type, picture_type, description, data, v)) == Some(
            (mime_type, picture_type, description, data),
        ),
{
    let enc = marker_for(is_latin1(description), v);
    let body = picture_body(mime_type, picture_type, description, data, v);
    lemma_marker(is_latin1(description), v);
    let tail = encode_text(description, enc) + terminator(enc) + data;
    let rest = seq![picture_type] + tail;
    assert(body[0] == enc);
    assert(body.skip(1) =~= encode_text(mime_type, LATIN1) + terminator(LATIN1) + rest);
    lemma_read_terminated_written(mime_type, LATIN1, rest);
    assert(rest[0] == picture_type);
    assert(rest.skip(1) =~= tail);
    lemma_read_terminated_written(description, enc, data);
}

/// The body of a link reads back.
pub proof fn lemma_link_body(description: Seq<char>, url: Seq<char>, v: Version)
    requires
        nul_free(description),
        is_latin1(url),
    ensures
        read_link_body(link_body(description, url, v)) == Some((description, url)),
{
    let enc = marker_for(is_latin1(description), v);
    let body = link_body(description, url, v);
    lemma_marker(is_latin1(description), v);
    assert(body[0] == enc);
    assert(body.skip(1) =~= encode_text(description, enc) + terminator(enc) + latin1_encode(url));
    lemma_read_terminated_written(description, enc, latin1_encode(url));
    lemma_latin1_round_trip(url);
}

/// Written names read back, whatever follows them.
pub proof fn lemma_read_names_written(names: Seq<Seq<char>>, rest: Seq<u8>)
    requires
        names_ok(names),
    ensures
        read_names(names_bytes(names) + rest, names.len()) == Some((names, rest)),
    decreases names.len(),
{
    if names.len() == 0 {
        assert(names =~= Seq::<Seq<char>>::empty());
        assert(names_bytes(names) + rest =~= rest);
    } else {
        let first = names[0];
        let others = names.skip(1);
        assert(name_ok(first));
        assert(names_ok(others)) by {
            assert forall|i: int| 0 <= i < others.len() implies name_ok(#[trigger] others[i]) by {
                assert(others[i] == names[i + 1]);
            }
        }
        let after = names_bytes(others) + rest;
        assert(names_bytes(names) + rest =~= encode_text(first, LATIN1) + terminator(LATIN1)
            + after);
        lemma_read_terminated_written(first, LATIN1, after);
        lemma_read_names_written(others, rest);
        assert(seq![first] + others =~= names);
    }
}

/// The body of a table of contents reads back.
pub proof fn lemma_toc_body(
    element_id: Seq<char>,
    ordered: bool,
    names: Seq<Seq<char>>,
    v: Version,
)
    requires
        name_ok(element_id),
        names.len() <= 255,
        names_ok(names),
    ensures
        read_toc_body(toc_body(element_id, ordered, names), v) == Some(
            (element_id, ordered, names),
        ),
{
    let body = toc_body(element_id, ordered, names);
    let rest = seq![toc_flags(ordered)] + seq![names.len() as u8] + names_bytes(names);
    let nothing = Seq::<u8>::empty();
    assert(body =~= encode_text(element_id, LATIN1) + terminator(LATIN1) + rest);
    lemma_read_terminated_written(element_id, LATIN1, rest);
    assert(rest[0] == toc_flags(ordered));
    assert(rest[1] == names.len() as u8);
    assert(rest.skip(2) =~= names_bytes(names) + nothing);
    lemma_read_names_written(names, nothing);
    assert(read_toc_fields(body) == Some((element_id, ordered, names, nothing)));
    assert(split_frames(nothing, v) == Some(Seq::<RawFrame>::empty()));
    assert(read_frames(Seq::<RawFrame>::empty(), v) == Some(Seq::<FrameView>::empty()));
}

/// The body of a frame that keeps to the model reads back as the frame.
pub proof fn lemma_read_frame_written(f: FrameView, v: Version, nested: bool)
    requires
        frame_ok(f, nested),
    ensures
        read_frame(f.id(), frame_body(f, v), v) == Some(f),
{
    reveal(read_plain);
    reveal(frame_ok);
    reveal(frame_body);
    lemma_known_ids();
    match f {
        FrameView::TextFrame { text, .. } => {
            lemma_text_body(text, v);
        },
        FrameView::CommentFrame { language, description, text, .. } => {
            lemma_comment_body(language, description, text, v);
        },
        FrameView::LyricsFrame { language, description, text, .. } => {
            lemma_comment_body(language, description, text, v);
        },
        FrameView::PictureFrame { mime_type, picture_type, description, data, .. } => {
            lemma_picture_body(mime_type, picture_type, description, data, v);
        },
        FrameView::LinkFrame { description, url, .. } => {
            lemma_link_body(description, url, v);
        },
        FrameView::TableOfContentsFrame { element_id, ordered, child_element_ids, .. } => {
            lemma_toc_body(element_id, ordered, child_element_ids, v);
        },
        FrameView::GenericFrame { .. } => {},
    }
}

/// The size field of a frame declares the size it was written for.
pub proof fn lemma_size_field(n: int, v: Version)
    requires
        0 <= n < SYNCHSAFE_LIMIT,
    ensures
        size_field(n, v).len() == 4,
        declared_size(size_field(n, v), v) == n,
{
    lemma_synchsafe_round_trip(n);
    lemma_be_round_trip(spec_synchsafe(n));
    lemma_be_round_trip(n);
}

/// A written frame is cut out as its identifier and its body, and the
/// cutting goes on behind it.
pub proof fn lemma_split_framed(id: Seq<char>, body: Seq<u8>, v: Version, rest: Seq<u8>)
    requires
        id_ok(id),
        body.len() < SYNCHSAFE_LIMIT,
    ensures
        split_frames(framed(id, body, v) + rest, v) == (match split_frames(rest, v) {
            Some(r) => Some(seq![RawFrame { id: latin1_encode(id), body }] + r),
            None => None,
        }),
{
    reveal(framed);
    let n = body.len() as int;
    let b = framed(id, body, v) + rest;
    lemma_id_round_trip(id);
    lemma_size_field(n, v);
    assert(b.subrange(0, 4) =~= latin1_encode(id));
    assert(b.subrange(4, 8) =~= size_field(n, v));
    assert(b.subrange(10, 10 + n) =~= body);
    assert(b.skip(10 + n) =~= rest);
    assert(!is_padding(b)) by {
        assert(b[0] == latin1_encode(id)[0]);
        assert(b[1] == latin1_encode(id)[1]);
        assert(b[2] == latin1_encode(id)[2]);
        assert(b[3] == latin1_encode(id)[3]);
    }
}

/// The raw frame that a frame is written as.
pub open spec fn raw_of(f: FrameView, v: Version) -> RawFrame {
    RawFrame { id: latin1_encode(f.id()), body: frame_body(f, v) }
}

/// The raw frames that a list of frames is written as.
pub open spec fn raws_of(fs: Seq<FrameView>, v: Version) -> Seq<RawFrame> {
    Seq::new(fs.len(), |i: int| raw_of(fs[i], v))
}

/// The raw frame that a chapter is written as.
pub open spec fn raw_of_chapter(c: ChapterView, v: Version) -> RawFrame {
    RawFrame { id: latin1_encode(id_chap()), body: chapter_body(c, v) }
}

/// The raw frames that a list of chapters is written as.
pub open spec fn raws_of_chapters(cs: Seq<ChapterView>, v: Version) -> Seq<RawFrame> {
    Seq::new(cs.len(), |i: int| raw_of_chapter(cs[i], v))
}

/// Whether the body of every frame is short enough for a size field.
pub open spec fn bodies_fit(fs: Seq<FrameView>, v: Version) -> bool {
    forall|i: int| 0 <= i < fs.len() ==> frame_body(#[trigger] fs[i], v).len() < SYNCHSAFE_LIMIT
}

/// Whether the body of every chapter is short enough for a size field.
pub open spec fn chapters_fit(cs: Seq<ChapterView>, v: Version) -> bool {
    forall|i: int| 0 <= i < cs.len() ==> chapter_body(#[trigger] cs[i], v).len() < SYNCHSAFE_LIMIT
}

/// Frames that are written in less than the limit have bodies that fit.
pub proof fn lemma_bodies_fit(fs: Seq<FrameView>, v: Version)
    requires
        frames_bytes(fs, v).len() < SYNCHSAFE_LIMIT,
    ensures
        bodies_fit(fs, v),
    decreases fs.len(),
{
    if fs.len() > 0 {
        lemma_framed_len(fs[0].id(), frame_body(fs[0], v), v);
        lemma_bodies_fit(fs.skip(1), v);
        assert forall|i: int| 0 <= i < fs.len() implies frame_body(#[trigger] fs[i], v).len()
            < SYNCHSAFE_LIMIT by {
            if i > 0 {
                assert(fs[i] == fs.skip(1)[i - 1]);
            }
        }
    }
}

/// Chapters that are written in less than the limit have bodies that fit,
/// and so have their frames.
pub proof fn lemma_chapters_fit(cs: Seq<ChapterView>, v: Version)
    requires
        chapters_bytes(cs, v).len() < SYNCHSAFE_LIMIT,
    ensures
        chapters_fit(cs, v),
        forall|i: int| 0 <= i < cs.len() ==> bodies_fit((#[trigger] cs[i]).sub_frames, v),
    decreases cs.len(),
{
    if cs.len() > 0 {
        reveal(chapter_body);
        lemma_framed_len(id_chap(), chapter_body(cs[0], v), v);
        lemma_bodies_fit(cs[0].sub_frames, v);
        lemma_chapters_fit(cs.skip(1), v);
        assert forall|i: int| 0 <= i < cs.len() implies chapter_body(#[trigger] cs[i], v).len()
            < SYNCHSAFE_LIMIT && bodies_fit(cs[i].sub_frames, v) by {
            if i > 0 {
                assert(cs[i] == cs.skip(1)[i - 1]);
            }
        }
    }
}

/// A written frame that keeps to the model is cut out as its raw frame, and
/// the cutting goes on behind it.
proof fn lemma_split_written_frame(f: FrameView, v: Version, nested: bool, rest: Seq<u8>)
    requires
        frame_ok(f, nested),
        frame_body(f, v).len() < SYNCHSAFE_LIMIT,
    ensures
        split_frames(frame_bytes(f, v) + rest, v) == (match split_frames(rest, v) {
            Some(r) => Some(seq![raw_of(f, v)] + r),
            None => None,
        }),
{
    lemma_frame_id_ok(f, nested);
    lemma_split_framed(f.id(), frame_body(f, v), v, rest);
}

/// Written frames are cut out as their raw frames, and the cutting goes on
/// behind them.
pub proof fn lemma_split_written_frames(
    fs: Seq<FrameView>,
    v: Version,
    nested: bool,
    rest: Seq<u8>,
)
    requires
        frames_ok(fs, nested),
        bodies_fit(fs, v),
    ensures
        split_frames(frames_bytes(fs, v) + rest, v) == (match split_frames(rest, v) {
            Some(r) => Some(raws_of(fs, v) + r),
            None => None,
        }),
    decreases fs.len(),
{
    if fs.len() == 0 {
        assert(frames_bytes(fs, v) + rest =~= rest);
        let r = split_frames(rest, v);
        if r is Some {
            assert(raws_of(fs, v) + r.unwrap() =~= r.unwrap());
        }
    } else {
        let first = fs[0];
        let others = fs.skip(1);
        assert(frame_ok(first, nested));
        assert(frames_ok(others, nested) && bodies_fit(others, v)) by {
            assert forall|i: int| 0 <= i < others.len() implies frame_ok(
                #[trigger] others[i],
                nested,
            ) && frame_body(others[i], v).len() < SYNCHSAFE_LIMIT by {
                assert(others[i] == fs[i + 1]);
            }
        }
        let after = frames_bytes(others, v) + rest;
        assert(frames_bytes(fs, v) + rest =~= frame_bytes(first, v) + after);
        lemma_split_written_frame(first, v, nested, after);
        lemma_split_written_frames(others, v, nested, rest);
        let r = split_frames(rest, v);
        if r is Some {
            assert(seq![raw_of(first, v)] + (raws_of(others, v) + r.unwrap()) =~= raws_of(fs, v)
                + r.unwrap());
        }
    }
}

/// The raw frames of frames that keep to the model read back as the frames.
pub proof fn lemma_read_frames_written(fs: Seq<FrameView>, v: Version, nested: bool)
    requires
        frames_ok(fs, nested),
    ensures
        read_frames(raws_of(fs, v), v) == Some(fs),
    decreases fs.len(),
{
    if fs.len() == 0 {
        assert(fs =~= Seq::<FrameView>::empty());
    } else {
        let first = fs[0];
        let others = fs.skip(1);
        assert(frame_ok(first, nested));
        assert(frames_ok(others, nested)) by {
            assert forall|i: int| 0 <= i < others.len() implies frame_ok(
                #[trigger] others[i],
                nested,
            ) by {
                assert(others[i] == fs[i + 1]);
            }
        }
        lemma_frame_id_ok(first, nested);
        lemma_id_round_trip(first.id());
        lemma_read_frame_written(first, v, nested);
        lemma_read_frames_written(others, v, nested);
        assert(raws_of(fs, v)[0] == raw_of(first, v));
        assert(raws_of(fs, v).skip(1) =~= raws_of(others, v));
        assert(seq![first] + others =~= fs);
    }
}

/// The body of a chapter that keeps to the model reads back as the chapter.
pub proof fn lemma_read_chapter_written(c: ChapterView, v: Version)
    requires
        chapter_ok(c),
        bodies_fit(c.sub_frames, v),
    ensures
        read_chapter(chapter_body(c, v), v) == Some(c),
{
    reveal(read_chapter);
    reveal(chapter_body);
    let body = chapter_body(c, v);
    let subs = frames_bytes(c.sub_frames, v);
    let rest = spec_be_bytes(c.start_time_ms as int) + spec_be_bytes(c.end_time_ms as int)
        + no_offsets() + subs;
    assert(body =~= encode_text(c.element_id, LATIN1) + terminator(LATIN1) + rest);
    lemma_read_terminated_written(c.element_id, LATIN1, rest);
    lemma_be_round_trip(c.start_time_ms as int);
    lemma_be_round_trip(c.end_time_ms as int);
    assert(rest.subrange(0, 4) =~= spec_be_bytes(c.start_time_ms as int));
    assert(rest.subrange(4, 8) =~= spec_be_bytes(c.end_time_ms as int));
    assert(rest.skip(16) =~= subs + Seq::<u8>::empty());
    lemma_split_written_frames(c.sub_frames, v, true, Seq::empty());
    assert(raws_of(c.sub_frames, v) + Seq::<RawFrame>::empty() =~= raws_of(c.sub_frames, v));
    lemma_read_frames_written(c.sub_frames, v, true);
}

/// Written chapters are cut out as their raw frames, and the cutting goes on
/// behind them.
pub proof fn lemma_split_written_chapters(cs: Seq<ChapterView>, v: Version, rest: Seq<u8>)
    requires
        chapters_fit(cs, v),
    ensures
        split_frames(chapters_bytes(cs, v) + rest, v) == (match split_frames(rest, v) {
            Some(r) => Some(raws_of_chapters(cs, v) + r),
            None => None,
        }),
    decreases cs.len(),
{
    if cs.len() == 0 {
        assert(chapters_bytes(cs, v) + rest =~= rest);
        let r = split_frames(rest, v);
        if r is Some {
            assert(raws_of_chapters(cs, v) + r.unwrap() =~= r.unwrap());
        }
    } else {
        let first = cs[0];
        let others = cs.skip(1);
        assert(chapters_fit(others, v)) by {
            assert forall|i: int| 0 <= i < others.len() implies chapter_body(
                #[trigger] others[i],
                v,
            ).len() < SYNCHSAFE_LIMIT by {
                assert(others[i] == cs[i + 1]);
            }
        }
        let after = chapters_bytes(others, v) + rest;
        assert(chapters_bytes(cs, v) + rest =~= framed(id_chap(), chapter_body(first, v), v)
            + after);
        lemma_known_ids();
        lemma_split_framed(id_chap(), chapter_body(first, v), v, after);
        lemma_split_written_chapters(others, v, rest);
        let r = split_frames(rest, v);
        if r is Some {
            assert(seq![raw_of_chapter(first, v)] + (raws_of_chapters(others, v) + r.unwrap())
                =~= raws_of_chapters(cs, v) + r.unwrap());
        }
    }
}

/// The raw frames of chapters that keep to the model read back as the
/// chapters, with no frame beside them.
pub proof fn lemma_read_items_chapters(cs: Seq<ChapterView>, v: Version)
    requires
        chapters_ok(cs),
        forall|i: int| 0 <= i < cs.len() ==> bodies_fit((#[trigger] cs[i]).sub_frames, v),
    ensures
        read_items(raws_of_chapters(cs, v), v) == Some((Seq::<FrameView>::empty(), cs)),
    decreases cs.len(),
{
    if cs.len() == 0 {
        assert(cs =~= Seq::<ChapterView>::empty());
    } else {
        let first = cs[0];
        let others = cs.skip(1);
        assert(chapter_ok(first));
        assert(chapters_ok(others)) by {
            assert forall|i: int| 0 <= i < others.len() implies chapter_ok(
                #[trigger] others[i],
            ) by {
                assert(others[i] == cs[i + 1]);
            }
        }
        assert forall|i: int| 0 <= i < others.len() implies bodies_fit(
            (#[trigger] others[i]).sub_frames,
            v,
        ) by {
            assert(others[i] == cs[i + 1]);
        }
        lemma_known_ids();
        lemma_id_round_trip(id_chap());
        lemma_read_chapter_written(first, v);
        lemma_read_items_chapters(others, v);
        assert(raws_of_chapters(cs, v)[0] == raw_of_chapter(first, v));
        assert(raws_of_chapters(cs, v).skip(1) =~= raws_of_chapters(others, v));
        assert(seq![first] + others =~= cs);
    }
}

/// The raw frame of a frame that keeps to the model, with more raw frames
/// behind it, reads back as the frame, and the reading goes on behind it.
proof fn lemma_read_items_frame(first: FrameView, v: Version, rest: Seq<RawFrame>)
    requires
        frame_ok(first, false),
    ensures
        read_items(seq![raw_of(first, v)] + rest, v) == (match read_items(rest, v) {
            Some((f2, c2)) => Some((seq![first] + f2, c2)),
            None => None,
        }),
{
    let all = seq![raw_of(first, v)] + rest;
    lemma_frame_id_ok(first, false);
    lemma_id_round_trip(first.id());
    lemma_read_frame_written(first, v, false);
    assert(all[0] == raw_of(first, v));
    assert(all.skip(1) =~= rest);
}

/// The raw frames of frames that keep to the model, with more raw frames
/// behind them, read back as the frames, and the reading goes on behind
/// them.
pub proof fn lemma_read_items_frames(fs: Seq<FrameView>, v: Version, rest: Seq<RawFrame>)
    requires
        frames_ok(fs, false),
    ensures
        read_items(raws_of(fs, v) + rest, v) == (match read_items(rest, v) {
            Some((f2, c2)) => Some((fs + f2, c2)),
            None => None,
        }),
    decreases fs.len(),
{
    if fs.len() == 0 {
        assert(raws_of(fs, v) + rest =~= rest);
        let r = read_items(rest, v);
        if r is Some {
            assert(fs + r.unwrap().0 =~= r.unwrap().0);
        }
    } else {
        let first = fs[0];
        let others = fs.skip(1);
        assert(frame_ok(first, false));
        assert(frames_ok(others, false)) by {
            assert forall|i: int| 0 <= i < others.len() implies frame_ok(
                #[trigger] others[i],
                false,
            ) by {
                assert(others[i] == fs[i + 1]);
            }
        }
        let behind = raws_of(others, v) + rest;
        assert(raws_of(fs, v) + rest =~= seq![raw_of(first, v)] + behind);
        lemma_read_items_frame(first, v, behind);
        lemma_read_items_frames(others, v, rest);
        let r = read_items(rest, v);
        if r is Some {
            assert(seq![first] + (others + r.unwrap().0) =~= fs + r.unwrap().0);
        }
    }
}

/// What follows the header of a written tag is cut and read back as the
/// frames and the chapters of the tag.
pub proof fn lemma_body_reads_back(t: TagView)
    requires
        writable(t),
    ensures
        split_frames(tag_body(t), t.version) == Some(
            raws_of(t.frames, t.version) + raws_of_chapters(t.chapters, t.version),
        ),
        read_items(
            raws_of(t.frames, t.version) + raws_of_chapters(t.chapters, t.version),
            t.version,
        ) == Some((t.frames, t.chapters)),
{
    let v = t.version;
    let cb = chapters_bytes(t.chapters, v);
    let chapter_raws = raws_of_chapters(t.chapters, v);
    lemma_bodies_fit(t.frames, v);
    lemma_chapters_fit(t.chapters, v);
    assert(split_frames(Seq::<u8>::empty(), v) == Some(Seq::<RawFrame>::empty()));
    lemma_split_written_chapters(t.chapters, v, Seq::empty());
    assert(cb + Seq::<u8>::empty() =~= cb);
    assert(chapter_raws + Seq::<RawFrame>::empty() =~= chapter_raws);
    lemma_split_written_frames(t.frames, v, false, cb);
    lemma_read_items_chapters(t.chapters, v);
    lemma_read_items_frames(t.frames, v, chapter_raws);
    assert(t.frames + Seq::<FrameView>::empty() =~= t.frames);
}

/// The header of a written tag names the version of the tag and declares
/// the size of what follows it.
pub proof fn lemma_header_reads_back(v: Version, n: int, rest: Seq<u8>)
    requires
        0 <= n < SYNCHSAFE_LIMIT,
    ensures
        tag_header(v, n).len() == 10,
        has_marker(tag_header(v, n) + rest),
        version_of((tag_header(v, n) + rest)[3]) == Some(v),
        declared_tag_size(tag_header(v, n) + rest) == n,
{
    reveal(tag_header);
    let head = tag_header(v, n);
    let b = head + rest;
    lemma_synchsafe_round_trip(n);
    lemma_be_round_trip(spec_synchsafe(n));
    assert(head.len() == 10);
    assert(b[0] == head[0] && b[1] == head[1] && b[2] == head[2] && b[3] == head[3]);
    assert(b.subrange(6, 10) =~= spec_be_bytes(spec_synchsafe(n)));
}

/// A written tag that keeps to the model and fits its size field reads back
/// as the tag, whatever follows it in the file.
pub proof fn lemma_decode_written(t: TagView, audio: Seq<u8>)
    requires
        writable(t),
    ensures
        spec_decode(tag_block(t) + audio) == Ok::<TagView, DecodeError>(t),
{
    let body = tag_body(t);
    let n = body.len() as int;
    let b = tag_block(t) + audio;
    lemma_header_reads_back(t.version, n, body + audio);
    assert(b =~= tag_header(t.version, n) + (body + audio));
    assert(b.subrange(10, 10 + n) =~= body);
    lemma_body_reads_back(t);
}

/// Writing a tag in front of audio that does not itself open with the
/// marker, and reading the file back, gives the tag; and the file ends with
/// the audio, byte for byte.
pub proof fn lemma_round_trip(t: TagView, audio: Seq<u8>)
    requires
        writable(t),
        !has_marker(audio),
    ensures
        spec_encode(t, audio) == Ok::<Seq<u8>, EncodeError>(tag_block(t) + audio),
        spec_decode(tag_block(t) + audio) == Ok::<TagView, DecodeError>(t),
        (tag_block(t) + audio).skip(tag_block(t).len() as int) == audio,
{
    lemma_decode_written(t, audio);
    assert(audio_of(audio) =~= audio);
    assert((tag_block(t) + audio).skip(tag_block(t).len() as int) =~= audio);
}

/// Writing a tag into a file in place of the tag that the file announces,
/// and reading the result back, gives the tag; and the result ends with what
/// stood behind the old tag, byte for byte.
pub proof fn lemma_replace_round_trip(t: TagView, file: Seq<u8>)
    requires
        writable(t),
        announced_len(file) <= file.len(),
    ensures
        spec_encode(t, file) == Ok::<Seq<u8>, EncodeError>(tag_block(t) + audio_of(file)),
        spec_decode(tag_block(t) + audio_of(file)) == Ok::<TagView, DecodeError>(t),
        (tag_block(t) + audio_of(file)).skip(tag_block(t).len() as int) == audio_of(file),
        audio_of(file) == file.skip(announced_len(file)),
{
    lemma_decode_written(t, audio_of(file));
    assert((tag_block(t) + audio_of(file)).skip(tag_block(t).len() as int) =~= audio_of(file));
}

/// Whether a file is one that a tag can be read from or that has none.
pub open spec fn readable(file: Seq<u8>) -> bool {
    spec_decode(file) is Ok || spec_decode(file) == Err::<TagView, DecodeError>(
        DecodeError::NoTagFound,
    )
}

/// A file that a tag can be read from, or that has none, takes any tag that
/// can be written: the audio is there, and what is written reads back.
pub proof fn lemma_readable_file_takes_tag(t: TagView, file: Seq<u8>)
    requires
        writable(t),
        readable(file),
    ensures
        announced_len(file) <= file.len(),
        spec_encode(t, file) == Ok::<Seq<u8>, EncodeError>(tag_block(t) + audio_of(file)),
        spec_decode(tag_block(t) + audio_of(file)) == Ok::<TagView, DecodeError>(t),
{
    lemma_replace_round_trip(t, file);
}

} // verus!
