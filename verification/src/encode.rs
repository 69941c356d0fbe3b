//! Writing a tag into the bytes of a file.

use crate::error::EncodeError;
use crate::frame::{frame_ok, frames_ok, name_ok, names_ok, Frame, FrameView, Version};
use crate::layout::{id_chap, major_of, size_field, HEADER_LEN};
use crate::round_trip::lemma_id_is_latin1;
use crate::synchsafe::{read_u32_be, synchsafe, unsynchsafe, write_u32_be, SYNCHSAFE_LIMIT};
use crate::tag::{chapter_ok, chapters_ok, tag_ok, Chapter, ChapterView, Tag};
use crate::text::{is_latin1, latin1_encode, LATIN1, UTF16, UTF8};
use crate::text_write::{fits_latin1, push_latin1, push_terminator, push_text};
use crate::valid::tag_valid;
use crate::write_laws::{
    lemma_chapters_bytes_add, lemma_chapters_bytes_one, lemma_framed_len, lemma_frames_bytes_add,
    lemma_frames_bytes_one, lemma_names_bytes_add, lemma_names_bytes_one,
};
use crate::write_spec::{
    announced_len, audio_of, chapter_body, chapter_bytes, chapters_bytes, comment_body, frame_body,
    framed, frames_bytes, link_body, marker_for, names_bytes, no_offsets, picture_body,
    spec_encode, tag_block, tag_body, tag_header, text_body, toc_body, toc_flags, writable,
};
use vstd::prelude::*;
use vstd::slice::slice_subrange;

verus! {

/// The marker byte that text is written under.
fn marker(latin1: bool, version: Version) -> (enc: u8)
    ensures
        enc == marker_for(latin1, version),
        enc == LATIN1 || enc == UTF16 || enc == UTF8,
        enc == LATIN1 ==> latin1,
{
    if latin1 {
        LATIN1
    } else {
        match version {
            Version::Id3v24 => UTF8,
            _ => UTF16,
        }
    }
}

/// Writes the body of a text frame.
fn write_text_body(text: &str, version: Version) -> (r: Vec<u8>)
    ensures
        r@ == text_body(text@, version),
{
    let enc: u8 = marker(fits_latin1(text), version);
    let mut out: Vec<u8> = Vec::new();
    out.push(enc);
    assert(out@ =~= seq![enc]);
    push_text(&mut out, text, enc);
    out
}

/// Writes the body of a comment or of lyrics.
fn write_comment_body(language: &str, description: &str, text: &str, version: Version) -> (r: Vec<
    u8,
>)
    requires
        is_latin1(language@),
    ensures
        r@ == comment_body(language@, description@, text@, version),
{
    let enc: u8 = marker(fits_latin1(description) && fits_latin1(text), version);
    let mut out: Vec<u8> = Vec::new();
    out.push(enc);
    assert(out@ =~= seq![enc]);
    push_latin1(&mut out, language);
    push_text(&mut out, description, enc);
    push_terminator(&mut out, enc);
    push_text(&mut out, text, enc);
    out
}

/// Writes the body of a picture.
fn write_picture_body(
    mime_type: &str,
    picture_type: u8,
    description: &str,
    data: &Vec<u8>,
    version: Version,
) -> (r: Vec<u8>)
    requires
        is_latin1(mime_type@),
    ensures
        r@ == picture_body(mime_type@, picture_type, description@, data@, version),
{
    let enc: u8 = marker(fits_latin1(description), version);
    let mut out: Vec<u8> = Vec::new();
    out.push(enc);
    assert(out@ =~= seq![enc]);
    push_latin1(&mut out, mime_type);
    let ghost a = out@;
    out.push(0);
    assert(out@ =~= a + seq![0u8]);
    let ghost b = out@;
    out.push(picture_type);
    assert(out@ =~= b + seq![picture_type]);
    push_text(&mut out, description, enc);
    push_terminator(&mut out, enc);
    out.extend_from_slice(data.as_slice());
    out
}

/// Writes the body of a link.
fn write_link_body(description: &str, url: &str, version: Version) -> (r: Vec<u8>)
    requires
        is_latin1(url@),
    ensures
        r@ == link_body(description@, url@, version),
{
    let enc: u8 = marker(fits_latin1(description), version);
    let mut out: Vec<u8> = Vec::new();
    out.push(enc);
    assert(out@ =~= seq![enc]);
    push_text(&mut out, description, enc);
    push_terminator(&mut out, enc);
    push_latin1(&mut out, url);
    out
}

/// Appends names, each with a zero byte behind it.
fn write_names(out: &mut Vec<u8>, names: &Vec<String>)
    requires
        names_ok(names.deep_view()),
    ensures
        final(out)@ == old(out)@ + names_bytes(names.deep_view()),
{
    let ghost before = out@;
    let ghost all = names.deep_view();
    let mut i: usize = 0;
    assert(all.take(0) =~= Seq::<Seq<char>>::empty());
    assert(out@ =~= before + names_bytes(all.take(0)));
    while i < names.len()
        invariant
            i <= names@.len(),
            before == old(out)@,
            all == names.deep_view(),
            names_ok(all),
            out@ == before + names_bytes(all.take(i as int)),
        decreases names@.len() - i,
    {
        let name: &str = names[i].as_str();
        assert(all[i as int] == name@);
        assert(name_ok(all[i as int]));
        let ghost sofar = out@;
        push_latin1(out, name);
        out.push(0);
        proof {
            assert(all.take(i + 1) =~= all.take(i as int) + seq![name@]);
            lemma_names_bytes_add(all.take(i as int), seq![name@]);
            lemma_names_bytes_one(name@);
            assert(out@ =~= sofar + (latin1_encode(name@) + seq![0u8]));
        }
        i = i + 1;
    }
    assert(all.take(all.len() as int) =~= all);
}

/// Writes the body of a table of contents.
fn write_toc_body(element_id: &str, ordered: bool, names: &Vec<String>) -> (r: Vec<u8>)
    requires
        name_ok(element_id@),
        names@.len() <= 255,
        names_ok(names.deep_view()),
    ensures
        r@ == toc_body(element_id@, ordered, names.deep_view()),
{
    let mut out: Vec<u8> = Vec::new();
    push_latin1(&mut out, element_id);
    let ghost a = out@;
    out.push(0);
    out.push(
        if ordered {
            3
        } else {
            2
        },
    );
    out.push(names.len() as u8);
    assert(out@ =~= a + seq![0u8] + seq![toc_flags(ordered)] + seq![
        names.deep_view().len() as u8,
    ]);
    write_names(&mut out, names);
    out
}

/// Writes the body of a frame.
fn write_frame_body(f: &Frame, version: Version, nested: bool) -> (r: Vec<u8>)
    requires
        frame_ok(f@, nested),
    ensures
        r@ == frame_body(f@, version),
{
    reveal(frame_ok);
    reveal(frame_body);
    match f {
        Frame::TextFrame { text, .. } => write_text_body(text.as_str(), version),
        Frame::CommentFrame { language, description, text, .. } => write_comment_body(
            language.as_str(),
            description.as_str(),
            text.as_str(),
            version,
        ),
        Frame::LyricsFrame { language, description, text, .. } => write_comment_body(
            language.as_str(),
            description.as_str(),
            text.as_str(),
            version,
        ),
        Frame::PictureFrame { mime_type, picture_type, description, data, .. } => {
            write_picture_body(
                mime_type.as_str(),
                *picture_type,
                description.as_str(),
                data,
                version,
            )
        },
        Frame::LinkFrame { description, url, .. } => write_link_body(
            description.as_str(),
            url.as_str(),
            version,
        ),
        Frame::TableOfContentsFrame { element_id, ordered, child_element_ids, .. } => {
            write_toc_body(element_id.as_str(), *ordered, child_element_ids)
        },
        Frame::GenericFrame { data, .. } => data.clone(),
    }
}

/// Appends a frame with the identifier `id` around `body`, unless the body
/// is too long for a size field.
fn write_framed(out: &mut Vec<u8>, id: &str, body: &Vec<u8>, version: Version) -> (ok: bool)
    requires
        is_latin1(id@),
    ensures
        ok == (body@.len() < SYNCHSAFE_LIMIT),
        ok ==> final(out)@ == old(out)@ + framed(id@, body@, version),
        !ok ==> framed(id@, body@, version).len() >= SYNCHSAFE_LIMIT,
{
    reveal(framed);
    if body.len() >= SYNCHSAFE_LIMIT as usize {
        return false;
    }
    let ghost before = out@;
    let n: u32 = body.len() as u32;
    push_latin1(out, id);
    match version {
        Version::Id3v24 => write_u32_be(out, synchsafe(n)),
        _ => write_u32_be(out, n),
    }
    let ghost a = out@;
    assert(a == before + latin1_encode(id@) + size_field(n as int, version));
    out.push(0);
    out.push(0);
    assert(out@ =~= a + seq![0u8, 0u8]);
    out.extend_from_slice(body.as_slice());
    true
}

/// Appends frames one after another. Stops with `false` at a frame whose
/// body is too long for a size field.
fn write_frames(out: &mut Vec<u8>, frames: &Vec<Frame>, version: Version, nested: bool) -> (ok:
    bool)
    requires
        frames_ok(frames.deep_view(), nested),
    ensures
        ok ==> final(out)@ == old(out)@ + frames_bytes(frames.deep_view(), version),
        !ok ==> frames_bytes(frames.deep_view(), version).len() >= SYNCHSAFE_LIMIT,
{
    let ghost before = out@;
    let ghost all = frames.deep_view();
    let mut i: usize = 0;
    assert(all.take(0) =~= Seq::<FrameView>::empty());
    assert(out@ =~= before + frames_bytes(all.take(0), version));
    while i < frames.len()
        invariant
            i <= frames@.len(),
            before == old(out)@,
            all == frames.deep_view(),
            frames_ok(all, nested),
            out@ == before + frames_bytes(all.take(i as int), version),
        decreases frames@.len() - i,
    {
        let f: &Frame = &frames[i];
        assert(all[i as int] == f@);
        assert(frame_ok(all[i as int], nested));
        let body: Vec<u8> = write_frame_body(f, version, nested);
        proof {
            assert(all =~= all.take(i as int) + seq![f@] + all.skip(i + 1));
            lemma_frames_bytes_add(all.take(i as int) + seq![f@], all.skip(i + 1), version);
            lemma_frames_bytes_add(all.take(i as int), seq![f@], version);
            lemma_frames_bytes_one(f@, version);
            assert(all.take(i + 1) =~= all.take(i as int) + seq![f@]);
            lemma_id_is_latin1(f@, nested);
        }
        if !write_framed(out, f.id(), &body, version) {
            return false;
        }
        i = i + 1;
    }
    assert(all.take(all.len() as int) =~= all);
    true
}

/// Appends a chapter. Stops with `false` where a body is too long for a size
/// field.
fn write_chapter(out: &mut Vec<u8>, c: &Chapter, version: Version) -> (ok: bool)
    requires
        chapter_ok(c@),
    ensures
        ok ==> final(out)@ == old(out)@ + chapter_bytes(c@, version),
        !ok ==> chapter_bytes(c@, version).len() >= SYNCHSAFE_LIMIT,
{
    reveal(chapter_body);
    let mut body: Vec<u8> = Vec::new();
    push_latin1(&mut body, c.element_id.as_str());
    let ghost a = body@;
    body.push(0);
    assert(body@ =~= a + seq![0u8]);
    write_u32_be(&mut body, c.start_time_ms);
    write_u32_be(&mut body, c.end_time_ms);
    let ghost b = body@;
    let mut k: usize = 0;
    while k < 8
        invariant
            k <= 8,
            body@.len() == b.len() + k,
            forall|j: int| 0 <= j < b.len() ==> body@[j] == b[j],
            forall|j: int| b.len() <= j < b.len() + k ==> body@[j] == 0xFF,
        decreases 8 - k,
    {
        body.push(0xFF);
        k = k + 1;
    }
    assert(body@ =~= b + no_offsets());
    let ghost head = body@;
    if !write_frames(&mut body, &c.sub_frames, version, true) {
        proof {
            assert(chapter_body(c@, version) =~= head + frames_bytes(c@.sub_frames, version));
            lemma_framed_len(id_chap(), chapter_body(c@, version), version);
        }
        return false;
    }
    assert(body@ == chapter_body(c@, version));
    proof {
        reveal_strlit("CHAP");
        assert("CHAP"@ =~= id_chap());
        assert forall|j: int| 0 <= j < id_chap().len() implies (#[trigger] id_chap()[j] as u32)
            < 256 by {}
    }
    write_framed(out, "CHAP", &body, version)
}

/// Appends chapters one after another. Stops with `false` where a body is
/// too long for a size field.
fn write_chapters(out: &mut Vec<u8>, chapters: &Vec<Chapter>, version: Version) -> (ok: bool)
    requires
        chapters_ok(chapters.deep_view()),
    ensures
        ok ==> final(out)@ == old(out)@ + chapters_bytes(chapters.deep_view(), version),
        !ok ==> chapters_bytes(chapters.deep_view(), version).len() >= SYNCHSAFE_LIMIT,
{
    let ghost before = out@;
    let ghost all = chapters.deep_view();
    let mut i: usize = 0;
    assert(all.take(0) =~= Seq::<ChapterView>::empty());
    assert(out@ =~= before + chapters_bytes(all.take(0), version));
    while i < chapters.len()
        invariant
            i <= chapters@.len(),
            before == old(out)@,
            all == chapters.deep_view(),
            chapters_ok(all),
            out@ == before + chapters_bytes(all.take(i as int), version),
        decreases chapters@.len() - i,
    {
        let c: &Chapter = &chapters[i];
        assert(all[i as int] == c@);
        assert(chapter_ok(all[i as int]));
        proof {
            assert(all =~= all.take(i as int) + seq![c@] + all.skip(i + 1));
            lemma_chapters_bytes_add(all.take(i as int) + seq![c@], all.skip(i + 1), version);
            lemma_chapters_bytes_add(all.take(i as int), seq![c@], version);
            lemma_chapters_bytes_one(c@, version);
            assert(all.take(i + 1) =~= all.take(i as int) + seq![c@]);
        }
        if !write_chapter(out, c, version) {
            return false;
        }
        i = i + 1;
    }
    assert(all.take(all.len() as int) =~= all);
    true
}

/// Writes what follows the header of a tag, unless it is too long for the
/// size field of the header.
fn write_tag_body(tag: &Tag) -> (r: Option<Vec<u8>>)
    requires
        tag_ok(tag@),
    ensures
        match r {
            Some(body) => body@ == tag_body(tag@) && body@.len() < SYNCHSAFE_LIMIT,
            None => tag_body(tag@).len() >= SYNCHSAFE_LIMIT,
        },
{
    let mut body: Vec<u8> = Vec::new();
    if !write_frames(&mut body, &tag.frames, tag.version, false) {
        return None;
    }
    assert(body@ =~= frames_bytes(tag@.frames, tag.version));
    if !write_chapters(&mut body, &tag.chapters, tag.version) {
        return None;
    }
    if body.len() >= SYNCHSAFE_LIMIT as usize {
        return None;
    }
    Some(body)
}

/// How many bytes at the start of the file belong to the tag that it
/// announces, unless that is more than the file has.
fn announced(file: &[u8]) -> (r: Option<usize>)
    ensures
        match r {
            Some(n) => n == announced_len(file@) && n <= file@.len(),
            None => announced_len(file@) > file@.len(),
        },
{
    let len: usize = file.len();
    if len >= 3 && file[0] == 0x49 && file[1] == 0x44 && file[2] == 0x33 {
        if len < HEADER_LEN {
            return None;
        }
        let size: u32 = unsynchsafe(read_u32_be(file, 6));
        if size as u64 + 10 > len as u64 {
            return None;
        }
        Some(HEADER_LEN + size as usize)
    } else {
        Some(0)
    }
}

/// The header of a tag of the given version with `n` bytes behind it.
fn write_tag_header(version: Version, n: u32) -> (out: Vec<u8>)
    requires
        n < SYNCHSAFE_LIMIT,
    ensures
        out@ == tag_header(version, n as int),
{
    reveal(tag_header);
    let mut out: Vec<u8> = Vec::new();
    out.push(0x49);
    out.push(0x44);
    out.push(0x33);
    out.push(
        match version {
            Version::Id3v22 => 2,
            Version::Id3v23 => 3,
            Version::Id3v24 => 4,
        },
    );
    out.push(0);
    out.push(0);
    assert(out@ =~= seq![
        0x49u8,
        0x44u8,
        0x33u8,
        major_of(version),
        0u8,
        0u8,
    ]);
    write_u32_be(&mut out, synchsafe(n));
    out
}

/// Writes `tag` in place of the tag at the start of `original_bytes`, and
/// leaves every byte behind that tag as it is. Where the file has no tag,
/// the new one goes in front of it.
///
/// Fails with `InvalidTag` where the tag does not keep to the model or is
/// too large for the size field of the header, and with
/// `MissingAudioPayload` where the file announces a tag that is longer than
/// the file.
pub fn encode(tag: &Tag, original_bytes: &[u8]) -> (r: Result<Vec<u8>, EncodeError>)
    ensures
        match r {
            Ok(bytes) => spec_encode(tag@, original_bytes@) == Ok::<Seq<u8>, EncodeError>(bytes@),
            Err(e) => spec_encode(tag@, original_bytes@) == Err::<Seq<u8>, EncodeError>(e),
        },
{
    if !tag_valid(tag) {
        return Err(EncodeError::InvalidTag);
    }
    let body: Vec<u8> = match write_tag_body(tag) {
        Some(body) => body,
        None => { return Err(EncodeError::InvalidTag); },
    };
    assert(writable(tag@));
    let skip: usize = match announced(original_bytes) {
        Some(skip) => skip,
        None => { return Err(EncodeError::MissingAudioPayload); },
    };
    let mut out: Vec<u8> = write_tag_header(tag.version, body.len() as u32);
    out.extend_from_slice(body.as_slice());
    assert(out@ == tag_block(tag@));
    let audio: &[u8] = slice_subrange(original_bytes, skip, original_bytes.len());
    assert(audio@ =~= audio_of(original_bytes@));
    out.extend_from_slice(audio);
    assert(out@ == tag_block(tag@) + audio_of(original_bytes@));
    Ok(out)
}

} // verus!
