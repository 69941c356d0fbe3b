//! Whether a tag keeps to the model: the tests that writing runs first.

use crate::frame::{frame_ok, frames_ok, id_ok, name_ok, names_ok, text_ok, Frame};
use crate::layout::{id_apic, id_chap, id_comm, id_ctoc, id_uslt, id_wxxx, is_text_id};
use crate::strings::str_eq;
use crate::tag::{chapter_ok, tag_ok, Chapter, Tag};
use crate::text::is_latin1;
use crate::text_write::{ends_with_nul, fits_latin1, has_no_nul};
use vstd::prelude::*;
use vstd::utf8::is_ascii_chars_encode_utf8;

verus! {

/// Whether `id` is an identifier: four ASCII characters, not all NUL.
pub fn id_valid(id: &str) -> (r: bool)
    ensures
        r == id_ok(id@),
{
    let bytes: &[u8] = id.as_bytes();
    if !id.is_ascii() {
        return false;
    }
    proof {
        is_ascii_chars_encode_utf8(id@);
    }
    if bytes.len() != 4 {
        return false;
    }
    assert(id@[0] as u8 == bytes@[0]);
    assert(id@[1] as u8 == bytes@[1]);
    assert(id@[2] as u8 == bytes@[2]);
    assert(id@[3] as u8 == bytes@[3]);
    !(bytes[0] == 0 && bytes[1] == 0 && bytes[2] == 0 && bytes[3] == 0)
}

/// Whether a valid identifier starts with `T`.
fn starts_with_t(id: &str) -> (r: bool)
    requires
        id_ok(id@),
    ensures
        r == is_text_id(id@),
{
    let bytes: &[u8] = id.as_bytes();
    proof {
        is_ascii_chars_encode_utf8(id@);
        assert(id@[0] as u8 == bytes@[0]);
    }
    bytes[0] == 0x54
}

/// Whether `id` is the identifier of comments.
fn is_comm(id: &str) -> (r: bool)
    ensures
        r == (id@ == id_comm()),
{
    proof {
        reveal_strlit("COMM");
        assert("COMM"@ =~= id_comm());
    }
    str_eq(id, "COMM")
}

/// Whether `id` is the identifier of lyrics.
fn is_uslt(id: &str) -> (r: bool)
    ensures
        r == (id@ == id_uslt()),
{
    proof {
        reveal_strlit("USLT");
        assert("USLT"@ =~= id_uslt());
    }
    str_eq(id, "USLT")
}

/// Whether `id` is the identifier of attached pictures.
fn is_apic(id: &str) -> (r: bool)
    ensures
        r == (id@ == id_apic()),
{
    proof {
        reveal_strlit("APIC");
        assert("APIC"@ =~= id_apic());
    }
    str_eq(id, "APIC")
}

/// Whether `id` is the identifier of user-defined links.
fn is_wxxx(id: &str) -> (r: bool)
    ensures
        r == (id@ == id_wxxx()),
{
    proof {
        reveal_strlit("WXXX");
        assert("WXXX"@ =~= id_wxxx());
    }
    str_eq(id, "WXXX")
}

/// Whether `id` is the identifier of tables of contents.
fn is_ctoc(id: &str) -> (r: bool)
    ensures
        r == (id@ == id_ctoc()),
{
    proof {
        reveal_strlit("CTOC");
        assert("CTOC"@ =~= id_ctoc());
    }
    str_eq(id, "CTOC")
}

/// Whether `id` is the identifier of chapters.
fn is_chap(id: &str) -> (r: bool)
    ensures
        r == (id@ == id_chap()),
{
    proof {
        reveal_strlit("CHAP");
        assert("CHAP"@ =~= id_chap());
    }
    str_eq(id, "CHAP")
}

/// Whether `s` can stand before a zero byte in Latin-1.
pub fn name_valid(s: &str) -> (r: bool)
    ensures
        r == name_ok(s@),
{
    fits_latin1(s) && has_no_nul(s)
}

/// Whether `s` does not end in NUL.
pub fn text_valid(s: &str) -> (r: bool)
    ensures
        r == text_ok(s@),
{
    !ends_with_nul(s)
}

/// Whether `s` is a language code: three characters of Latin-1.
fn language_valid(s: &str) -> (r: bool)
    ensures
        r == (s@.len() == 3 && is_latin1(s@)),
{
    s.unicode_len() == 3 && fits_latin1(s)
}

/// Whether every name of the list can stand before a zero byte, and the list
/// has at most 255 of them.
fn names_valid(names: &Vec<String>) -> (r: bool)
    ensures
        r == (names@.len() <= 255 && names_ok(names.deep_view())),
{
    if names.len() > 255 {
        return false;
    }
    let mut i: usize = 0;
    while i < names.len()
        invariant
            i <= names@.len(),
            forall|j: int| 0 <= j < i ==> name_ok(#[trigger] names.deep_view()[j]),
        decreases names@.len() - i,
    {
        if !name_valid(names[i].as_str()) {
            assert(names.deep_view()[i as int] == names@[i as int]@);
            return false;
        }
        assert(names.deep_view()[i as int] == names@[i as int]@);
        i = i + 1;
    }
    true
}

/// Whether a frame keeps to the model.
pub fn frame_valid(f: &Frame, nested: bool) -> (r: bool)
    ensures
        r == frame_ok(f@, nested),
{
    reveal(frame_ok);
    match f {
        Frame::TextFrame { id, text } => {
            id_valid(id.as_str()) && starts_with_t(id.as_str()) && text_valid(text.as_str())
        },
        Frame::CommentFrame { id, language, description, text } => {
            is_comm(id.as_str()) && language_valid(language.as_str()) && has_no_nul(
                description.as_str(),
            ) && text_valid(text.as_str())
        },
        Frame::LyricsFrame { id, language, description, text } => {
            is_uslt(id.as_str()) && language_valid(language.as_str()) && has_no_nul(
                description.as_str(),
            ) && text_valid(text.as_str())
        },
        Frame::PictureFrame { id, mime_type, description, .. } => {
            is_apic(id.as_str()) && name_valid(mime_type.as_str()) && has_no_nul(
                description.as_str(),
            )
        },
        Frame::LinkFrame { id, description, url } => {
            is_wxxx(id.as_str()) && has_no_nul(description.as_str()) && fits_latin1(url.as_str())
        },
        Frame::TableOfContentsFrame { id, element_id, child_element_ids, .. } => {
            is_ctoc(id.as_str()) && name_valid(element_id.as_str()) && names_valid(
                child_element_ids,
            )
        },
        Frame::GenericFrame { id, .. } => {
            let name: &str = id.as_str();
            id_valid(name) && !starts_with_t(name) && !is_comm(name) && !is_uslt(name) && !is_apic(
                name,
            ) && !is_wxxx(name) && !is_ctoc(name) && (nested || !is_chap(name))
        },
    }
}

/// Whether every frame of a list keeps to the model.
pub fn frames_valid(frames: &Vec<Frame>, nested: bool) -> (r: bool)
    ensures
        r == frames_ok(frames.deep_view(), nested),
{
    let mut i: usize = 0;
    while i < frames.len()
        invariant
            i <= frames@.len(),
            forall|j: int| 0 <= j < i ==> frame_ok(#[trigger] frames.deep_view()[j], nested),
        decreases frames@.len() - i,
    {
        assert(frames.deep_view()[i as int] == frames@[i as int]@);
        if !frame_valid(&frames[i], nested) {
            return false;
        }
        i = i + 1;
    }
    true
}

/// Whether a chapter keeps to the model.
pub fn chapter_valid(c: &Chapter) -> (r: bool)
    ensures
        r == chapter_ok(c@),
{
    name_valid(c.element_id.as_str()) && c.start_time_ms <= c.end_time_ms && frames_valid(
        &c.sub_frames,
        true,
    )
}

/// Whether a tag keeps to the model.
pub fn tag_valid(tag: &Tag) -> (r: bool)
    ensures
        r == tag_ok(tag@),
{
    if !frames_valid(&tag.frames, false) {
        return false;
    }
    let mut i: usize = 0;
    while i < tag.chapters.len()
        invariant
            i <= tag.chapters@.len(),
            forall|j: int| 0 <= j < i ==> chapter_ok(#[trigger] tag.chapters.deep_view()[j]),
        decreases tag.chapters@.len() - i,
    {
        assert(tag.chapters.deep_view()[i as int] == tag.chapters@[i as int]@);
        if !chapter_valid(&tag.chapters[i]) {
            return false;
        }
        i = i + 1;
    }
    true
}

} // verus!
