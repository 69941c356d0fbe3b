//! The frames of a tag, their mathematical model, and what it takes for a
//! frame to keep to the model.

use crate::layout::{id_apic, id_chap, id_comm, id_ctoc, id_uslt, id_wxxx, is_text_id, is_typed_id};
use crate::text::{is_latin1, nul_free};
use vstd::prelude::*;
use vstd::utf8::is_ascii_chars;

verus! {

/// The revision of ID3v2 that a tag is laid out in.
#[derive(Clone, Copy, Debug, PartialEq, Eq, Structural)]
pub enum Version {
    /// ID3v2.2
    Id3v22,
    /// ID3v2.3
    Id3v23,
    /// ID3v2.4
    Id3v24,
}

/// One unit of metadata.
#[derive(Clone, Debug, PartialEq, Eq)]
pub enum Frame {
    /// A text field such as title, artist or album: any identifier that
    /// starts with `T`.
    TextFrame { id: String, text: String },
    /// A comment (`COMM`).
    CommentFrame { id: String, language: String, description: String, text: String },
    /// Unsynchronised lyrics (`USLT`).
    LyricsFrame { id: String, language: String, description: String, text: String },
    /// An attached picture (`APIC`).
    PictureFrame {
        id: String,
        mime_type: String,
        picture_type: u8,
        description: String,
        data: Vec<u8>,
    },
    /// A user-defined link (`WXXX`).
    LinkFrame { id: String, description: String, url: String },
    /// A table of contents (`CTOC`). Frames that stand in the table are
    /// not kept.
    TableOfContentsFrame {
        id: String,
        element_id: String,
        ordered: bool,
        child_element_ids: Vec<String>,
    },
    /// Any other frame, kept as the bytes it was read from.
    GenericFrame { id: String, data: Vec<u8> },
}

/// What a `Frame` is, with strings as sequences of characters and buffers as
/// sequences of bytes.
pub enum FrameView {
    TextFrame { id: Seq<char>, text: Seq<char> },
    CommentFrame { id: Seq<char>, language: Seq<char>, description: Seq<char>, text: Seq<char> },
    LyricsFrame { id: Seq<char>, language: Seq<char>, description: Seq<char>, text: Seq<char> },
    PictureFrame {
        id: Seq<char>,
        mime_type: Seq<char>,
        picture_type: u8,
        description: Seq<char>,
        data: Seq<u8>,
    },
    LinkFrame { id: Seq<char>, description: Seq<char>, url: Seq<char> },
    TableOfContentsFrame {
        id: Seq<char>,
        element_id: Seq<char>,
        ordered: bool,
        child_element_ids: Seq<Seq<char>>,
    },
    GenericFrame { id: Seq<char>, data: Seq<u8> },
}

impl FrameView {
    /// The identifier of the frame.
    pub open spec fn id(self) -> Seq<char> {
        match self {
            FrameView::TextFrame { id, .. } => id,
            FrameView::CommentFrame { id, .. } => id,
            FrameView::LyricsFrame { id, .. } => id,
            FrameView::PictureFrame { id, .. } => id,
            FrameView::LinkFrame { id, .. } => id,
            FrameView::TableOfContentsFrame { id, .. } => id,
            FrameView::GenericFrame { id, .. } => id,
        }
    }
}

impl View for Frame {
    type V = FrameView;

    open spec fn view(&self) -> FrameView {
        match *self {
            Frame::TextFrame { id, text } => FrameView::TextFrame { id: id@, text: text@ },
            Frame::CommentFrame { id, language, description, text } => FrameView::CommentFrame {
                id: id@,
                language: language@,
                description: description@,
                text: text@,
            },
            Frame::LyricsFrame { id, language, description, text } => FrameView::LyricsFrame {
                id: id@,
                language: language@,
                description: description@,
                text: text@,
            },
            Frame::PictureFrame {
                id,
                mime_type,
                picture_type,
                description,
                data,
            } => FrameView::PictureFrame {
                id: id@,
                mime_type: mime_type@,
                picture_type,
                description: description@,
                data: data@,
            },
            Frame::LinkFrame { id, description, url } => FrameView::LinkFrame {
                id: id@,
                description: description@,
                url: url@,
            },
            Frame::TableOfContentsFrame {
                id,
                element_id,
                ordered,
                child_element_ids,
            } => FrameView::TableOfContentsFrame {
                id: id@,
                element_id: element_id@,
                ordered,
                child_element_ids: child_element_ids.deep_view(),
            },
            Frame::GenericFrame { id, data } => FrameView::GenericFrame { id: id@, data: data@ },
        }
    }
}

impl DeepView for Frame {
    type V = FrameView;

    open spec fn deep_view(&self) -> FrameView {
        self@
    }
}

impl Frame {
    /// The identifier of the frame.
    pub fn id(&self) -> (r: &str)
        ensures
            r@ == self@.id(),
    {
        match self {
            Frame::TextFrame { id, .. } => id.as_str(),
            Frame::CommentFrame { id, .. } => id.as_str(),
            Frame::LyricsFrame { id, .. } => id.as_str(),
            Frame::PictureFrame { id, .. } => id.as_str(),
            Frame::LinkFrame { id, .. } => id.as_str(),
            Frame::TableOfContentsFrame { id, .. } => id.as_str(),
            Frame::GenericFrame { id, .. } => id.as_str(),
        }
    }
}

/// A Latin-1 string that can stand before a zero byte: every character fits
/// in a byte and none is NUL.
pub open spec fn name_ok(s: Seq<char>) -> bool {
    is_latin1(s) && nul_free(s)
}

/// A text that reads back as it is: it does not end in NUL.
pub open spec fn text_ok(s: Seq<char>) -> bool {
    s.len() == 0 || s.last() != '\0'
}

/// An identifier: four ASCII characters, not all of them NUL.
pub open spec fn id_ok(id: Seq<char>) -> bool {
    &&& id.len() == 4
    &&& is_ascii_chars(id)
    &&& !(id[0] == '\0' && id[1] == '\0' && id[2] == '\0' && id[3] == '\0')
}

/// Whether every name of a list can stand before a zero byte.
pub open spec fn names_ok(names: Seq<Seq<char>>) -> bool {
    forall|i: int| 0 <= i < names.len() ==> name_ok(#[trigger] names[i])
}

/// Whether a frame keeps to the model: its identifier is the one of its
/// variant, and each field is one that the layout can carry and give back.
/// A frame kept as bytes has an identifier that no variant claims; inside a
/// chapter (`nested`) that may be `CHAP`.
#[verifier::opaque]
pub open spec fn frame_ok(f: FrameView, nested: bool) -> bool {
    match f {
        FrameView::TextFrame { id, text } => id_ok(id) && is_text_id(id) && text_ok(text),
        FrameView::CommentFrame { id, language, description, text } => {
            &&& id == id_comm()
            &&& language.len() == 3
            &&& is_latin1(language)
            &&& nul_free(description)
            &&& text_ok(text)
        },
        FrameView::LyricsFrame { id, language, description, text } => {
            &&& id == id_uslt()
            &&& language.len() == 3
            &&& is_latin1(language)
            &&& nul_free(description)
            &&& text_ok(text)
        },
        FrameView::PictureFrame { id, mime_type, description, .. } => {
            &&& id == id_apic()
            &&& name_ok(mime_type)
            &&& nul_free(description)
        },
        FrameView::LinkFrame { id, description, url } => {
            &&& id == id_wxxx()
            &&& nul_free(description)
            &&& is_latin1(url)
        },
        FrameView::TableOfContentsFrame { id, element_id, child_element_ids, .. } => {
            &&& id == id_ctoc()
            &&& name_ok(element_id)
            &&& child_element_ids.len() <= 255
            &&& names_ok(child_element_ids)
        },
        FrameView::GenericFrame { id, .. } => {
            &&& id_ok(id)
            &&& !is_typed_id(id)
            &&& (nested || id != id_chap())
        },
    }
}

/// Whether every frame of a list keeps to the model.
pub open spec fn frames_ok(fs: Seq<FrameView>, nested: bool) -> bool {
    forall|i: int| 0 <= i < fs.len() ==> frame_ok(#[trigger] fs[i], nested)
}

} // verus!
