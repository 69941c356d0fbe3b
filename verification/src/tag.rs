//! A tag: frames in the order they were added, chapters, and the version of
//! the format; and what it takes for a tag to keep to the model.

use crate::frame::{frames_ok, name_ok, Frame, FrameView, Version};
use vstd::prelude::*;

verus! {

/// A chapter marker (`CHAP`): a span of the audio, with frames of its own
/// that describe it.
#[derive(Clone, Debug, PartialEq, Eq)]
pub struct Chapter {
    pub element_id: String,
    pub start_time_ms: u32,
    pub end_time_ms: u32,
    pub sub_frames: Vec<Frame>,
}

/// What a `Chapter` is.
pub struct ChapterView {
    pub element_id: Seq<char>,
    pub start_time_ms: u32,
    pub end_time_ms: u32,
    pub sub_frames: Seq<FrameView>,
}

impl View for Chapter {
    type V = ChapterView;

    open spec fn view(&self) -> ChapterView {
        ChapterView {
            element_id: self.element_id@,
            start_time_ms: self.start_time_ms,
            end_time_ms: self.end_time_ms,
            sub_frames: self.sub_frames.deep_view(),
        }
    }
}

impl DeepView for Chapter {
    type V = ChapterView;

    open spec fn deep_view(&self) -> ChapterView {
        self@
    }
}

/// The metadata of one file.
#[derive(Clone, Debug, PartialEq, Eq)]
pub struct Tag {
    pub frames: Vec<Frame>,
    pub chapters: Vec<Chapter>,
    pub version: Version,
}

/// What a `Tag` is.
pub struct TagView {
    pub frames: Seq<FrameView>,
    pub chapters: Seq<ChapterView>,
    pub version: Version,
}

impl TagView {
    /// The tag of version 2.4 that holds nothing.
    pub open spec fn empty() -> TagView {
        TagView { frames: Seq::empty(), chapters: Seq::empty(), version: Version::Id3v24 }
    }
}

impl View for Tag {
    type V = TagView;

    open spec fn view(&self) -> TagView {
        TagView {
            frames: self.frames.deep_view(),
            chapters: self.chapters.deep_view(),
            version: self.version,
        }
    }
}

impl DeepView for Tag {
    type V = TagView;

    open spec fn deep_view(&self) -> TagView {
        self@
    }
}

impl Tag {
    /// A tag of version 2.4 that holds nothing.
    pub fn new() -> (t: Tag)
        ensures
            t@ == TagView::empty(),
            tag_ok(t@),
    {
        let t = Tag { frames: Vec::new(), chapters: Vec::new(), version: Version::Id3v24 };
        assert(t@.frames =~= Seq::empty());
        assert(t@.chapters =~= Seq::empty());
        t
    }

    /// A tag of the given version that holds nothing.
    pub fn with_version(version: Version) -> (t: Tag)
        ensures
            t@ == (TagView { frames: Seq::empty(), chapters: Seq::empty(), version }),
            tag_ok(t@),
    {
        let t = Tag { frames: Vec::new(), chapters: Vec::new(), version };
        assert(t@.frames =~= Seq::empty());
        assert(t@.chapters =~= Seq::empty());
        t
    }
}

/// Whether a chapter keeps to the model: it does not end before it starts,
/// and its identifier and frames can be written and read back.
pub open spec fn chapter_ok(c: ChapterView) -> bool {
    &&& name_ok(c.element_id)
    &&& c.start_time_ms <= c.end_time_ms
    &&& frames_ok(c.sub_frames, true)
}

/// Whether every chapter of a list keeps to the model.
pub open spec fn chapters_ok(cs: Seq<ChapterView>) -> bool {
    forall|i: int| 0 <= i < cs.len() ==> chapter_ok(#[trigger] cs[i])
}

/// Whether a tag keeps to the model.
pub open spec fn tag_ok(t: TagView) -> bool {
    frames_ok(t.frames, false) && chapters_ok(t.chapters)
}

} // verus!
