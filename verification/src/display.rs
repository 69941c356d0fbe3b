//! What a display shows of a tag: one line of text for a frame, the cover
//! picture, and for each chapter its title, link, picture and times.

use crate::frame::{Frame, FrameView};
use crate::strings::str_eq;
use crate::tag::{Chapter, ChapterView, Tag};
use vstd::prelude::*;

verus! {

/// The text of `data` in base64, with the standard alphabet and padding.
pub uninterp spec fn base64_text(data: Seq<u8>) -> Seq<char>;

/// Whether the base64 text of `n` bytes has a length that fits in `usize`.
pub open spec fn base64_fits(n: nat) -> bool {
    (n / 3) * 4 + 4 <= usize::MAX
}

/// `Engine::encode` of the crate base64 on its engine
/// `general_purpose::STANDARD`. The text depends on the bytes alone. The
/// call panics where the length of the text does not fit in `usize`, so
/// such inputs are left out.
#[verifier::external_body]
fn base64_standard(data: &[u8]) -> (r: String)
    requires
        base64_fits(data@.len()),
    ensures
        r@ == base64_text(data@),
{
    base64::Engine::encode(&base64::engine::general_purpose::STANDARD, data)
}

/// The picture in base64, or `None` where it is too long for that.
pub fn encode_picture(data: &[u8]) -> (r: Option<String>)
    ensures
        match r {
            Some(s) => base64_fits(data@.len()) && s@ == base64_text(data@),
            None => !base64_fits(data@.len()),
        },
{
    if data.len() / 3 <= (usize::MAX - 4) / 4 {
        Some(base64_standard(data))
    } else {
        None
    }
}

/// Names joined by `sep`.
pub open spec fn join(names: Seq<Seq<char>>, sep: Seq<char>) -> Seq<char>
    decreases names.len(),
{
    if names.len() == 0 {
        Seq::empty()
    } else if names.len() == 1 {
        names[0]
    } else {
        join(names.drop_last(), sep) + sep + names.last()
    }
}

/// The line of text that stands for a frame: the text of a text frame, of a
/// comment and of lyrics, the entries of a table of contents joined by a
/// comma and a blank, and nothing for any other frame.
pub open spec fn spec_display_value(f: FrameView) -> Seq<char> {
    match f {
        FrameView::TextFrame { text, .. } => text,
        FrameView::CommentFrame { text, .. } => text,
        FrameView::LyricsFrame { text, .. } => text,
        FrameView::TableOfContentsFrame { child_element_ids, .. } => join(
            child_element_ids,
            seq![',', ' '],
        ),
        _ => Seq::empty(),
    }
}

/// The image of the last picture frame, if there is one.
pub open spec fn last_picture(frames: Seq<FrameView>) -> Option<Seq<u8>>
    decreases frames.len(),
{
    if frames.len() == 0 {
        None
    } else if let FrameView::PictureFrame { data, .. } = frames.last() {
        Some(data)
    } else {
        last_picture(frames.drop_last())
    }
}

/// The identifier of titles.
pub open spec fn id_tit2() -> Seq<char> {
    seq!['T', 'I', 'T', '2']
}

/// The text of the last text frame with the identifier `TIT2`, or nothing.
pub open spec fn last_title(frames: Seq<FrameView>) -> Seq<char>
    decreases frames.len(),
{
    if frames.len() == 0 {
        Seq::empty()
    } else if let FrameView::TextFrame { id, text } = frames.last() {
        if id == id_tit2() {
            text
        } else {
            last_title(frames.drop_last())
        }
    } else {
        last_title(frames.drop_last())
    }
}

/// The address of the last link frame, if there is one.
pub open spec fn last_link(frames: Seq<FrameView>) -> Option<Seq<char>>
    decreases frames.len(),
{
    if frames.len() == 0 {
        None
    } else if let FrameView::LinkFrame { url, .. } = frames.last() {
        Some(url)
    } else {
        last_link(frames.drop_last())
    }
}

/// A picture in base64 where there is one that is not too long for it.
pub open spec fn picture_text(picture: Option<Seq<u8>>) -> Option<Seq<char>> {
    match picture {
        Some(data) => if base64_fits(data.len()) {
            Some(base64_text(data))
        } else {
            None
        },
        None => None,
    }
}

/// What a display shows of a chapter.
#[derive(Clone, Debug, PartialEq, Eq)]
pub struct ChapterSummary {
    pub element_id: String,
    /// The text of the chapter's last `TIT2` frame, or nothing.
    pub title: String,
    /// The address of the chapter's last link frame.
    pub link: Option<String>,
    /// The chapter's last picture, in base64.
    pub picture: Option<String>,
    /// Where the chapter starts, in whole seconds.
    pub start_seconds: u32,
    /// Where the chapter ends, in whole seconds.
    pub end_seconds: u32,
}

/// What a `ChapterSummary` is.
pub struct ChapterSummaryView {
    pub element_id: Seq<char>,
    pub title: Seq<char>,
    pub link: Option<Seq<char>>,
    pub picture: Option<Seq<char>>,
    pub start_seconds: u32,
    pub end_seconds: u32,
}

/// The view of a string that may be there.
pub open spec fn option_text(s: Option<String>) -> Option<Seq<char>> {
    match s {
        Some(s) => Some(s@),
        None => None,
    }
}

impl View for ChapterSummary {
    type V = ChapterSummaryView;

    open spec fn view(&self) -> ChapterSummaryView {
        ChapterSummaryView {
            element_id: self.element_id@,
            title: self.title@,
            link: option_text(self.link),
            picture: option_text(self.picture),
            start_seconds: self.start_seconds,
            end_seconds: self.end_seconds,
        }
    }
}

impl DeepView for ChapterSummary {
    type V = ChapterSummaryView;

    open spec fn deep_view(&self) -> ChapterSummaryView {
        self@
    }
}

/// What a display shows of a chapter: its identifier, the title, link and
/// picture that its frames give, and its times cut down to whole seconds.
pub open spec fn spec_summary(c: ChapterView) -> ChapterSummaryView {
    ChapterSummaryView {
        element_id: c.element_id,
        title: last_title(c.sub_frames),
        link: last_link(c.sub_frames),
        picture: picture_text(last_picture(c.sub_frames)),
        start_seconds: c.start_time_ms / 1000,
        end_seconds: c.end_time_ms / 1000,
    }
}

/// The prefix that makes a picture in base64 the source of an image.
pub open spec fn image_prefix() -> Seq<char> {
    "data:image/png;base64,"@
}

/// The line of text that stands for a frame.
pub fn display_value(f: &Frame) -> (r: String)
    ensures
        r@ == spec_display_value(f@),
{
    match f {
        Frame::TextFrame { text, .. } => text.clone(),
        Frame::CommentFrame { text, .. } => text.clone(),
        Frame::LyricsFrame { text, .. } => text.clone(),
        Frame::TableOfContentsFrame { child_element_ids, .. } => {
            let ghost names = child_element_ids.deep_view();
            let ghost sep = seq![',', ' '];
            let mut out = String::new();
            let mut i: usize = 0;
            proof {
                reveal_strlit(", ");
                assert(", "@ =~= sep);
                assert(names.take(0) =~= Seq::<Seq<char>>::empty());
            }
            while i < child_element_ids.len()
                invariant
                    i <= child_element_ids@.len(),
                    names == child_element_ids.deep_view(),
                    sep == seq![',', ' '],
                    ", "@ == sep,
                    out@ == join(names.take(i as int), sep),
                decreases child_element_ids@.len() - i,
            {
                let ghost sofar = out@;
                let name: &str = child_element_ids[i].as_str();
                proof {
                    assert(names[i as int] == name@);
                    assert(names.take(i + 1).drop_last() =~= names.take(i as int));
                    assert(names.take(i + 1).last() == name@);
                    if i == 0 {
                        assert(join(names.take(0), sep) =~= Seq::<char>::empty());
                    }
                }
                if i > 0 {
                    out.append(", ");
                }
                out.append(name);
                assert(out@ =~= join(names.take(i + 1), sep));
                i = i + 1;
            }
            assert(names.take(names.len() as int) =~= names);
            out
        },
        _ => String::new(),
    }
}

/// The image of the tag's last picture frame, if it has one.
pub fn cover_picture<'a>(frames: &'a Vec<Frame>) -> (r: Option<&'a Vec<u8>>)
    ensures
        match r {
            Some(data) => last_picture(frames.deep_view()) == Some(data@),
            None => last_picture(frames.deep_view()) is None,
        },
{
    let ghost all = frames.deep_view();
    let mut found: Option<&'a Vec<u8>> = None;
    let mut i: usize = 0;
    assert(all.take(0) =~= Seq::<FrameView>::empty());
    while i < frames.len()
        invariant
            i <= frames@.len(),
            all == frames.deep_view(),
            match found {
                Some(data) => last_picture(all.take(i as int)) == Some(data@),
                None => last_picture(all.take(i as int)) is None,
            },
        decreases frames@.len() - i,
    {
        let f: &'a Frame = &frames[i];
        proof {
            assert(all[i as int] == f@);
            assert(all.take(i + 1).drop_last() =~= all.take(i as int));
            assert(all.take(i + 1).last() == f@);
        }
        match f {
            Frame::PictureFrame { data, .. } => {
                found = Some(data);
            },
            _ => {},
        }
        i = i + 1;
    }
    assert(all.take(all.len() as int) =~= all);
    found
}

/// The tag's last picture in base64, or nothing where the tag has no
/// picture.
pub fn cover_art(tag: &Tag) -> (r: String)
    ensures
        r@ == (match picture_text(last_picture(tag@.frames)) {
            Some(text) => text,
            None => Seq::<char>::empty(),
        }),
{
    match cover_picture(&tag.frames) {
        Some(data) => match encode_picture(data.as_slice()) {
            Some(text) => text,
            None => String::new(),
        },
        None => String::new(),
    }
}

/// The source of an image for a picture in base64, or `None` where there is
/// no picture to show.
pub fn image_source(picture: &str) -> (r: Option<String>)
    ensures
        match r {
            Some(source) => picture@.len() > 0 && source@ == image_prefix() + picture@,
            None => picture@.len() == 0,
        },
{
    if picture.is_empty() {
        None
    } else {
        let mut source: String = String::from_str("data:image/png;base64,");
        source.append(picture);
        Some(source)
    }
}

/// The title of a chapter: the text of its last `TIT2` frame.
fn chapter_title(frames: &Vec<Frame>) -> (r: String)
    ensures
        r@ == last_title(frames.deep_view()),
{
    let ghost all = frames.deep_view();
    let mut title: String = String::new();
    let mut i: usize = 0;
    proof {
        reveal_strlit("TIT2");
        assert("TIT2"@ =~= id_tit2());
        assert(all.take(0) =~= Seq::<FrameView>::empty());
    }
    while i < frames.len()
        invariant
            i <= frames@.len(),
            all == frames.deep_view(),
            "TIT2"@ == id_tit2(),
            title@ == last_title(all.take(i as int)),
        decreases frames@.len() - i,
    {
        let f: &Frame = &frames[i];
        proof {
            assert(all[i as int] == f@);
            assert(all.take(i + 1).drop_last() =~= all.take(i as int));
            assert(all.take(i + 1).last() == f@);
        }
        match f {
            Frame::TextFrame { id, text } => {
                if str_eq(id.as_str(), "TIT2") {
                    title = text.clone();
                }
            },
            _ => {},
        }
        i = i + 1;
    }
    assert(all.take(all.len() as int) =~= all);
    title
}

/// The link of a chapter: the address of its last link frame.
fn chapter_link(frames: &Vec<Frame>) -> (r: Option<String>)
    ensures
        option_text(r) == last_link(frames.deep_view()),
{
    let ghost all = frames.deep_view();
    let mut link: Option<String> = None;
    let mut i: usize = 0;
    assert(all.take(0) =~= Seq::<FrameView>::empty());
    while i < frames.len()
        invariant
            i <= frames@.len(),
            all == frames.deep_view(),
            option_text(link) == last_link(all.take(i as int)),
        decreases frames@.len() - i,
    {
        let f: &Frame = &frames[i];
        proof {
            assert(all[i as int] == f@);
            assert(all.take(i + 1).drop_last() =~= all.take(i as int));
            assert(all.take(i + 1).last() == f@);
        }
        match f {
            Frame::LinkFrame { url, .. } => {
                link = Some(url.clone());
            },
            _ => {},
        }
        i = i + 1;
    }
    assert(all.take(all.len() as int) =~= all);
    link
}

/// What a display shows of a chapter.
pub fn summarize_chapter(c: &Chapter) -> (r: ChapterSummary)
    ensures
        r@ == spec_summary(c@),
{
    let picture: Option<String> = match cover_picture(&c.sub_frames) {
        Some(data) => encode_picture(data.as_slice()),
        None => None,
    };
    ChapterSummary {
        element_id: c.element_id.clone(),
        title: chapter_title(&c.sub_frames),
        link: chapter_link(&c.sub_frames),
        picture,
        start_seconds: c.start_time_ms / 1000,
        end_seconds: c.end_time_ms / 1000,
    }
}

/// What a display shows of the chapters of a tag, in their order.
pub fn chapter_summaries(tag: &Tag) -> (r: Vec<ChapterSummary>)
    ensures
        r@.len() == tag@.chapters.len(),
        forall|i: int| 0 <= i < r@.len() ==> (#[trigger] r@[i])@ == spec_summary(tag@.chapters[i]),
{
    let mut out: Vec<ChapterSummary> = Vec::new();
    let mut i: usize = 0;
    while i < tag.chapters.len()
        invariant
            i <= tag.chapters@.len(),
            out@.len() == i,
            forall|j: int| 0 <= j < i ==> (#[trigger] out@[j])@ == spec_summary(tag@.chapters[j]),
        decreases tag.chapters@.len() - i,
    {
        let summary: ChapterSummary = summarize_chapter(&tag.chapters[i]);
        assert(tag@.chapters[i as int] == tag.chapters@[i as int]@);
        out.push(summary);
        i = i + 1;
    }
    out
}

} // verus!
