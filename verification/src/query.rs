//! Looking things up in a tag: the first frame with an identifier, the
//! chapter with an element identifier, the pictures, and the filtered list
//! of frames that a display works from.

use crate::frame::{Frame, FrameView};
use crate::strings::str_eq;
use crate::tag::{Chapter, ChapterView, Tag};
use vstd::prelude::*;

verus! {

/// The identifiers that a list names.
pub open spec fn id_set(ids: Seq<&str>) -> Set<Seq<char>> {
    Set::new(|s: Seq<char>| exists|i: int| 0 <= i < ids.len() && #[trigger] ids[i]@ == s)
}

/// The frames whose identifier is not among `excluded`, in their order.
pub open spec fn spec_frames_excluding(frames: Seq<FrameView>, excluded: Set<Seq<char>>) -> Seq<
    FrameView,
> {
    frames.filter(|f: FrameView| !excluded.contains(f.id()))
}

/// The picture frames, in their order.
pub open spec fn spec_pictures(frames: Seq<FrameView>) -> Seq<FrameView> {
    frames.filter(|f: FrameView| f is PictureFrame)
}

/// The first frame with the identifier `id`, if there is one.
pub open spec fn spec_find_frame(frames: Seq<FrameView>, id: Seq<char>) -> Option<FrameView> {
    let found = frames.filter(|f: FrameView| f.id() == id);
    if found.len() > 0 {
        Some(found[0])
    } else {
        None
    }
}

/// The first chapter with the element identifier `element_id`, if there is
/// one.
pub open spec fn spec_find_chapter(chapters: Seq<ChapterView>, element_id: Seq<char>) -> Option<
    ChapterView,
> {
    let found = chapters.filter(|c: ChapterView| c.element_id == element_id);
    if found.len() > 0 {
        Some(found[0])
    } else {
        None
    }
}

/// The first frame of the tag with the identifier `frame_id`.
pub fn find_frame<'a>(tag: &'a Tag, frame_id: &str) -> (r: Option<&'a Frame>)
    ensures
        match r {
            Some(f) => spec_find_frame(tag@.frames, frame_id@) == Some(f@),
            None => spec_find_frame(tag@.frames, frame_id@) is None,
        },
{
    let ghost all = tag@.frames;
    let ghost wanted = |f: FrameView| f.id() == frame_id@;
    let mut i: usize = 0;
    proof {
        reveal(Seq::filter);
        assert(all.take(0) =~= Seq::<FrameView>::empty());
    }
    while i < tag.frames.len()
        invariant
            i <= tag.frames@.len(),
            all == tag@.frames,
            wanted == (|f: FrameView| f.id() == frame_id@),
            all.take(i as int).filter(wanted).len() == 0,
        decreases tag.frames@.len() - i,
    {
        let f: &'a Frame = &tag.frames[i];
        proof {
            assert(all[i as int] == f@);
            assert(all.take(i + 1) =~= all.take(i as int).push(f@));
            all.take(i as int).lemma_filter_push(f@, wanted);
        }
        if str_eq(f.id(), frame_id) {
            proof {
                assert(all =~= all.take(i + 1) + all.skip(i + 1));
                Seq::filter_distributes_over_add(all.take(i + 1), all.skip(i + 1), wanted);
                assert(all.take(i + 1).filter(wanted) =~= seq![f@]);
            }
            return Some(f);
        }
        i = i + 1;
    }
    assert(all.take(all.len() as int) =~= all);
    None
}

/// The first chapter of the tag with the element identifier `element_id`.
pub fn find_chapter<'a>(tag: &'a Tag, element_id: &str) -> (r: Option<&'a Chapter>)
    ensures
        match r {
            Some(c) => spec_find_chapter(tag@.chapters, element_id@) == Some(c@),
            None => spec_find_chapter(tag@.chapters, element_id@) is None,
        },
{
    let ghost all = tag@.chapters;
    let ghost wanted = |c: ChapterView| c.element_id == element_id@;
    let mut i: usize = 0;
    proof {
        reveal(Seq::filter);
        assert(all.take(0) =~= Seq::<ChapterView>::empty());
    }
    while i < tag.chapters.len()
        invariant
            i <= tag.chapters@.len(),
            all == tag@.chapters,
            wanted == (|c: ChapterView| c.element_id == element_id@),
            all.take(i as int).filter(wanted).len() == 0,
        decreases tag.chapters@.len() - i,
    {
        let c: &'a Chapter = &tag.chapters[i];
        proof {
            assert(all[i as int] == c@);
            assert(all.take(i + 1) =~= all.take(i as int).push(c@));
            all.take(i as int).lemma_filter_push(c@, wanted);
        }
        if str_eq(c.element_id.as_str(), element_id) {
            proof {
                assert(all =~= all.take(i + 1) + all.skip(i + 1));
                Seq::filter_distributes_over_add(all.take(i + 1), all.skip(i + 1), wanted);
                assert(all.take(i + 1).filter(wanted) =~= seq![c@]);
            }
            return Some(c);
        }
        i = i + 1;
    }
    assert(all.take(all.len() as int) =~= all);
    None
}

/// Whether `id` is one of `ids`.
fn is_listed(id: &str, ids: &[&str]) -> (r: bool)
    ensures
        r == id_set(ids@).contains(id@),
{
    let mut i: usize = 0;
    while i < ids.len()
        invariant
            i <= ids@.len(),
            forall|j: int| 0 <= j < i ==> #[trigger] ids@[j]@ != id@,
        decreases ids@.len() - i,
    {
        if str_eq(ids[i], id) {
            return true;
        }
        i = i + 1;
    }
    false
}

/// The frames of the tag whose identifier is not among `excluded_ids`, in the
/// order the tag holds them.
pub fn frames_excluding<'a>(tag: &'a Tag, excluded_ids: &[&str]) -> (r: Vec<&'a Frame>)
    ensures
        r.deep_view() == spec_frames_excluding(tag@.frames, id_set(excluded_ids@)),
{
    let ghost keep = |f: FrameView| !id_set(excluded_ids@).contains(f.id());
    let ghost all = tag@.frames;
    let mut out: Vec<&'a Frame> = Vec::new();
    let mut i: usize = 0;
    proof {
        reveal(Seq::filter);
        assert(all.take(0) =~= Seq::empty());
        assert(out.deep_view() =~= all.take(0).filter(keep));
    }
    while i < tag.frames.len()
        invariant
            i <= tag.frames@.len(),
            all == tag@.frames,
            keep == (|f: FrameView| !id_set(excluded_ids@).contains(f.id())),
            out.deep_view() == all.take(i as int).filter(keep),
        decreases tag.frames@.len() - i,
    {
        let f: &'a Frame = &tag.frames[i];
        let ghost shown = out.deep_view();
        proof {
            assert(all.take(i + 1) =~= all.take(i as int).push(f@));
            all.take(i as int).lemma_filter_push(f@, keep);
        }
        if !is_listed(f.id(), excluded_ids) {
            out.push(f);
            assert(out.deep_view() =~= shown.push(f@));
        }
        i = i + 1;
    }
    assert(all.take(all.len() as int) =~= all);
    out
}

/// The picture frames of the tag, in the order the tag holds them.
pub fn pictures<'a>(tag: &'a Tag) -> (r: Vec<&'a Frame>)
    ensures
        r.deep_view() == spec_pictures(tag@.frames),
{
    let ghost keep = |f: FrameView| f is PictureFrame;
    let ghost all = tag@.frames;
    let mut out: Vec<&'a Frame> = Vec::new();
    let mut i: usize = 0;
    proof {
        reveal(Seq::filter);
        assert(all.take(0) =~= Seq::empty());
        assert(out.deep_view() =~= all.take(0).filter(keep));
    }
    while i < tag.frames.len()
        invariant
            i <= tag.frames@.len(),
            all == tag@.frames,
            keep == (|f: FrameView| f is PictureFrame),
            out.deep_view() == all.take(i as int).filter(keep),
        decreases tag.frames@.len() - i,
    {
        let f: &'a Frame = &tag.frames[i];
        let ghost shown = out.deep_view();
        proof {
            assert(all.take(i + 1) =~= all.take(i as int).push(f@));
            all.take(i as int).lemma_filter_push(f@, keep);
        }
        let is_picture: bool = match f {
            Frame::PictureFrame { .. } => true,
            _ => false,
        };
        if is_picture {
            out.push(f);
            assert(out.deep_view() =~= shown.push(f@));
        }
        i = i + 1;
    }
    assert(all.take(all.len() as int) =~= all);
    out
}

} // verus!
