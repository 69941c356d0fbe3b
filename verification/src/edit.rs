//! Editing a tag: setting a text field, adding a frame, taking frames out,
//! and starting afresh.

use crate::frame::{frame_ok, id_ok, text_ok, Frame, FrameView};
use crate::layout::is_text_id;
use crate::strings::str_eq;
use crate::tag::{tag_ok, Tag, TagView};
use vstd::prelude::*;

verus! {

/// Whether `f` is a text frame with the identifier `id`.
pub open spec fn is_text_with_id(f: FrameView, id: Seq<char>) -> bool {
    f matches FrameView::TextFrame { id: own, .. } && own == id
}

/// Whether `i` is the place of the first text frame with the identifier `id`.
pub open spec fn is_first_text_frame(frames: Seq<FrameView>, id: Seq<char>, i: int) -> bool {
    &&& 0 <= i < frames.len()
    &&& is_text_with_id(frames[i], id)
    &&& forall|j: int| 0 <= j < i ==> !is_text_with_id(#[trigger] frames[j], id)
}

/// The place of the first text frame with the identifier `id`, if there is
/// one.
pub open spec fn first_text_frame(frames: Seq<FrameView>, id: Seq<char>) -> Option<int> {
    if exists|i: int| is_first_text_frame(frames, id, i) {
        Some(choose|i: int| is_first_text_frame(frames, id, i))
    } else {
        None
    }
}

/// The tag after `set_text`: the first text frame with the identifier `id`
/// holds `value`, or, where there was none, a new text frame stands at the end.
pub open spec fn spec_set_text(t: TagView, id: Seq<char>, value: Seq<char>) -> TagView {
    let frame = FrameView::TextFrame { id, text: value };
    match first_text_frame(t.frames, id) {
        Some(i) => TagView { frames: t.frames.update(i, frame), ..t },
        None => TagView { frames: t.frames.push(frame), ..t },
    }
}

/// The tag after `add_frame`: one more frame at the end.
pub open spec fn spec_add_frame(t: TagView, f: FrameView) -> TagView {
    TagView { frames: t.frames.push(f), ..t }
}

/// There is at most one first text frame, and `first_text_frame` names it.
pub proof fn lemma_first_text_frame(frames: Seq<FrameView>, id: Seq<char>, i: int)
    requires
        is_first_text_frame(frames, id, i),
    ensures
        first_text_frame(frames, id) == Some(i),
{
    let k = choose|k: int| is_first_text_frame(frames, id, k);
    if k < i {
        assert(!is_text_with_id(frames[k], id));
    }
    if i < k {
        assert(!is_text_with_id(frames[i], id));
    }
}

/// Where no frame is a text frame with the identifier, there is no first one.
pub proof fn lemma_no_text_frame(frames: Seq<FrameView>, id: Seq<char>)
    requires
        forall|j: int| 0 <= j < frames.len() ==> !is_text_with_id(#[trigger] frames[j], id),
    ensures
        first_text_frame(frames, id) is None,
{
}

/// Setting a text field twice to one value changes nothing the second time.
pub proof fn lemma_set_text_idempotent(t: TagView, id: Seq<char>, value: Seq<char>)
    ensures
        spec_set_text(spec_set_text(t, id, value), id, value) == spec_set_text(t, id, value),
{
    let frame = FrameView::TextFrame { id, text: value };
    let once = spec_set_text(t, id, value);
    match first_text_frame(t.frames, id) {
        Some(i) => {
            assert(is_first_text_frame(t.frames, id, i));
            assert forall|j: int| 0 <= j < i implies !is_text_with_id(
                #[trigger] once.frames[j],
                id,
            ) by {
                assert(once.frames[j] == t.frames[j]);
            }
            lemma_first_text_frame(once.frames, id, i);
            assert(once.frames.update(i, frame) =~= once.frames);
        },
        None => {
            let n = t.frames.len() as int;
            assert forall|j: int| 0 <= j < n implies !is_text_with_id(
                #[trigger] once.frames[j],
                id,
            ) by {
                assert(once.frames[j] == t.frames[j]);
                if is_text_with_id(t.frames[j], id) {
                    lemma_some_text_frame(t.frames, id, j);
                }
            }
            lemma_first_text_frame(once.frames, id, n);
            assert(once.frames.update(n, frame) =~= once.frames);
        },
    }
}

/// Where some frame is a text frame with the identifier, there is a first one.
pub proof fn lemma_some_text_frame(frames: Seq<FrameView>, id: Seq<char>, j: int)
    requires
        0 <= j < frames.len(),
        is_text_with_id(frames[j], id),
    ensures
        first_text_frame(frames, id) is Some,
    decreases j,
{
    if exists|k: int| 0 <= k < j && is_text_with_id(#[trigger] frames[k], id) {
        let k = choose|k: int| 0 <= k < j && is_text_with_id(#[trigger] frames[k], id);
        lemma_some_text_frame(frames, id, k);
    } else {
        assert(is_first_text_frame(frames, id, j));
    }
}

/// A tag that keeps to the model still does so with one more frame that
/// keeps to it.
pub proof fn lemma_add_frame_keeps_ok(t: TagView, f: FrameView)
    requires
        tag_ok(t),
        frame_ok(f, false),
    ensures
        tag_ok(spec_add_frame(t, f)),
{
    let after = spec_add_frame(t, f);
    assert forall|i: int| 0 <= i < after.frames.len() implies frame_ok(
        #[trigger] after.frames[i],
        false,
    ) by {
        if i < t.frames.len() {
            assert(after.frames[i] == t.frames[i]);
        }
    }
}

/// A tag that keeps to the model still does so after a text field was set,
/// where the identifier is that of a text frame and the text does not end
/// in NUL.
pub proof fn lemma_set_text_keeps_ok(t: TagView, id: Seq<char>, value: Seq<char>)
    requires
        tag_ok(t),
        id_ok(id),
        is_text_id(id),
        text_ok(value),
    ensures
        tag_ok(spec_set_text(t, id, value)),
{
    let after = spec_set_text(t, id, value);
    let frame = FrameView::TextFrame { id, text: value };
    assert(frame_ok(frame, false)) by {
        reveal(frame_ok);
    }
    match first_text_frame(t.frames, id) {
        Some(k) => {
            assert(is_first_text_frame(t.frames, id, k));
            assert forall|i: int| 0 <= i < after.frames.len() implies frame_ok(
                #[trigger] after.frames[i],
                false,
            ) by {
                if i != k {
                    assert(after.frames[i] == t.frames[i]);
                }
            }
        },
        None => {
            lemma_add_frame_keeps_ok(t, frame);
        },
    }
}

/// Sets the text field with the identifier `frame_id` to `value`: the first
/// text frame with that identifier gets the new text, and where the tag has
/// none, a new text frame is added at the end.
pub fn set_text(tag: &mut Tag, frame_id: &str, value: &str)
    ensures
        final(tag)@ == spec_set_text(old(tag)@, frame_id@, value@),
{
    let ghost before = tag@;
    let n: usize = tag.frames.len();
    let mut i: usize = 0;
    while i < n
        invariant
            i <= n,
            n == tag.frames@.len(),
            tag@ == before,
            before == old(tag)@,
            forall|j: int| 0 <= j < i ==> !is_text_with_id(#[trigger] before.frames[j], frame_id@),
        decreases n - i,
    {
        let found: bool = match &tag.frames[i] {
            Frame::TextFrame { id, .. } => str_eq(id.as_str(), frame_id),
            _ => false,
        };
        assert(found == is_text_with_id(before.frames[i as int], frame_id@));
        if found {
            let frame = Frame::TextFrame { id: frame_id.to_owned(), text: value.to_owned() };
            tag.frames.set(i, frame);
            proof {
                lemma_first_text_frame(before.frames, frame_id@, i as int);
                assert(tag@.frames =~= before.frames.update(
                    i as int,
                    FrameView::TextFrame { id: frame_id@, text: value@ },
                ));
            }
            return ;
        }
        i = i + 1;
    }
    let frame = Frame::TextFrame { id: frame_id.to_owned(), text: value.to_owned() };
    tag.frames.push(frame);
    proof {
        lemma_no_text_frame(before.frames, frame_id@);
        assert(tag@.frames =~= before.frames.push(
            FrameView::TextFrame { id: frame_id@, text: value@ },
        ));
    }
}

/// Adds `frame` at the end of the tag's frames, whatever the tag holds
/// already.
pub fn add_frame(tag: &mut Tag, frame: Frame)
    ensures
        final(tag)@ == spec_add_frame(old(tag)@, frame@),
{
    let ghost before = tag@;
    tag.frames.push(frame);
    assert(tag@.frames =~= before.frames.push(frame@));
}

/// The frames with the identifier `id`, in their order.
pub open spec fn frames_with_id(frames: Seq<FrameView>, id: Seq<char>) -> Seq<FrameView> {
    frames.filter(|f: FrameView| f.id() == id)
}

/// The frames with another identifier than `id`, in their order.
pub open spec fn frames_without_id(frames: Seq<FrameView>, id: Seq<char>) -> Seq<FrameView> {
    frames.filter(|f: FrameView| f.id() != id)
}

/// Takes every frame with the identifier `frame_id` out of the tag and
/// hands them back in their order. The other frames keep theirs.
pub fn remove_frames(tag: &mut Tag, frame_id: &str) -> (removed: Vec<Frame>)
    ensures
        removed.deep_view() == frames_with_id(old(tag)@.frames, frame_id@),
        final(tag)@ == (TagView {
            frames: frames_without_id(old(tag)@.frames, frame_id@),
            ..old(tag)@
        }),
{
    let ghost before = tag@;
    let ghost all = before.frames;
    let ghost gone = |f: FrameView| f.id() == frame_id@;
    let ghost kept = |f: FrameView| f.id() != frame_id@;
    let mut removed: Vec<Frame> = Vec::new();
    let mut i: usize = 0;
    let ghost mut seen: int = 0;
    proof {
        reveal(Seq::filter);
        assert(all.take(0) =~= Seq::<FrameView>::empty());
        assert(all.skip(0) =~= all);
        assert(removed.deep_view() =~= all.take(0).filter(gone));
        assert(tag@.frames =~= all.take(0).filter(kept) + all.skip(0));
    }
    while i < tag.frames.len()
        invariant
            before == old(tag)@,
            all == before.frames,
            gone == (|f: FrameView| f.id() == frame_id@),
            kept == (|f: FrameView| f.id() != frame_id@),
            0 <= seen <= all.len(),
            i == all.take(seen).filter(kept).len(),
            tag@.frames == all.take(seen).filter(kept) + all.skip(seen),
            removed.deep_view() == all.take(seen).filter(gone),
            tag@.chapters == before.chapters,
            tag@.version == before.version,
        decreases all.len() - seen,
    {
        let ghost frames_now = tag@.frames;
        let ghost removed_now = removed.deep_view();
        proof {
            assert(frames_now[i as int] == all.skip(seen)[0]);
            assert(all.take(seen + 1) =~= all.take(seen).push(all[seen]));
            all.take(seen).lemma_filter_push(all[seen], kept);
            all.take(seen).lemma_filter_push(all[seen], gone);
            assert(all.skip(seen).skip(1) =~= all.skip(seen + 1));
        }
        if str_eq(tag.frames[i].id(), frame_id) {
            let f: Frame = tag.frames.remove(i);
            removed.push(f);
            proof {
                assert(tag@.frames =~= frames_now.remove(i as int));
                assert(frames_now.remove(i as int) =~= all.take(seen).filter(kept) + all.skip(
                    seen + 1,
                ));
                assert(removed.deep_view() =~= removed_now.push(all[seen]));
            }
        } else {
            proof {
                assert(frames_now =~= all.take(seen).filter(kept).push(all[seen]) + all.skip(
                    seen + 1,
                ));
            }
            i = i + 1;
        }
        proof {
            seen = seen + 1;
        }
    }
    proof {
        assert(seen == all.len()) by {
            assert(tag@.frames.len() == i);
        }
        assert(all.take(all.len() as int) =~= all);
        assert(all.skip(all.len() as int) =~= Seq::<FrameView>::empty());
        assert(tag@.frames =~= all.filter(kept));
    }
    removed
}

/// A tag to start afresh with: version 2.4, no frame, no chapter. The tag
/// handed in stays as it is.
pub fn clear(tag: &Tag) -> (fresh: Tag)
    ensures
        fresh@ == TagView::empty(),
        tag_ok(fresh@),
{
    Tag::new()
}

} // verus!
