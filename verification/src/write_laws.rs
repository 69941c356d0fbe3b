//! Laws of writing: frames, chapters and names written one after another
//! are written run by run, and a frame is longer than its body.

use crate::frame::{FrameView, Version};
use crate::tag::ChapterView;
use crate::text::latin1_encode;
use crate::write_spec::{
    chapter_bytes, chapters_bytes, frame_bytes, framed, frames_bytes, names_bytes,
};
use vstd::prelude::*;

verus! {

/// Frames written one after another are the first run, then the second.
pub proof fn lemma_frames_bytes_add(a: Seq<FrameView>, b: Seq<FrameView>, v: Version)
    ensures
        frames_bytes(a + b, v) == frames_bytes(a, v) + frames_bytes(b, v),
    decreases a.len(),
{
    if a.len() == 0 {
        assert(a + b =~= b);
        assert(frames_bytes(a, v) + frames_bytes(b, v) =~= frames_bytes(b, v));
    } else {
        assert((a + b).skip(1) =~= a.skip(1) + b);
        lemma_frames_bytes_add(a.skip(1), b, v);
        assert(frames_bytes(a + b, v) =~= frame_bytes(a[0], v) + (frames_bytes(a.skip(1), v)
            + frames_bytes(b, v)));
        assert(frames_bytes(a, v) + frames_bytes(b, v) =~= frame_bytes(a[0], v) + (frames_bytes(
            a.skip(1),
            v,
        ) + frames_bytes(b, v)));
    }
}

/// Chapters written one after another are the first run, then the second.
pub proof fn lemma_chapters_bytes_add(a: Seq<ChapterView>, b: Seq<ChapterView>, v: Version)
    ensures
        chapters_bytes(a + b, v) == chapters_bytes(a, v) + chapters_bytes(b, v),
    decreases a.len(),
{
    if a.len() == 0 {
        assert(a + b =~= b);
        assert(chapters_bytes(a, v) + chapters_bytes(b, v) =~= chapters_bytes(b, v));
    } else {
        assert((a + b).skip(1) =~= a.skip(1) + b);
        lemma_chapters_bytes_add(a.skip(1), b, v);
        assert(chapters_bytes(a + b, v) =~= chapter_bytes(a[0], v) + (chapters_bytes(
            a.skip(1),
            v,
        ) + chapters_bytes(b, v)));
        assert(chapters_bytes(a, v) + chapters_bytes(b, v) =~= chapter_bytes(a[0], v) + (
        chapters_bytes(a.skip(1), v) + chapters_bytes(b, v)));
    }
}

/// Names written one after another are the first run, then the second.
pub proof fn lemma_names_bytes_add(a: Seq<Seq<char>>, b: Seq<Seq<char>>)
    ensures
        names_bytes(a + b) == names_bytes(a) + names_bytes(b),
    decreases a.len(),
{
    if a.len() == 0 {
        assert(a + b =~= b);
        assert(names_bytes(a) + names_bytes(b) =~= names_bytes(b));
    } else {
        assert((a + b).skip(1) =~= a.skip(1) + b);
        lemma_names_bytes_add(a.skip(1), b);
        let head = latin1_encode(a[0]) + seq![0u8];
        assert(names_bytes(a + b) =~= head + (names_bytes(a.skip(1)) + names_bytes(b)));
        assert(names_bytes(a) + names_bytes(b) =~= head + (names_bytes(a.skip(1)) + names_bytes(
            b,
        )));
    }
}

/// A single frame written as a run of frames.
pub proof fn lemma_frames_bytes_one(f: FrameView, v: Version)
    ensures
        frames_bytes(seq![f], v) == frame_bytes(f, v),
{
    assert(seq![f].skip(1) =~= Seq::<FrameView>::empty());
    assert(frames_bytes(Seq::<FrameView>::empty(), v) =~= Seq::<u8>::empty());
    assert(frames_bytes(seq![f], v) =~= frame_bytes(f, v) + Seq::<u8>::empty());
    assert(frame_bytes(f, v) + Seq::<u8>::empty() =~= frame_bytes(f, v));
}

/// A single chapter written as a run of chapters.
pub proof fn lemma_chapters_bytes_one(c: ChapterView, v: Version)
    ensures
        chapters_bytes(seq![c], v) == chapter_bytes(c, v),
{
    assert(seq![c].skip(1) =~= Seq::<ChapterView>::empty());
    assert(chapters_bytes(Seq::<ChapterView>::empty(), v) =~= Seq::<u8>::empty());
    assert(chapters_bytes(seq![c], v) =~= chapter_bytes(c, v) + Seq::<u8>::empty());
    assert(chapter_bytes(c, v) + Seq::<u8>::empty() =~= chapter_bytes(c, v));
}

/// A single name written as a run of names.
pub proof fn lemma_names_bytes_one(name: Seq<char>)
    ensures
        names_bytes(seq![name]) == latin1_encode(name) + seq![0u8],
{
    assert(seq![name].skip(1) =~= Seq::<Seq<char>>::empty());
    assert(names_bytes(Seq::<Seq<char>>::empty()) =~= Seq::<u8>::empty());
    assert(names_bytes(seq![name]) =~= latin1_encode(name) + seq![0u8]
        + Seq::<u8>::empty());
}

/// A frame is written in more bytes than its body has.
pub proof fn lemma_framed_len(id: Seq<char>, body: Seq<u8>, v: Version)
    ensures
        framed(id, body, v).len() >= body.len(),
{
    reveal(framed);
}

} // verus!
