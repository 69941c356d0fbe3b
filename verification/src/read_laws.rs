//! Laws of reading: a size that runs past the end of what is there makes the
//! reading fail, in the tag, in a chapter and in a table of contents.

use crate::error::DecodeError;
use crate::frame::Version;
use crate::layout::{
    ascii_id, declared_size, has_marker, id_chap, id_ctoc, id_of, is_padding, split_frames,
    version_of, RawFrame, HEADER_LEN,
};
use crate::read_spec::{
    declared_tag_size, read_chapter, read_frame, read_frames, read_items, read_terminated,
    read_toc_body, read_toc_fields, spec_decode,
};
use crate::tag::TagView;
use crate::text::LATIN1;
use vstd::prelude::*;

verus! {

/// Whether a frame starts at the offset `p` of `b`: frames stand one behind
/// another from the start of `b` up to `p`.
pub open spec fn frame_starts_at(b: Seq<u8>, v: Version, p: int) -> bool
    decreases b.len(),
{
    if p == 0 {
        true
    } else if b.len() < HEADER_LEN || is_padding(b) {
        false
    } else {
        let size = declared_size(b.subrange(4, 8), v);
        &&& ascii_id(b.subrange(0, 4))
        &&& HEADER_LEN + size <= p
        &&& p <= b.len()
        &&& frame_starts_at(b.skip(HEADER_LEN + size), v, p - (HEADER_LEN + size))
    }
}

/// Whether the header at the offset `p` of `b` is that of a frame and
/// declares more bytes than are left behind it.
pub open spec fn overruns(b: Seq<u8>, v: Version, p: int) -> bool {
    let rest = b.skip(p);
    &&& 0 <= p <= b.len()
    &&& rest.len() >= HEADER_LEN
    &&& !is_padding(rest)
    &&& HEADER_LEN + declared_size(rest.subrange(4, 8), v) > rest.len()
}

/// A frame that declares more bytes than are left makes the cutting fail.
pub proof fn lemma_overrun_fails(b: Seq<u8>, v: Version, p: int)
    requires
        frame_starts_at(b, v, p),
        overruns(b, v, p),
    ensures
        split_frames(b, v) is None,
    decreases b.len(),
{
    if p == 0 {
        assert(b.skip(0) =~= b);
    } else {
        let step = HEADER_LEN + declared_size(b.subrange(4, 8), v);
        assert(b.skip(step).skip(p - step) =~= b.skip(p));
        lemma_overrun_fails(b.skip(step), v, p - step);
    }
}

/// A tag that declares more bytes than the file has is `Truncated`.
pub proof fn lemma_tag_overrun(file: Seq<u8>)
    requires
        has_marker(file),
        file.len() >= HEADER_LEN,
        version_of(file[3]) is Some,
        HEADER_LEN + declared_tag_size(file) > file.len(),
    ensures
        spec_decode(file) == Err::<TagView, DecodeError>(DecodeError::Truncated),
{
}

/// A frame of the tag that declares more bytes than the tag has left behind
/// it is `Truncated`. `p` is where the frame starts, counted from the end
/// of the tag's header.
pub proof fn lemma_frame_overrun(file: Seq<u8>, p: int)
    requires
        has_marker(file),
        file.len() >= HEADER_LEN,
        version_of(file[3]) is Some,
        HEADER_LEN + declared_tag_size(file) <= file.len(),
        frame_starts_at(
            file.subrange(HEADER_LEN as int, HEADER_LEN + declared_tag_size(file)),
            version_of(file[3]).unwrap(),
            p,
        ),
        overruns(
            file.subrange(HEADER_LEN as int, HEADER_LEN + declared_tag_size(file)),
            version_of(file[3]).unwrap(),
            p,
        ),
    ensures
        spec_decode(file) == Err::<TagView, DecodeError>(DecodeError::Truncated),
{
    lemma_overrun_fails(
        file.subrange(HEADER_LEN as int, HEADER_LEN + declared_tag_size(file)),
        version_of(file[3]).unwrap(),
        p,
    );
}

/// A frame inside a chapter that declares more bytes than the chapter has
/// left behind it makes the chapter unreadable. `p` is where the frame
/// starts, counted from the end of the chapter's byte offsets.
pub proof fn lemma_chapter_overrun(body: Seq<u8>, v: Version, p: int)
    requires
        read_terminated(body, LATIN1) matches Some((_, rest)) && rest.len() >= 16
            && frame_starts_at(rest.skip(16), v, p) && overruns(rest.skip(16), v, p),
    ensures
        read_chapter(body, v) is None,
{
    reveal(read_chapter);
    let rest = read_terminated(body, LATIN1).unwrap().1;
    lemma_overrun_fails(rest.skip(16), v, p);
}

/// A frame inside a table of contents that declares more bytes than the
/// table has left behind it makes the table unreadable. `p` is where the
/// frame starts, counted from the end of the table's entries.
pub proof fn lemma_toc_overrun(body: Seq<u8>, v: Version, p: int)
    requires
        read_toc_fields(body) matches Some(fields) && frame_starts_at(fields.3, v, p)
            && overruns(fields.3, v, p),
    ensures
        read_toc_body(body, v) is None,
        read_frame(id_ctoc(), body, v) is None,
{
    lemma_overrun_fails(read_toc_fields(body).unwrap().3, v, p);
}

/// One frame that cannot be read makes the run of frames it stands in
/// unreadable, and with it the chapter or the table of contents around it.
pub proof fn lemma_unreadable_frame_fails(raws: Seq<RawFrame>, v: Version, i: int)
    requires
        0 <= i < raws.len(),
        read_frame(id_of(raws[i].id), raws[i].body, v) is None,
    ensures
        read_frames(raws, v) is None,
    decreases i,
{
    if i > 0 {
        assert(raws.skip(1)[i - 1] == raws[i]);
        lemma_unreadable_frame_fails(raws.skip(1), v, i - 1);
    }
}

/// Whether a raw frame of the tag cannot be read: as a chapter where its
/// identifier is `CHAP`, as a frame where it is not.
pub open spec fn unreadable(raw: RawFrame, v: Version) -> bool {
    if id_of(raw.id) == id_chap() {
        read_chapter(raw.body, v) is None
    } else {
        read_frame(id_of(raw.id), raw.body, v) is None
    }
}

/// One frame or chapter that cannot be read makes the reading of the tag
/// fail.
pub proof fn lemma_unreadable_fails(raws: Seq<RawFrame>, v: Version, i: int)
    requires
        0 <= i < raws.len(),
        unreadable(raws[i], v),
    ensures
        read_items(raws, v) is None,
    decreases raws.len(),
{
    if i > 0 {
        assert(raws.skip(1)[i - 1] == raws[i]);
        lemma_unreadable_fails(raws.skip(1), v, i - 1);
    }
}

/// A file whose tag holds a frame or chapter that cannot be read is
/// `Truncated`.
pub proof fn lemma_unreadable_is_truncated(file: Seq<u8>, i: int)
    requires
        has_marker(file),
        file.len() >= HEADER_LEN,
        version_of(file[3]) is Some,
        HEADER_LEN + declared_tag_size(file) <= file.len(),
        split_frames(
            file.subrange(HEADER_LEN as int, HEADER_LEN + declared_tag_size(file)),
            version_of(file[3]).unwrap(),
        ) matches Some(raws) && 0 <= i < raws.len() && unreadable(
            raws[i],
            version_of(file[3]).unwrap(),
        ),
    ensures
        spec_decode(file) == Err::<TagView, DecodeError>(DecodeError::Truncated),
{
    let v = version_of(file[3]).unwrap();
    let raws = split_frames(
        file.subrange(HEADER_LEN as int, HEADER_LEN + declared_tag_size(file)),
        v,
    ).unwrap();
    lemma_unreadable_fails(raws, v, i);
}

/// The raw frames of the tag of a file whose header can be read.
pub open spec fn frames_of(file: Seq<u8>) -> Option<Seq<RawFrame>> {
    split_frames(
        file.subrange(HEADER_LEN as int, HEADER_LEN + declared_tag_size(file)),
        version_of(file[3]).unwrap(),
    )
}

/// A file whose tag holds a table of contents with a frame that declares
/// more bytes than the table has left behind it is `Truncated`. `i` is the
/// place of the table among the frames of the tag, `p` where the frame
/// starts, counted from the end of the table's entries.
pub proof fn lemma_toc_frame_overrun(file: Seq<u8>, i: int, p: int)
    requires
        has_marker(file),
        file.len() >= HEADER_LEN,
        version_of(file[3]) is Some,
        HEADER_LEN + declared_tag_size(file) <= file.len(),
        frames_of(file) is Some,
        0 <= i < frames_of(file).unwrap().len(),
        id_of(frames_of(file).unwrap()[i].id) == id_ctoc(),
        read_toc_fields(frames_of(file).unwrap()[i].body) is Some,
        frame_starts_at(
            read_toc_fields(frames_of(file).unwrap()[i].body).unwrap().3,
            version_of(file[3]).unwrap(),
            p,
        ),
        overruns(
            read_toc_fields(frames_of(file).unwrap()[i].body).unwrap().3,
            version_of(file[3]).unwrap(),
            p,
        ),
    ensures
        spec_decode(file) == Err::<TagView, DecodeError>(DecodeError::Truncated),
{
    let v = version_of(file[3]).unwrap();
    let raws = frames_of(file).unwrap();
    lemma_toc_overrun(raws[i].body, v, p);
    assert(id_ctoc()[1] == 'T' && id_chap()[1] == 'H');
    lemma_unreadable_is_truncated(file, i);
}

} // verus!
