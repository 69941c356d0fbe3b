//! What is read keeps to the model: a tag that comes out of a file can be
//! written again as it is.

use crate::frame::{frame_ok, frames_ok, id_ok, name_ok, names_ok, text_ok, FrameView, Version};
use crate::layout::{
    ascii_id, declared_size, id_chap, id_of, is_padding, split_frames, version_of, RawFrame,
    HEADER_LEN,
};
use crate::read_spec::{
    declared_tag_size, read_chapter, read_frame, read_frames, read_items, read_names, read_plain,
    read_terminated, spec_decode,
};
use crate::tag::{chapter_ok, chapters_ok, tag_ok};
use crate::text::{
    decode_text, find_terminator, is_high_surrogate, is_latin1, nul_free, strip_trailing_nuls,
    terminator_at, terminator_len, units_from_be, units_from_le, utf16_decode, LATIN1, UTF16, UTF8,
};
use crate::text_laws::lemma_latin1_decode;
use vstd::prelude::*;
use vstd::utf8::{decode_utf8_encode_utf8, encode_scalar, encode_utf8};

verus! {

/// A text without the NULs at its end does not end in NUL.
pub proof fn lemma_strip_ok(s: Seq<char>)
    ensures
        text_ok(strip_trailing_nuls(s)),
    decreases s.len(),
{
    if s.len() > 0 && s.last() == '\0' {
        lemma_strip_ok(s.drop_last());
    }
}

/// The terminator that a search finds is the first one: no terminator stands
/// at a place that the search looked at before.
pub proof fn lemma_found_is_first(b: Seq<u8>, enc: u8, start: int)
    requires
        find_terminator(b, enc, start) is Some,
    ensures
        ({
            let n = find_terminator(b, enc, start).unwrap();
            &&& 0 <= start <= n
            &&& n + terminator_len(enc) <= b.len()
            &&& (n - start) % terminator_len(enc) == 0
            &&& terminator_at(b, enc, n)
            &&& forall|j: int|
                start <= j < n && (j - start) % terminator_len(enc) == 0
                    ==> !#[trigger] terminator_at(b, enc, j)
        }),
    decreases b.len() - start,
{
    if !terminator_at(b, enc, start) {
        let step = terminator_len(enc);
        let next = start + step;
        lemma_found_is_first(b, enc, next);
        let n = find_terminator(b, enc, start).unwrap();
        assert(step == 1 || step == 2);
        assert((n - start) % step == 0) by {
            assert((n - next) % step == 0);
            assert(n - start == (n - next) + step);
        }
        assert forall|j: int|
            start <= j < n && (j - start) % step == 0 implies !#[trigger] terminator_at(
            b,
            enc,
            j,
        ) by {
            if j > start {
                assert(j - start == (j - next) + step);
                assert((j - next) % step == 0);
                assert(j >= next);
            }
        }
    }
}

/// A NUL in a text shows as a zero byte in its UTF-8.
pub proof fn lemma_utf8_nul_shows(s: Seq<char>, k: int) -> (j: int)
    requires
        0 <= k < s.len(),
        s[k] == '\0',
    ensures
        0 <= j < encode_utf8(s).len(),
        encode_utf8(s)[j] == 0,
    decreases s.len(),
{
    let head = encode_scalar(s[0] as u32);
    let tail = encode_utf8(s.drop_first());
    if k == 0 {
        assert(0u32 & 0x7F == 0) by (bit_vector);
        assert(encode_utf8(s)[0] == head[0]);
        0
    } else {
        assert(s.drop_first()[k - 1] == s[k]);
        let j = lemma_utf8_nul_shows(s.drop_first(), k - 1);
        assert(encode_utf8(s)[head.len() + j] == tail[j]);
        head.len() + j
    }
}

/// Code units none of which is zero spell a text without NUL.
pub proof fn lemma_utf16_decode_nul_free(u: Seq<u16>)
    requires
        forall|i: int| 0 <= i < u.len() ==> #[trigger] u[i] != 0,
        utf16_decode(u) is Some,
    ensures
        nul_free(utf16_decode(u).unwrap()),
    decreases u.len(),
{
    if u.len() > 0 {
        let s = utf16_decode(u).unwrap();
        let k: int = if is_high_surrogate(u[0]) {
            2
        } else {
            1
        };
        let rest = u.skip(k);
        assert forall|i: int| 0 <= i < rest.len() implies #[trigger] rest[i] != 0 by {
            assert(rest[i] == u[i + k]);
        }
        lemma_utf16_decode_nul_free(rest);
        let tail = utf16_decode(rest).unwrap();
        assert(s[0] != '\0');
        assert forall|i: int| 0 <= i < s.len() implies #[trigger] s[i] != '\0' by {
            if i > 0 {
                assert(s[i] == tail[i - 1]);
            }
        }
    }
}

/// A terminated string that was read holds no NUL, and is Latin-1 where it
/// was read as Latin-1.
pub proof fn lemma_terminated_ok(b: Seq<u8>, enc: u8)
    requires
        read_terminated(b, enc) is Some,
    ensures
        nul_free(read_terminated(b, enc).unwrap().0),
        enc == LATIN1 ==> is_latin1(read_terminated(b, enc).unwrap().0),
{
    let n = find_terminator(b, enc, 0).unwrap();
    let head = b.take(n);
    let s = decode_text(head, enc).unwrap();
    lemma_found_is_first(b, enc, 0);
    if enc == LATIN1 {
        assert forall|i: int| 0 <= i < s.len() implies #[trigger] s[i] != '\0' by {
            assert(!terminator_at(b, enc, i));
            assert(head[i] == b[i]);
        }
    } else if enc == UTF8 {
        decode_utf8_encode_utf8(head);
        assert forall|i: int| 0 <= i < s.len() implies #[trigger] s[i] != '\0' by {
            if s[i] == '\0' {
                let j = lemma_utf8_nul_shows(s, i);
                assert(!terminator_at(b, enc, j));
                assert(head[j] == b[j]);
            }
        }
    } else if enc == UTF16 {
        if head.len() >= 2 {
            let body = head.skip(2);
            let u = if head[0] == 0xFF && head[1] == 0xFE {
                units_from_le(body)
            } else {
                units_from_be(body)
            };
            assert forall|i: int| 0 <= i < u.len() implies #[trigger] u[i] != 0 by {
                let j = 2 + 2 * i;
                assert(!terminator_at(b, enc, j));
                assert(body[2 * i] == b[j]);
                assert(body[2 * i + 1] == b[j + 1]);
            }
            lemma_utf16_decode_nul_free(u);
        }
    } else {
        let u = units_from_be(head);
        assert forall|i: int| 0 <= i < u.len() implies #[trigger] u[i] != 0 by {
            let j = 2 * i;
            assert(!terminator_at(b, enc, j));
            assert(head[2 * i] == b[j]);
            assert(head[2 * i + 1] == b[j + 1]);
        }
        lemma_utf16_decode_nul_free(u);
    }
}

/// Names that were read are as many as were asked for, and each can stand
/// before a zero byte.
pub proof fn lemma_names_ok(b: Seq<u8>, n: nat)
    requires
        read_names(b, n) is Some,
    ensures
        read_names(b, n).unwrap().0.len() == n,
        names_ok(read_names(b, n).unwrap().0),
    decreases n,
{
    if n > 0 {
        let (name, rest) = read_terminated(b, LATIN1).unwrap();
        lemma_terminated_ok(b, LATIN1);
        lemma_names_ok(rest, (n - 1) as nat);
        let names = read_names(b, n).unwrap().0;
        let others = read_names(rest, (n - 1) as nat).unwrap().0;
        assert forall|i: int| 0 <= i < names.len() implies name_ok(#[trigger] names[i]) by {
            if i > 0 {
                assert(names[i] == others[i - 1]);
            }
        }
    }
}

/// A frame that was read under an identifier keeps to the model. At the top
/// of a tag the identifier is not that of chapters.
pub proof fn lemma_frame_read_ok(id: Seq<char>, body: Seq<u8>, v: Version, nested: bool)
    requires
        id_ok(id),
        nested || id != id_chap(),
        read_frame(id, body, v) is Some,
    ensures
        frame_ok(read_frame(id, body, v).unwrap(), nested),
{
    reveal(read_plain);
    reveal(frame_ok);
    let f = read_frame(id, body, v).unwrap();
    match f {
        FrameView::TextFrame { .. } => {
            lemma_strip_ok(decode_text(body.skip(1), body[0]).unwrap());
        },
        FrameView::CommentFrame { .. } => {
            lemma_terminated_ok(body.skip(4), body[0]);
            let rest = read_terminated(body.skip(4), body[0]).unwrap().1;
            lemma_strip_ok(decode_text(rest, body[0]).unwrap());
            lemma_latin1_decode(body.subrange(1, 4));
        },
        FrameView::LyricsFrame { .. } => {
            lemma_terminated_ok(body.skip(4), body[0]);
            let rest = read_terminated(body.skip(4), body[0]).unwrap().1;
            lemma_strip_ok(decode_text(rest, body[0]).unwrap());
            lemma_latin1_decode(body.subrange(1, 4));
        },
        FrameView::PictureFrame { .. } => {
            lemma_terminated_ok(body.skip(1), LATIN1);
            let rest = read_terminated(body.skip(1), LATIN1).unwrap().1;
            lemma_terminated_ok(rest.skip(1), body[0]);
        },
        FrameView::LinkFrame { .. } => {
            lemma_terminated_ok(body.skip(1), body[0]);
            let rest = read_terminated(body.skip(1), body[0]).unwrap().1;
            lemma_latin1_decode(rest);
        },
        FrameView::TableOfContentsFrame { .. } => {
            lemma_terminated_ok(body, LATIN1);
            let rest = read_terminated(body, LATIN1).unwrap().1;
            lemma_names_ok(rest.skip(2), rest[1] as nat);
        },
        FrameView::GenericFrame { .. } => {},
    }
}

/// Whether every raw frame has an identifier that frames can have.
pub open spec fn ids_ok(raws: Seq<RawFrame>) -> bool {
    forall|i: int| 0 <= i < raws.len() ==> id_ok(id_of((#[trigger] raws[i]).id))
}

/// Four ASCII bytes that are not padding spell an identifier.
pub proof fn lemma_id_read_ok(raw: Seq<u8>)
    requires
        ascii_id(raw),
        !is_padding(raw),
    ensures
        id_ok(id_of(raw)),
{
    let id = id_of(raw);
    assert forall|i: int| 0 <= i < id.len() implies '\0' <= #[trigger] id[i] <= '\u{7f}' by {
        assert(raw[i] < 128);
    }
}

/// The raw frames that are cut out of a tag have identifiers that frames
/// can have.
pub proof fn lemma_split_ids_ok(b: Seq<u8>, v: Version)
    requires
        split_frames(b, v) is Some,
    ensures
        ids_ok(split_frames(b, v).unwrap()),
    decreases b.len(),
{
    if b.len() < HEADER_LEN || is_padding(b) {
    } else {
        let size = declared_size(b.subrange(4, 8), v);
        let raws = split_frames(b, v).unwrap();
        let rest = split_frames(b.skip(HEADER_LEN + size), v).unwrap();
        lemma_split_ids_ok(b.skip(HEADER_LEN + size), v);
        assert(!is_padding(b.subrange(0, 4)));
        lemma_id_read_ok(b.subrange(0, 4));
        assert forall|i: int| 0 <= i < raws.len() implies id_ok(id_of((#[trigger] raws[i]).id)) by {
            if i > 0 {
                assert(raws[i] == rest[i - 1]);
            }
        }
    }
}

/// The frames that were read inside a chapter keep to the model.
pub proof fn lemma_frames_read_ok(raws: Seq<RawFrame>, v: Version)
    requires
        ids_ok(raws),
        read_frames(raws, v) is Some,
    ensures
        frames_ok(read_frames(raws, v).unwrap(), true),
    decreases raws.len(),
{
    if raws.len() > 0 {
        let others = raws.skip(1);
        assert(ids_ok(others)) by {
            assert forall|i: int| 0 <= i < others.len() implies id_ok(
                id_of((#[trigger] others[i]).id),
            ) by {
                assert(others[i] == raws[i + 1]);
            }
        }
        lemma_frame_read_ok(id_of(raws[0].id), raws[0].body, v, true);
        lemma_frames_read_ok(others, v);
        let fs = read_frames(raws, v).unwrap();
        let rest = read_frames(others, v).unwrap();
        assert forall|i: int| 0 <= i < fs.len() implies frame_ok(#[trigger] fs[i], true) by {
            if i > 0 {
                assert(fs[i] == rest[i - 1]);
            }
        }
    }
}

/// A chapter that was read keeps to the model.
pub proof fn lemma_chapter_read_ok(body: Seq<u8>, v: Version)
    requires
        read_chapter(body, v) is Some,
    ensures
        chapter_ok(read_chapter(body, v).unwrap()),
{
    reveal(read_chapter);
    lemma_terminated_ok(body, LATIN1);
    let rest = read_terminated(body, LATIN1).unwrap().1;
    lemma_split_ids_ok(rest.skip(16), v);
    lemma_frames_read_ok(split_frames(rest.skip(16), v).unwrap(), v);
}

/// The frames and chapters that were read from a tag keep to the model.
pub proof fn lemma_items_read_ok(raws: Seq<RawFrame>, v: Version)
    requires
        ids_ok(raws),
        read_items(raws, v) is Some,
    ensures
        frames_ok(read_items(raws, v).unwrap().0, false),
        chapters_ok(read_items(raws, v).unwrap().1),
    decreases raws.len(),
{
    if raws.len() > 0 {
        let others = raws.skip(1);
        assert(ids_ok(others)) by {
            assert forall|i: int| 0 <= i < others.len() implies id_ok(
                id_of((#[trigger] others[i]).id),
            ) by {
                assert(others[i] == raws[i + 1]);
            }
        }
        lemma_items_read_ok(others, v);
        let (fs, cs) = read_items(raws, v).unwrap();
        let (fs2, cs2) = read_items(others, v).unwrap();
        if id_of(raws[0].id) == id_chap() {
            lemma_chapter_read_ok(raws[0].body, v);
            assert forall|i: int| 0 <= i < cs.len() implies chapter_ok(#[trigger] cs[i]) by {
                if i > 0 {
                    assert(cs[i] == cs2[i - 1]);
                }
            }
        } else {
            lemma_frame_read_ok(id_of(raws[0].id), raws[0].body, v, false);
            assert forall|i: int| 0 <= i < fs.len() implies frame_ok(#[trigger] fs[i], false) by {
                if i > 0 {
                    assert(fs[i] == fs2[i - 1]);
                }
            }
        }
    }
}

/// A tag that was read from a file keeps to the model.
pub proof fn lemma_decoded_ok(file: Seq<u8>)
    requires
        spec_decode(file) is Ok,
    ensures
        tag_ok(spec_decode(file).unwrap()),
{
    let v = version_of(file[3]).unwrap();
    let size = declared_tag_size(file);
    let region = file.subrange(HEADER_LEN as int, HEADER_LEN + size);
    lemma_split_ids_ok(region, v);
    lemma_items_read_ok(split_frames(region, v).unwrap(), v);
}

} // verus!
