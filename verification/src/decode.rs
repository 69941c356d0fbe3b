//! Reading a tag from the bytes of a file.

use crate::error::DecodeError;
use crate::frame::{Frame, FrameView, Version};
use crate::layout::{
    ascii_id, declared_size, has_marker, id_apic, id_chap, id_comm, id_ctoc, id_of, id_uslt,
    id_wxxx, is_padding, is_text_id, lemma_split_len, raws_len, split_frames, RawFrame,
    HEADER_LEN,
};
use crate::read_ok::lemma_decoded_ok;
use crate::read_spec::{
    frames_readable, lemma_toc_behind_shorter, read_chapter, read_comment_body, read_frame,
    read_frames, read_items, read_link_body, read_names, read_picture_body, read_plain,
    read_terminated, read_text_body, read_toc_fields, spec_decode,
};
use crate::synchsafe::{read_u32_be, unsynchsafe};
use crate::tag::{tag_ok, Chapter, ChapterView, Tag, TagView};
use crate::text::{terminator_len, LATIN1, UTF16, UTF16BE};
use crate::text_read::{decode_latin1_string, decode_string, decode_stripped, find_terminator_in};
use vstd::prelude::*;
use vstd::slice::slice_subrange;

verus! {

/// A frame as it lies in the buffer: its identifier and its body.
struct Piece<'a> {
    id: &'a [u8],
    body: &'a [u8],
}

impl<'a> DeepView for Piece<'a> {
    type V = RawFrame;

    closed spec fn deep_view(&self) -> RawFrame {
        RawFrame { id: self.id@, body: self.body@ }
    }
}

/// `rest` after `acc`, where there is a `rest`.
spec fn then_raws(acc: Seq<RawFrame>, rest: Option<Seq<RawFrame>>) -> Option<
    Seq<RawFrame>,
> {
    match rest {
        Some(r) => Some(acc + r),
        None => None,
    }
}

/// One step of the cutting: with a frame at the front of `rest`, the frames
/// cut so far grow by that frame and the cutting goes on behind it.
proof fn lemma_split_step(
    rest: Seq<u8>,
    v: Version,
    acc: Seq<RawFrame>,
    whole: Option<Seq<RawFrame>>,
)
    requires
        rest.len() >= HEADER_LEN,
        !is_padding(rest),
        ascii_id(rest.subrange(0, 4)),
        HEADER_LEN + declared_size(rest.subrange(4, 8), v) <= rest.len(),
        whole == then_raws(acc, split_frames(rest, v)),
    ensures
        whole == then_raws(
            acc.push(
                RawFrame {
                    id: rest.subrange(0, 4),
                    body: rest.subrange(10, HEADER_LEN + declared_size(rest.subrange(4, 8), v)),
                },
            ),
            split_frames(rest.skip(HEADER_LEN + declared_size(rest.subrange(4, 8), v)), v),
        ),
{
    let size = declared_size(rest.subrange(4, 8), v);
    let raw = RawFrame { id: rest.subrange(0, 4), body: rest.subrange(10, HEADER_LEN + size) };
    let tail = split_frames(rest.skip(HEADER_LEN + size), v);
    if tail is Some {
        assert(acc.push(raw) + tail.unwrap() =~= acc + (seq![raw] + tail.unwrap()));
    }
}

/// What stands at `pos` in `b`, seen from `pos` and seen from the start.
proof fn lemma_header_at(b: Seq<u8>, pos: int)
    requires
        0 <= pos,
        pos + HEADER_LEN <= b.len(),
    ensures
        is_padding(b.skip(pos)) <==> b[pos] == 0 && b[pos + 1] == 0 && b[pos + 2] == 0 && b[pos
            + 3] == 0,
        ascii_id(b.skip(pos).subrange(0, 4)) <==> b[pos] < 128 && b[pos + 1] < 128 && b[pos + 2]
            < 128 && b[pos + 3] < 128,
        b.skip(pos).subrange(0, 4) == b.subrange(pos, pos + 4),
        b.skip(pos).subrange(4, 8) == b.subrange(pos + 4, pos + 8),
{
    let id = b.skip(pos).subrange(0, 4);
    assert(id =~= b.subrange(pos, pos + 4));
    assert(b.skip(pos).subrange(4, 8) =~= b.subrange(pos + 4, pos + 8));
    assert(id[0] == b[pos] && id[1] == b[pos + 1] && id[2] == b[pos + 2] && id[3] == b[pos + 3]);
}

/// The body of the frame at `pos` in `b` and what follows it, seen from
/// `pos` and seen from the start.
proof fn lemma_body_at(b: Seq<u8>, pos: int, size: int)
    requires
        0 <= pos,
        0 <= size,
        pos + HEADER_LEN + size <= b.len(),
    ensures
        b.skip(pos).subrange(10, HEADER_LEN + size) == b.subrange(
            pos + HEADER_LEN,
            pos + HEADER_LEN + size,
        ),
        b.skip(pos).skip(HEADER_LEN + size) == b.skip(pos + HEADER_LEN + size),
{
    assert(b.skip(pos).subrange(10, HEADER_LEN + size) =~= b.subrange(
        pos + HEADER_LEN,
        pos + HEADER_LEN + size,
    ));
    assert(b.skip(pos).skip(HEADER_LEN + size) =~= b.skip(pos + HEADER_LEN + size));
}

/// Cuts a run of frames into its pieces.
fn split_pieces<'a>(b: &'a [u8], version: Version) -> (r: Option<Vec<Piece<'a>>>)
    ensures
        match r {
            Some(pieces) => split_frames(b@, version) == Some(pieces.deep_view()),
            None => split_frames(b@, version) is None,
        },
{
    let len: usize = b.len();
    let mut out: Vec<Piece<'a>> = Vec::new();
    let mut pos: usize = 0;
    proof {
        assert(b@.skip(0) =~= b@);
        let all = split_frames(b@, version);
        if all is Some {
            assert(out.deep_view() + all.unwrap() =~= all.unwrap());
        }
    }
    while len - pos >= HEADER_LEN
        invariant
            pos <= len,
            len == b@.len(),
            split_frames(b@, version) == then_raws(
                out.deep_view(),
                split_frames(b@.skip(pos as int), version),
            ),
        decreases len - pos,
    {
        let ghost rest = b@.skip(pos as int);
        let ghost before = out.deep_view();
        proof {
            lemma_header_at(b@, pos as int);
        }
        if b[pos] == 0 && b[pos + 1] == 0 && b[pos + 2] == 0 && b[pos + 3] == 0 {
            assert(before + Seq::<RawFrame>::empty() =~= before);
            return Some(out);
        }
        if b[pos] >= 128 || b[pos + 1] >= 128 || b[pos + 2] >= 128 || b[pos + 3] >= 128 {
            return None;
        }
        let word: u32 = read_u32_be(b, pos + 4);
        let size: u32 = match version {
            Version::Id3v24 => unsynchsafe(word),
            _ => word,
        };
        assert(size == declared_size(rest.subrange(4, 8), version));
        if size as u64 + 10 > (len - pos) as u64 {
            return None;
        }
        let body_start: usize = pos + 10;
        let body_end: usize = body_start + size as usize;
        let piece = Piece {
            id: slice_subrange(b, pos, pos + 4),
            body: slice_subrange(b, body_start, body_end),
        };
        proof {
            lemma_body_at(b@, pos as int, size as int);
            lemma_split_step(rest, version, before, split_frames(b@, version));
        }
        out.push(piece);
        assert(out.deep_view() =~= before.push(piece.deep_view()));
        pos = body_end;
    }
    assert(out.deep_view() + Seq::<RawFrame>::empty() =~= out.deep_view());
    Some(out)
}

/// Takes a terminated string off the front of `b`.
fn take_terminated<'a>(b: &'a [u8], enc: u8) -> (r: Option<(String, &'a [u8])>)
    ensures
        match r {
            Some((s, rest)) => read_terminated(b@, enc) == Some((s@, rest@)),
            None => read_terminated(b@, enc) is None,
        },
{
    match find_terminator_in(b, enc) {
        Some(i) => {
            let step: usize = if enc == UTF16 || enc == UTF16BE {
                2
            } else {
                1
            };
            let len: usize = b.len();
            assert(step == terminator_len(enc));
            let head: &[u8] = slice_subrange(b, 0, i);
            let rest: &[u8] = slice_subrange(b, i + step, len);
            assert(head@ =~= b@.take(i as int));
            assert(rest@ =~= b@.skip(i + terminator_len(enc)));
            match decode_string(head, enc) {
                Some(s) => Some((s, rest)),
                None => None,
            }
        },
        None => None,
    }
}

/// Reads the body of a text frame.
fn parse_text_body(body: &[u8]) -> (r: Option<String>)
    ensures
        match r {
            Some(s) => read_text_body(body@) == Some(s@),
            None => read_text_body(body@) is None,
        },
{
    if body.len() < 1 {
        return None;
    }
    let rest: &[u8] = slice_subrange(body, 1, body.len());
    assert(rest@ =~= body@.skip(1));
    decode_stripped(rest, body[0])
}

/// Reads the body of a comment or of lyrics: language, description, text.
fn parse_comment_body(body: &[u8]) -> (r: Option<(String, String, String)>)
    ensures
        match r {
            Some((language, description, text)) => read_comment_body(body@) == Some(
                (language@, description@, text@),
            ),
            None => read_comment_body(body@) is None,
        },
{
    if body.len() < 4 {
        return None;
    }
    let enc: u8 = body[0];
    let tail: &[u8] = slice_subrange(body, 4, body.len());
    assert(tail@ =~= body@.skip(4));
    let (description, rest) = match take_terminated(tail, enc) {
        Some(pair) => pair,
        None => { return None; },
    };
    let text: String = match decode_stripped(rest, enc) {
        Some(text) => text,
        None => { return None; },
    };
    let language: String = decode_latin1_string(slice_subrange(body, 1, 4));
    Some((language, description, text))
}

/// Reads the body of a picture: MIME type, picture type, description, image.
fn parse_picture_body(body: &[u8]) -> (r: Option<(String, u8, String, Vec<u8>)>)
    ensures
        match r {
            Some((mime_type, picture_type, description, data)) => read_picture_body(body@)
                == Some((mime_type@, picture_type, description@, data@)),
            None => read_picture_body(body@) is None,
        },
{
    if body.len() < 1 {
        return None;
    }
    let enc: u8 = body[0];
    let tail: &[u8] = slice_subrange(body, 1, body.len());
    assert(tail@ =~= body@.skip(1));
    let (mime_type, rest) = match take_terminated(tail, LATIN1) {
        Some(pair) => pair,
        None => { return None; },
    };
    if rest.len() < 1 {
        return None;
    }
    let picture_type: u8 = rest[0];
    let after: &[u8] = slice_subrange(rest, 1, rest.len());
    assert(after@ =~= rest@.skip(1));
    let (description, data) = match take_terminated(after, enc) {
        Some(pair) => pair,
        None => { return None; },
    };
    Some((mime_type, picture_type, description, vstd::slice::slice_to_vec(data)))
}

/// Reads the body of a link: description and address.
fn parse_link_body(body: &[u8]) -> (r: Option<(String, String)>)
    ensures
        match r {
            Some((description, url)) => read_link_body(body@) == Some((description@, url@)),
            None => read_link_body(body@) is None,
        },
{
    if body.len() < 1 {
        return None;
    }
    let tail: &[u8] = slice_subrange(body, 1, body.len());
    assert(tail@ =~= body@.skip(1));
    let (description, rest) = match take_terminated(tail, body[0]) {
        Some(pair) => pair,
        None => { return None; },
    };
    Some((description, decode_latin1_string(rest)))
}

/// The names of `rest` after `acc`, and what stands behind them, where
/// there is a `rest`.
spec fn then_names(acc: Seq<Seq<char>>, rest: Option<(Seq<Seq<char>>, Seq<u8>)>) -> Option<
    (Seq<Seq<char>>, Seq<u8>),
> {
    match rest {
        Some((names, behind)) => Some((acc + names, behind)),
        None => None,
    }
}

/// Reads `n` terminated Latin-1 strings off the front of `b`, and hands
/// back what stands behind them.
fn parse_names<'a>(b: &'a [u8], n: u8) -> (r: Option<(Vec<String>, &'a [u8])>)
    ensures
        match r {
            Some((names, behind)) => read_names(b@, n as nat) == Some(
                (names.deep_view(), behind@),
            ),
            None => read_names(b@, n as nat) is None,
        },
{
    let mut out: Vec<String> = Vec::new();
    let mut rest: &'a [u8] = b;
    let mut k: u8 = 0;
    proof {
        let all = read_names(b@, n as nat);
        if all is Some {
            assert(out.deep_view() + all.unwrap().0 =~= all.unwrap().0);
        }
    }
    while k < n
        invariant
            k <= n,
            read_names(b@, n as nat) == then_names(
                out.deep_view(),
                read_names(rest@, (n - k) as nat),
            ),
        decreases n - k,
    {
        let (name, after) = match take_terminated(rest, LATIN1) {
            Some(pair) => pair,
            None => { return None; },
        };
        proof {
            let tail = read_names(after@, (n - k - 1) as nat);
            if tail is Some {
                assert(out.deep_view().push(name@) + tail.unwrap().0 =~= out.deep_view() + (
                seq![name@] + tail.unwrap().0));
            }
        }
        let ghost before = out.deep_view();
        out.push(name);
        assert(out.deep_view() =~= before.push(name@));
        rest = after;
        k = k + 1;
    }
    assert(out.deep_view() + Seq::<Seq<char>>::empty() =~= out.deep_view());
    Some((out, rest))
}

/// Reads the fields of a table of contents: element identifier, ordering,
/// entries, and what stands behind the entries.
fn parse_toc_fields<'a>(body: &'a [u8]) -> (r: Option<(String, bool, Vec<String>, &'a [u8])>)
    ensures
        match r {
            Some((element_id, ordered, names, behind)) => read_toc_fields(body@) == Some(
                (element_id@, ordered, names.deep_view(), behind@),
            ),
            None => read_toc_fields(body@) is None,
        },
{
    let (element_id, rest) = match take_terminated(body, LATIN1) {
        Some(pair) => pair,
        None => { return None; },
    };
    if rest.len() < 2 {
        return None;
    }
    let ordered: bool = rest[0] % 2 == 1;
    let tail: &'a [u8] = slice_subrange(rest, 2, rest.len());
    assert(tail@ =~= rest@.skip(2));
    match parse_names(tail, rest[1]) {
        Some((names, behind)) => Some((element_id, ordered, names, behind)),
        None => None,
    }
}

/// Whether the four bytes of an identifier are the given ones.
fn id_is(id: &[u8], a: u8, b: u8, c: u8, d: u8) -> (r: bool)
    requires
        id@.len() == 4,
    ensures
        r == (id_of(id@) == seq![a as char, b as char, c as char, d as char]),
{
    let r: bool = id[0] == a && id[1] == b && id[2] == c && id[3] == d;
    proof {
        let want = seq![a as char, b as char, c as char, d as char];
        if r {
            assert(id_of(id@) =~= want);
        } else {
            if id_of(id@) == want {
                assert(id_of(id@)[0] == want[0]);
                assert(id_of(id@)[1] == want[1]);
                assert(id_of(id@)[2] == want[2]);
                assert(id_of(id@)[3] == want[3]);
            }
        }
    }
    r
}

/// Reads a frame from its identifier and its body, for any identifier
/// but that of tables of contents.
fn parse_plain(id: &[u8], body: &[u8]) -> (r: Option<Frame>)
    requires
        id@.len() == 4,
    ensures
        match r {
            Some(f) => read_plain(id_of(id@), body@) == Some(f@),
            None => read_plain(id_of(id@), body@) is None,
        },
{
    reveal(read_plain);
    let name: String = decode_latin1_string(id);
    assert(is_text_id(id_of(id@)) == (id@[0] == 0x54));
    assert(id_comm() =~= seq![0x43u8 as char, 0x4Fu8 as char, 0x4Du8 as char, 0x4Du8 as char]);
    assert(id_uslt() =~= seq![0x55u8 as char, 0x53u8 as char, 0x4Cu8 as char, 0x54u8 as char]);
    assert(id_apic() =~= seq![0x41u8 as char, 0x50u8 as char, 0x49u8 as char, 0x43u8 as char]);
    assert(id_wxxx() =~= seq![0x57u8 as char, 0x58u8 as char, 0x58u8 as char, 0x58u8 as char]);
    if id[0] == 0x54 {
        match parse_text_body(body) {
            Some(text) => Some(Frame::TextFrame { id: name, text }),
            None => None,
        }
    } else if id_is(id, 0x43, 0x4F, 0x4D, 0x4D) {
        match parse_comment_body(body) {
            Some((language, description, text)) => Some(
                Frame::CommentFrame { id: name, language, description, text },
            ),
            None => None,
        }
    } else if id_is(id, 0x55, 0x53, 0x4C, 0x54) {
        match parse_comment_body(body) {
            Some((language, description, text)) => Some(
                Frame::LyricsFrame { id: name, language, description, text },
            ),
            None => None,
        }
    } else if id_is(id, 0x41, 0x50, 0x49, 0x43) {
        match parse_picture_body(body) {
            Some((mime_type, picture_type, description, data)) => Some(
                Frame::PictureFrame { id: name, mime_type, picture_type, description, data },
            ),
            None => None,
        }
    } else if id_is(id, 0x57, 0x58, 0x58, 0x58) {
        match parse_link_body(body) {
            Some((description, url)) => Some(Frame::LinkFrame { id: name, description, url }),
            None => None,
        }
    } else {
        Some(Frame::GenericFrame { id: name, data: vstd::slice::slice_to_vec(body) })
    }
}

/// Whether each of the runs can be cut into frames that can all be read.
spec fn all_readable(runs: Seq<&[u8]>, v: Version) -> bool {
    forall|k: int| 0 <= k < runs.len() ==> frames_readable(#[trigger] runs[k]@, v)
}

/// How much is left to look at in the runs: their bytes, and one for each.
spec fn weight(runs: Seq<&[u8]>) -> nat
    decreases runs.len(),
{
    if runs.len() == 0 {
        0
    } else {
        weight(runs.drop_last()) + runs.last()@.len() + 1
    }
}

/// One more run weighs its bytes and one more.
proof fn lemma_weight_push(runs: Seq<&[u8]>, run: &[u8])
    ensures
        weight(runs.push(run)) == weight(runs) + run@.len() + 1,
{
    assert(runs.push(run).drop_last() =~= runs);
}

/// With one more run, all can be read where all could before and the new
/// one can.
proof fn lemma_all_readable_push(runs: Seq<&[u8]>, run: &[u8], v: Version)
    ensures
        all_readable(runs.push(run), v) <==> all_readable(runs, v) && frames_readable(run@, v),
{
    let more = runs.push(run);
    if all_readable(more, v) {
        assert forall|k: int| 0 <= k < runs.len() implies frames_readable(
            #[trigger] runs[k]@,
            v,
        ) by {
            assert(more[k] == runs[k]);
        }
        assert(more[runs.len() as int] == run);
    }
}

/// A frame can be read where its fields can and, in a table of contents,
/// the frames behind the entries can.
proof fn lemma_frame_readable(id: Seq<char>, body: Seq<u8>, v: Version)
    ensures
        id == id_ctoc() ==> (read_frame(id, body, v) is Some <==> (read_toc_fields(body) is Some
            && frames_readable(read_toc_fields(body).unwrap().3, v))),
        id != id_ctoc() ==> read_frame(id, body, v) == read_plain(id, body),
{
}

/// The frames from `i` on can be read where the frame at `i` can and those
/// behind it can; and the frame at `i` takes its share of the bytes.
proof fn lemma_frames_step(raws: Seq<RawFrame>, v: Version, i: int)
    requires
        0 <= i < raws.len(),
    ensures
        read_frames(raws.skip(i), v) is Some <==> read_frame(
            id_of(raws[i].id),
            raws[i].body,
            v,
        ) is Some && read_frames(raws.skip(i + 1), v) is Some,
        raws_len(raws.skip(i)) == HEADER_LEN + raws[i].body.len() + raws_len(raws.skip(i + 1)),
{
    assert(raws.skip(i)[0] == raws[i]);
    assert(raws.skip(i).skip(1) =~= raws.skip(i + 1));
}

/// Looks at each piece of a run: a piece that is no table of contents must
/// be readable, and of a table of contents the fields must be; the bytes
/// behind its entries are put on `pending`, to be looked at in their turn.
fn check_pieces<'a>(
    pieces: &Vec<Piece<'a>>,
    pending: &mut Vec<&'a [u8]>,
    version: Version,
) -> (ok: bool)
    requires
        four_byte_ids(pieces.deep_view()),
    ensures
        ok ==> (all_readable(final(pending)@, version) <==> all_readable(old(pending)@, version)
            && read_frames(pieces.deep_view(), version) is Some),
        !ok ==> read_frames(pieces.deep_view(), version) is None,
        weight(final(pending)@) <= weight(old(pending)@) + raws_len(pieces.deep_view()),
{
    let ghost raws = pieces.deep_view();
    let ghost before = pending@;
    let mut i: usize = 0;
    assert(raws.skip(0) =~= raws);
    while i < pieces.len()
        invariant
            i <= pieces@.len(),
            raws == pieces.deep_view(),
            before == old(pending)@,
            four_byte_ids(raws),
            read_frames(raws.skip(i as int), version) is None ==> read_frames(raws, version)
                is None,
            (all_readable(pending@, version) && read_frames(raws.skip(i as int), version)
                is Some) <==> (all_readable(before, version) && read_frames(raws, version)
                is Some),
            weight(pending@) + raws_len(raws.skip(i as int)) <= weight(before) + raws_len(raws),
        decreases pieces@.len() - i,
    {
        let piece: &Piece<'a> = &pieces[i];
        let ghost waiting = pending@;
        proof {
            assert(raws[i as int] == piece.deep_view());
            lemma_frames_step(raws, version, i as int);
            lemma_frame_readable(id_of(piece.id@), piece.body@, version);
            assert(id_ctoc() =~= seq![
                0x43u8 as char,
                0x54u8 as char,
                0x4Fu8 as char,
                0x43u8 as char,
            ]);
        }
        if id_is(piece.id, 0x43, 0x54, 0x4F, 0x43) {
            match parse_toc_fields(piece.body) {
                Some((_, _, _, behind)) => {
                    pending.push(behind);
                    proof {
                        lemma_toc_behind_shorter(piece.body@);
                        lemma_weight_push(waiting, behind);
                        lemma_all_readable_push(waiting, behind, version);
                    }
                },
                None => { return false; },
            }
        } else {
            match parse_plain(piece.id, piece.body) {
                Some(_) => {},
                None => { return false; },
            }
        }
        i = i + 1;
    }
    assert(raws.skip(raws.len() as int) =~= Seq::<RawFrame>::empty());
    true
}

/// Whether a run of bytes can be cut into frames that can all be read,
/// however deep tables of contents stand in one another.
fn run_readable(run: &[u8], version: Version) -> (ok: bool)
    ensures
        ok == frames_readable(run@, version),
{
    let mut pending: Vec<&[u8]> = Vec::new();
    pending.push(run);
    proof {
        lemma_all_readable_push(Seq::<&[u8]>::empty(), run, version);
        assert(pending@ =~= Seq::<&[u8]>::empty().push(run));
    }
    while pending.len() > 0
        invariant
            frames_readable(run@, version) <==> all_readable(pending@, version),
        decreases weight(pending@),
    {
        let ghost waiting = pending@;
        let next: &[u8] = match pending.pop() {
            Some(next) => next,
            None => { return false; },
        };
        proof {
            assert(waiting =~= pending@.push(next));
            lemma_weight_push(pending@, next);
            lemma_all_readable_push(pending@, next, version);
        }
        let pieces: Vec<Piece<'_>> = match split_pieces(next, version) {
            Some(pieces) => pieces,
            None => { return false; },
        };
        proof {
            lemma_split_ids(next@, version);
            lemma_split_len(next@, version);
        }
        if !check_pieces(&pieces, &mut pending, version) {
            return false;
        }
    }
    true
}

/// Reads a frame from its identifier and its body. The frames that stand
/// in a table of contents are looked at, and the table cannot be read where
/// they cannot.
fn parse_frame(id: &[u8], body: &[u8], version: Version) -> (r: Option<Frame>)
    requires
        id@.len() == 4,
    ensures
        match r {
            Some(f) => read_frame(id_of(id@), body@, version) == Some(f@),
            None => read_frame(id_of(id@), body@, version) is None,
        },
{
    assert(id_ctoc() =~= seq![0x43u8 as char, 0x54u8 as char, 0x4Fu8 as char, 0x43u8 as char]);
    if id_is(id, 0x43, 0x54, 0x4F, 0x43) {
        let (element_id, ordered, child_element_ids, behind) = match parse_toc_fields(body) {
            Some(fields) => fields,
            None => { return None; },
        };
        if !run_readable(behind, version) {
            return None;
        }
        let name: String = decode_latin1_string(id);
        Some(Frame::TableOfContentsFrame { id: name, element_id, ordered, child_element_ids })
    } else {
        parse_plain(id, body)
    }
}

/// `rest` after `acc`, where there is a `rest`.
spec fn then_frames(acc: Seq<FrameView>, rest: Option<Seq<FrameView>>) -> Option<
    Seq<FrameView>,
> {
    match rest {
        Some(r) => Some(acc + r),
        None => None,
    }
}

/// The frames and chapters of `rest` after those read so far, where `rest`
/// could be read.
spec fn then_items(
    frames: Seq<FrameView>,
    chapters: Seq<ChapterView>,
    rest: Option<(Seq<FrameView>, Seq<ChapterView>)>,
) -> Option<(Seq<FrameView>, Seq<ChapterView>)> {
    match rest {
        Some((fs, cs)) => Some((frames + fs, chapters + cs)),
        None => None,
    }
}

/// Whether every piece has an identifier of four bytes.
spec fn four_byte_ids(raws: Seq<RawFrame>) -> bool {
    forall|i: int| 0 <= i < raws.len() ==> (#[trigger] raws[i]).id.len() == 4
}

/// What `split_frames` cuts out has identifiers of four bytes.
proof fn lemma_split_ids(b: Seq<u8>, v: Version)
    ensures
        split_frames(b, v) matches Some(raws) ==> four_byte_ids(raws),
    decreases b.len(),
{
    if b.len() < HEADER_LEN || is_padding(b) {
    } else {
        let size = declared_size(b.subrange(4, 8), v);
        if !ascii_id(b.subrange(0, 4)) || HEADER_LEN + size > b.len() {
        } else {
            lemma_split_ids(b.skip(HEADER_LEN + size), v);
        }
    }
}

/// Reads the frames of a chapter.
fn parse_frames(pieces: &Vec<Piece<'_>>, version: Version) -> (r: Option<Vec<Frame>>)
    requires
        four_byte_ids(pieces.deep_view()),
    ensures
        match r {
            Some(frames) => read_frames(pieces.deep_view(), version) == Some(frames.deep_view()),
            None => read_frames(pieces.deep_view(), version) is None,
        },
{
    let ghost raws = pieces.deep_view();
    let mut out: Vec<Frame> = Vec::new();
    let mut i: usize = 0;
    proof {
        assert(raws.skip(0) =~= raws);
        let all = read_frames(raws, version);
        if all is Some {
            assert(out.deep_view() + all.unwrap() =~= all.unwrap());
        }
    }
    while i < pieces.len()
        invariant
            i <= pieces@.len(),
            raws == pieces.deep_view(),
            four_byte_ids(raws),
            read_frames(raws, version) == then_frames(
                out.deep_view(),
                read_frames(raws.skip(i as int), version),
            ),
        decreases pieces@.len() - i,
    {
        let piece: &Piece<'_> = &pieces[i];
        proof {
            assert(raws[i as int] == piece.deep_view());
            assert(raws.skip(i as int)[0] == raws[i as int]);
        }
        let frame: Frame = match parse_frame(piece.id, piece.body, version) {
            Some(frame) => frame,
            None => { return None; },
        };
        proof {
            assert(raws.skip(i as int).skip(1) =~= raws.skip(i + 1));
            let tail = read_frames(raws.skip(i + 1), version);
            if tail is Some {
                assert(out.deep_view().push(frame@) + tail.unwrap() =~= out.deep_view() + (
                seq![frame@] + tail.unwrap()));
            }
        }
        let ghost before = out.deep_view();
        out.push(frame);
        assert(out.deep_view() =~= before.push(frame@));
        i = i + 1;
    }
    assert(out.deep_view() + Seq::<FrameView>::empty() =~= out.deep_view());
    Some(out)
}

/// Reads a chapter from the body of its frame.
fn parse_chapter(body: &[u8], version: Version) -> (r: Option<Chapter>)
    ensures
        match r {
            Some(c) => read_chapter(body@, version) == Some(c@),
            None => read_chapter(body@, version) is None,
        },
{
    reveal(read_chapter);
    let (element_id, rest) = match take_terminated(body, LATIN1) {
        Some(pair) => pair,
        None => { return None; },
    };
    if rest.len() < 16 {
        return None;
    }
    let start: u32 = read_u32_be(rest, 0);
    let end: u32 = read_u32_be(rest, 4);
    if start > end {
        return None;
    }
    let tail: &[u8] = slice_subrange(rest, 16, rest.len());
    assert(tail@ =~= rest@.skip(16));
    let pieces: Vec<Piece<'_>> = match split_pieces(tail, version) {
        Some(pieces) => pieces,
        None => { return None; },
    };
    proof {
        lemma_split_ids(tail@, version);
    }
    match parse_frames(&pieces, version) {
        Some(sub_frames) => Some(
            Chapter { element_id, start_time_ms: start, end_time_ms: end, sub_frames },
        ),
        None => None,
    }
}

/// One step of reading the items of a tag: what the raw frame at `i` adds to
/// the frames and chapters read before it.
proof fn lemma_items_step(
    raws: Seq<RawFrame>,
    version: Version,
    i: int,
    frames: Seq<FrameView>,
    chapters: Seq<ChapterView>,
)
    requires
        0 <= i < raws.len(),
        read_items(raws, version) == then_items(
            frames,
            chapters,
            read_items(raws.skip(i), version),
        ),
    ensures
        id_of(raws[i].id) == id_chap() ==> match read_chapter(raws[i].body, version) {
            Some(c) => read_items(raws, version) == then_items(
                frames,
                chapters.push(c),
                read_items(raws.skip(i + 1), version),
            ),
            None => read_items(raws, version) is None,
        },
        id_of(raws[i].id) != id_chap() ==> match read_frame(
            id_of(raws[i].id),
            raws[i].body,
            version,
        ) {
            Some(f) => read_items(raws, version) == then_items(
                frames.push(f),
                chapters,
                read_items(raws.skip(i + 1), version),
            ),
            None => read_items(raws, version) is None,
        },
{
    let here = raws.skip(i);
    assert(here[0] == raws[i]);
    assert(here.skip(1) =~= raws.skip(i + 1));
    let tail = read_items(raws.skip(i + 1), version);
    if tail is Some {
        let (fs, cs) = tail.unwrap();
        if id_of(raws[i].id) == id_chap() {
            let c = read_chapter(raws[i].body, version);
            if c is Some {
                assert(chapters.push(c.unwrap()) + cs =~= chapters + (seq![c.unwrap()] + cs));
            }
        } else {
            let f = read_frame(id_of(raws[i].id), raws[i].body, version);
            if f is Some {
                assert(frames.push(f.unwrap()) + fs =~= frames + (seq![f.unwrap()] + fs));
            }
        }
    }
}

/// Reads the frames and the chapters of a tag.
fn parse_items(pieces: &Vec<Piece<'_>>, version: Version) -> (r: Option<
    (Vec<Frame>, Vec<Chapter>),
>)
    requires
        four_byte_ids(pieces.deep_view()),
    ensures
        match r {
            Some((frames, chapters)) => read_items(pieces.deep_view(), version) == Some(
                (frames.deep_view(), chapters.deep_view()),
            ),
            None => read_items(pieces.deep_view(), version) is None,
        },
{
    let ghost raws = pieces.deep_view();
    let mut frames: Vec<Frame> = Vec::new();
    let mut chapters: Vec<Chapter> = Vec::new();
    let mut i: usize = 0;
    proof {
        assert(raws.skip(0) =~= raws);
        let all = read_items(raws, version);
        if all is Some {
            assert(frames.deep_view() + all.unwrap().0 =~= all.unwrap().0);
            assert(chapters.deep_view() + all.unwrap().1 =~= all.unwrap().1);
        }
    }
    while i < pieces.len()
        invariant
            i <= pieces@.len(),
            raws == pieces.deep_view(),
            four_byte_ids(raws),
            read_items(raws, version) == then_items(
                frames.deep_view(),
                chapters.deep_view(),
                read_items(raws.skip(i as int), version),
            ),
        decreases pieces@.len() - i,
    {
        let piece: &Piece<'_> = &pieces[i];
        let ghost fs = frames.deep_view();
        let ghost cs = chapters.deep_view();
        proof {
            assert(raws[i as int] == piece.deep_view());
            assert(id_chap() =~= seq![
                0x43u8 as char,
                0x48u8 as char,
                0x41u8 as char,
                0x50u8 as char,
            ]);
            lemma_items_step(raws, version, i as int, fs, cs);
        }
        if id_is(piece.id, 0x43, 0x48, 0x41, 0x50) {
            let chapter: Chapter = match parse_chapter(piece.body, version) {
                Some(chapter) => chapter,
                None => { return None; },
            };
            chapters.push(chapter);
            assert(chapters.deep_view() =~= cs.push(chapter@));
        } else {
            let frame: Frame = match parse_frame(piece.id, piece.body, version) {
                Some(frame) => frame,
                None => { return None; },
            };
            frames.push(frame);
            assert(frames.deep_view() =~= fs.push(frame@));
        }
        i = i + 1;
    }
    assert(frames.deep_view() + Seq::<FrameView>::empty() =~= frames.deep_view());
    assert(chapters.deep_view() + Seq::<ChapterView>::empty() =~= chapters.deep_view());
    Some((frames, chapters))
}

/// Reads the tag at the start of a file.
///
/// Fails with `NoTagFound` where the file does not open with the marker
/// `ID3`; with `UnsupportedVersion` where the major version is none of 2, 3
/// and 4; with `Truncated` where the header is cut short, the tag declares
/// more bytes than the file has, a frame declares more bytes than are left
/// in the tag, in its chapter or in its table of contents, or a frame cannot
/// be read as what its identifier says it is. The frames that stand in a
/// table of contents are looked at and not kept. Nothing outside the tag is
/// looked at. The tag that comes out keeps to the model.
pub fn decode(bytes: &[u8]) -> (r: Result<Tag, DecodeError>)
    ensures
        match r {
            Ok(tag) => spec_decode(bytes@) == Ok::<TagView, DecodeError>(tag@),
            Err(e) => spec_decode(bytes@) == Err::<TagView, DecodeError>(e),
        },
        !has_marker(bytes@) <==> r == Err::<Tag, DecodeError>(DecodeError::NoTagFound),
        r matches Ok(tag) ==> tag_ok(tag@),
{
    let len: usize = bytes.len();
    if len < 3 || bytes[0] != 0x49 || bytes[1] != 0x44 || bytes[2] != 0x33 {
        return Err(DecodeError::NoTagFound);
    }
    if len < HEADER_LEN {
        return Err(DecodeError::Truncated);
    }
    let version: Version = match bytes[3] {
        2 => Version::Id3v22,
        3 => Version::Id3v23,
        4 => Version::Id3v24,
        _ => { return Err(DecodeError::UnsupportedVersion); },
    };
    let size: u32 = unsynchsafe(read_u32_be(bytes, 6));
    if size as u64 + 10 > len as u64 {
        return Err(DecodeError::Truncated);
    }
    let region: &[u8] = slice_subrange(bytes, HEADER_LEN, HEADER_LEN + size as usize);
    let pieces: Vec<Piece<'_>> = match split_pieces(region, version) {
        Some(pieces) => pieces,
        None => { return Err(DecodeError::Truncated); },
    };
    proof {
        lemma_split_ids(region@, version);
    }
    match parse_items(&pieces, version) {
        Some((frames, chapters)) => {
            proof {
                lemma_decoded_ok(bytes@);
            }
            Ok(Tag { frames, chapters, version })
        },
        None => Err(DecodeError::Truncated),
    }
}

} // verus!
