use id3edit::valid::{chapter_valid, frame_valid, id_valid, name_valid, tag_valid, text_valid};
use id3edit::strings::str_eq;
use id3edit::text::{LATIN1, UTF16, UTF16BE, UTF8};
use id3edit::text_read::{
    chars_of, decode_chars, decode_latin1, decode_string, decode_stripped, decode_utf16,
    decode_utf8_chars, find_terminator_in, string_from_chars, stripped_len,
};
use id3edit::text_write::{
    ends_with_nul, fits_latin1, has_no_nul, push_latin1, push_terminator, push_text, push_utf16,
    push_utf8,
};
use id3edit::{Chapter, Frame, Tag, Version};

#[test]
fn markers() {
    assert_eq!((LATIN1, UTF16, UTF16BE, UTF8), (0, 1, 2, 3));
}

#[test]
fn characters_and_strings() {
    assert_eq!(chars_of("a\u{e9}\u{1F600}"), vec!['a', '\u{e9}', '\u{1F600}']);
    assert_eq!(chars_of(""), Vec::<char>::new());
    assert_eq!(string_from_chars(&['a', '\u{e9}', '\u{1F600}']), "a\u{e9}\u{1F600}");
    assert_eq!(string_from_chars(&[]), "");
}

#[test]
fn latin1_is_byte_for_character() {
    assert_eq!(decode_latin1(b"a\x00\xE9\xFF"), vec!['a', '\u{0}', '\u{e9}', '\u{ff}']);
    let all: Vec<u8> = (0..=255u8).collect();
    let decoded = decode_latin1(&all);
    for (i, c) in decoded.iter().enumerate() {
        assert_eq!(*c as u32, i as u32);
    }
    let mut out = vec![7u8];
    push_latin1(&mut out, &string_from_chars(&decoded));
    assert_eq!(&out[1..], &all[..]);
}

#[test]
fn utf16_in_both_byte_orders() {
    assert_eq!(decode_utf16(b"a\x00\x3C\x04", false), Some(vec!['a', '\u{43c}']));
    assert_eq!(decode_utf16(b"\x00a\x04\x3C", true), Some(vec!['a', '\u{43c}']));
    assert_eq!(decode_utf16(b"\x3D\xD8\x00\xDE", false), Some(vec!['\u{1F600}']));
    assert_eq!(decode_utf16(b"\xD8\x3D\xDE\x00", true), Some(vec!['\u{1F600}']));
    assert_eq!(decode_utf16(b"\xFF\xDB\xFF\xDF", false), Some(vec!['\u{10FFFF}']));
    assert_eq!(decode_utf16(b"\x00\xD8\x00\xDC", false), Some(vec!['\u{10000}']));
    assert_eq!(decode_utf16(b"\xFF\xD7\x00\xE0\xFF\xFF", false), Some(vec!['\u{D7FF}', '\u{E000}', '\u{FFFF}']));
    assert_eq!(decode_utf16(b"", false), Some(vec![]));
    assert_eq!(decode_utf16(b"a", false), Some(vec![]));
    assert_eq!(decode_utf16(b"a\x00b", false), Some(vec!['a']));
    assert_eq!(decode_utf16(b"\x00\xD8", false), None);
    assert_eq!(decode_utf16(b"\x00\xDC", false), None);
    assert_eq!(decode_utf16(b"\x00\xD8a\x00", false), None);
    assert_eq!(decode_utf16(b"\x00\xDC\x00\xD8", false), None);
    assert_eq!(decode_utf16(b"\x00\xD8\x00\xD8", false), None);
}

#[test]
fn utf8_is_checked() {
    assert_eq!(decode_utf8_chars("a\u{43c}\u{1F600}".as_bytes()), Some(vec!['a', '\u{43c}', '\u{1F600}']));
    assert_eq!(decode_utf8_chars(b""), Some(vec![]));
    assert_eq!(decode_utf8_chars(b"\x80"), None);
    assert_eq!(decode_utf8_chars(b"\xC0\x80"), None);
    assert_eq!(decode_utf8_chars(b"\xF4\x90\x80\x80"), None);
    assert_eq!(decode_utf8_chars(b"ab\xE2\x82"), None);
}

#[test]
fn text_under_each_marker() {
    assert_eq!(decode_string(b"caf\xE9", LATIN1), Some("caf\u{e9}".to_string()));
    assert_eq!(decode_string(b"\xFF\xFEh\x00i\x00", UTF16), Some("hi".to_string()));
    assert_eq!(decode_string(b"\xFE\xFF\x00h\x00i", UTF16), Some("hi".to_string()));
    assert_eq!(decode_string(b"", UTF16), Some("".to_string()));
    assert_eq!(decode_string(b"\x00", UTF16), Some("".to_string()));
    assert_eq!(decode_string(b"h\x00i\x00", UTF16), None);
    assert_eq!(decode_string(b"\x00h\x00i", UTF16BE), Some("hi".to_string()));
    assert_eq!(decode_string(b"h\xC3\xA9", UTF8), Some("h\u{e9}".to_string()));
    assert_eq!(decode_string(b"h\xE9", UTF8), None);
    assert_eq!(decode_string(b"hi", 4), None);
    assert_eq!(decode_string(b"", 255), None);
    assert_eq!(decode_chars(b"a\x00", LATIN1), Some(vec!['a', '\u{0}']));
}

#[test]
fn nuls_at_the_end_go() {
    assert_eq!(stripped_len(&['a', '\u{0}', 'b', '\u{0}', '\u{0}']), 3);
    assert_eq!(stripped_len(&['\u{0}', '\u{0}']), 0);
    assert_eq!(stripped_len(&[]), 0);
    assert_eq!(stripped_len(&['a']), 1);
    assert_eq!(decode_stripped(b"a\x00b\x00\x00", LATIN1), Some("a\u{0}b".to_string()));
    assert_eq!(decode_stripped(b"\xFF\xFEa\x00\x00\x00", UTF16), Some("a".to_string()));
    assert_eq!(decode_stripped(b"a\x00", UTF8), Some("a".to_string()));
    assert_eq!(decode_stripped(b"\xFF", UTF8), None);
}

#[test]
fn terminators() {
    assert_eq!(find_terminator_in(b"ab\x00cd\x00", LATIN1), Some(2));
    assert_eq!(find_terminator_in(b"\x00", UTF8), Some(0));
    assert_eq!(find_terminator_in(b"abc", LATIN1), None);
    assert_eq!(find_terminator_in(b"", LATIN1), None);
    assert_eq!(find_terminator_in(b"a\x00b\x00\x00\x00c\x00", UTF16), Some(4));
    assert_eq!(find_terminator_in(b"\x00\x01\x00\x00\x00\x00", UTF16BE), Some(2));
    assert_eq!(find_terminator_in(b"a\x00\x00b", UTF16), None);
    assert_eq!(find_terminator_in(b"a\x00\x00", UTF16), None);
    assert_eq!(find_terminator_in(b"\x00", UTF16), None);
    assert_eq!(find_terminator_in(b"\x00\x00", UTF16), Some(0));
}

#[test]
fn writing_text() {
    let mut out = vec![9u8];
    push_text(&mut out, "caf\u{e9}", LATIN1);
    push_terminator(&mut out, LATIN1);
    push_text(&mut out, "h\u{43c}", UTF8);
    push_terminator(&mut out, UTF8);
    push_text(&mut out, "h\u{43c}\u{1F600}", UTF16);
    push_terminator(&mut out, UTF16);
    push_terminator(&mut out, UTF16BE);
    assert_eq!(
        out,
        b"\x09caf\xE9\x00h\xD0\xBC\x00\xFF\xFEh\x00\x3C\x04\x3D\xD8\x00\xDE\x00\x00\x00\x00".to_vec()
    );
    let mut empty = Vec::new();
    push_utf16(&mut empty, "");
    assert_eq!(empty, vec![0xFF, 0xFE]);
    push_utf8(&mut empty, "");
    assert_eq!(empty, vec![0xFF, 0xFE]);
    push_utf16(&mut empty, "\u{10000}\u{10FFFF}\u{FFFF}");
    assert_eq!(
        &empty[2..],
        b"\xFF\xFE\x00\xD8\x00\xDC\xFF\xDB\xFF\xDF\xFF\xFF"
    );
}

#[test]
fn what_is_written_reads_back() {
    let samples = ["", "plain", "caf\u{e9}", "\u{43c}\u{1F600}\u{10FFFF}\u{D7FF}\u{E000}", "a\u{0}b"];
    for sample in samples {
        for marker in [UTF16, UTF8] {
            let mut out = Vec::new();
            push_text(&mut out, sample, marker);
            assert_eq!(decode_string(&out, marker), Some(sample.to_string()));
        }
        if fits_latin1(sample) {
            let mut out = Vec::new();
            push_text(&mut out, sample, LATIN1);
            assert_eq!(decode_string(&out, LATIN1), Some(sample.to_string()));
        }
    }
}

#[test]
fn tests_on_text() {
    assert!(fits_latin1(""));
    assert!(fits_latin1("caf\u{e9}\u{ff}\u{0}"));
    assert!(!fits_latin1("caf\u{100}"));
    assert!(!fits_latin1("\u{1F600}a"));
    assert!(has_no_nul(""));
    assert!(has_no_nul("abc"));
    assert!(!has_no_nul("a\u{0}c"));
    assert!(!has_no_nul("\u{0}"));
    assert!(!ends_with_nul(""));
    assert!(!ends_with_nul("\u{0}a"));
    assert!(ends_with_nul("a\u{0}"));
    assert!(ends_with_nul("\u{0}"));
    assert!(str_eq("", ""));
    assert!(str_eq("TIT2", "TIT2"));
    assert!(!str_eq("TIT2", "TIT3"));
    assert!(!str_eq("TIT2", "TIT"));
    assert!(!str_eq("TIT", "TIT2"));
    assert!(str_eq("\u{43c}\u{1F600}", "\u{43c}\u{1F600}"));
    assert!(!str_eq("\u{43c}", "\u{43d}"));
}

#[test]
fn tests_on_fields() {
    assert!(id_valid("TIT2"));
    assert!(id_valid("abcd"));
    assert!(id_valid("\u{0}\u{0}\u{0}\u{1}"));
    assert!(id_valid("\u{7f}\u{7f}\u{7f}\u{7f}"));
    assert!(!id_valid("\u{0}\u{0}\u{0}\u{0}"));
    assert!(!id_valid("TIT"));
    assert!(!id_valid("TIT22"));
    assert!(!id_valid(""));
    assert!(!id_valid("TI\u{80}2"));
    assert!(!id_valid("\u{e9}\u{e9}"));
    assert!(name_valid(""));
    assert!(name_valid("image/png"));
    assert!(name_valid("caf\u{e9}"));
    assert!(!name_valid("a\u{0}"));
    assert!(!name_valid("\u{43c}"));
    assert!(text_valid(""));
    assert!(text_valid("a\u{0}b"));
    assert!(!text_valid("ab\u{0}"));
}

#[test]
fn tests_on_frames_and_tags() {
    let title = Frame::TextFrame { id: "TIT2".to_string(), text: "t".to_string() };
    let nested_chapter = Frame::GenericFrame { id: "CHAP".to_string(), data: vec![] };
    assert!(frame_valid(&title, false));
    assert!(frame_valid(&title, true));
    assert!(!frame_valid(&nested_chapter, false));
    assert!(frame_valid(&nested_chapter, true));
    assert!(!frame_valid(&Frame::TextFrame { id: "WXXX".to_string(), text: "t".to_string() }, true));
    let chapter = |start: u32, end: u32, sub_frames: Vec<Frame>| Chapter {
        element_id: "c".to_string(),
        start_time_ms: start,
        end_time_ms: end,
        sub_frames,
    };
    assert!(chapter_valid(&chapter(1, 1, vec![title.clone(), nested_chapter.clone()])));
    assert!(!chapter_valid(&chapter(2, 1, vec![])));
    let mut tag = Tag::with_version(Version::Id3v23);
    assert!(tag_valid(&tag));
    tag.frames.push(title.clone());
    tag.chapters.push(chapter(0, 1, vec![nested_chapter.clone()]));
    assert!(tag_valid(&tag));
    tag.frames.push(nested_chapter);
    assert!(!tag_valid(&tag));
    tag.frames.pop();
    tag.chapters.push(chapter(5, 4, vec![]));
    assert!(!tag_valid(&tag));
}
