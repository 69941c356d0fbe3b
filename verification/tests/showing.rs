use id3edit::display::{
    chapter_summaries, cover_art, display_value, encode_picture, image_source, summarize_chapter,
    ChapterSummary,
};
use id3edit::{Chapter, Frame, Tag, Version};

fn text(id: &str, text: &str) -> Frame {
    Frame::TextFrame { id: id.to_string(), text: text.to_string() }
}

fn picture(data: &[u8]) -> Frame {
    Frame::PictureFrame {
        id: "APIC".to_string(),
        mime_type: "image/png".to_string(),
        picture_type: 3,
        description: "".to_string(),
        data: data.to_vec(),
    }
}

fn link(url: &str) -> Frame {
    Frame::LinkFrame { id: "WXXX".to_string(), description: "".to_string(), url: url.to_string() }
}

fn table(names: &[&str]) -> Frame {
    Frame::TableOfContentsFrame {
        id: "CTOC".to_string(),
        element_id: "toc".to_string(),
        ordered: true,
        child_element_ids: names.iter().map(|n| n.to_string()).collect(),
    }
}

#[test]
fn the_line_of_a_frame() {
    assert_eq!(display_value(&text("TIT2", "Title")), "Title");
    assert_eq!(
        display_value(&Frame::CommentFrame {
            id: "COMM".to_string(),
            language: "eng".to_string(),
            description: "d".to_string(),
            text: "comment".to_string(),
        }),
        "comment"
    );
    assert_eq!(
        display_value(&Frame::LyricsFrame {
            id: "USLT".to_string(),
            language: "eng".to_string(),
            description: "d".to_string(),
            text: "la la".to_string(),
        }),
        "la la"
    );
    assert_eq!(display_value(&picture(&[1, 2])), "");
    assert_eq!(display_value(&link("http://x")), "");
    assert_eq!(display_value(&Frame::GenericFrame { id: "PRIV".to_string(), data: vec![65] }), "");
}

#[test]
fn the_entries_of_a_table_are_joined() {
    assert_eq!(display_value(&table(&[])), "");
    assert_eq!(display_value(&table(&["chp1"])), "chp1");
    assert_eq!(display_value(&table(&["chp1", "chp2"])), "chp1, chp2");
    assert_eq!(display_value(&table(&["a", "", "c"])), "a, , c");
}

#[test]
fn base64_of_pictures() {
    assert_eq!(encode_picture(b""), Some("".to_string()));
    assert_eq!(encode_picture(b"f"), Some("Zg==".to_string()));
    assert_eq!(encode_picture(b"fo"), Some("Zm8=".to_string()));
    assert_eq!(encode_picture(b"foo"), Some("Zm9v".to_string()));
    assert_eq!(encode_picture(b"hello"), Some("aGVsbG8=".to_string()));
    assert_eq!(encode_picture(&[0xFB, 0xFF, 0xBF]), Some("+/+/".to_string()));
}

#[test]
fn the_cover_is_the_last_picture() {
    let mut tag = Tag::new();
    assert_eq!(cover_art(&tag), "");
    tag.frames.push(text("TIT2", "t"));
    assert_eq!(cover_art(&tag), "");
    tag.frames.push(picture(b"hello"));
    assert_eq!(cover_art(&tag), "aGVsbG8=");
    tag.frames.push(text("TALB", "a"));
    tag.frames.push(picture(b"foo"));
    tag.frames.push(text("TPE1", "p"));
    assert_eq!(cover_art(&tag), "Zm9v");
    tag.frames.push(picture(b""));
    assert_eq!(cover_art(&tag), "");
}

#[test]
fn the_source_of_an_image() {
    assert_eq!(image_source(""), None);
    assert_eq!(image_source("Zm9v"), Some("data:image/png;base64,Zm9v".to_string()));
}

#[test]
fn what_is_shown_of_a_chapter() {
    let chapter = Chapter {
        element_id: "chp1".to_string(),
        start_time_ms: 61_999,
        end_time_ms: 125_000,
        sub_frames: vec![
            text("TIT2", "old title"),
            link("http://old"),
            picture(b"f"),
            text("TIT3", "subtitle"),
            text("TIT2", "Intro"),
            Frame::GenericFrame { id: "TIT2".to_string(), data: vec![0, 65] },
            picture(b"foo"),
            link("http://new"),
        ],
    };
    assert_eq!(
        summarize_chapter(&chapter),
        ChapterSummary {
            element_id: "chp1".to_string(),
            title: "Intro".to_string(),
            link: Some("http://new".to_string()),
            picture: Some("Zm9v".to_string()),
            start_seconds: 61,
            end_seconds: 125,
        }
    );
}

#[test]
fn a_bare_chapter_shows_its_times() {
    let chapter = Chapter {
        element_id: "".to_string(),
        start_time_ms: 999,
        end_time_ms: 0xFFFF_FFFF,
        sub_frames: vec![],
    };
    assert_eq!(
        summarize_chapter(&chapter),
        ChapterSummary {
            element_id: "".to_string(),
            title: "".to_string(),
            link: None,
            picture: None,
            start_seconds: 0,
            end_seconds: 4_294_967,
        }
    );
}

#[test]
fn chapters_are_shown_in_their_order() {
    let chapter = |id: &str, start: u32| Chapter {
        element_id: id.to_string(),
        start_time_ms: start,
        end_time_ms: start + 1000,
        sub_frames: vec![text("TIT2", id)],
    };
    let tag = Tag {
        version: Version::Id3v23,
        frames: vec![text("TIT2", "not a chapter title")],
        chapters: vec![chapter("b", 5000), chapter("a", 0)],
    };
    let shown = chapter_summaries(&tag);
    assert_eq!(shown.len(), 2);
    assert_eq!(shown[0].title, "b");
    assert_eq!(shown[0].start_seconds, 5);
    assert_eq!(shown[0].end_seconds, 6);
    assert_eq!(shown[1].title, "a");
    assert_eq!(shown[1].start_seconds, 0);
    assert!(chapter_summaries(&Tag::new()).is_empty());
}
