use id3::TagLike;
use id3edit::{decode, encode, Chapter, Frame, Tag, Version};
use std::io::Cursor;

fn text(id: &str, text: &str) -> Frame {
    Frame::TextFrame { id: id.to_string(), text: text.to_string() }
}

fn ours(version: Version) -> Tag {
    Tag {
        version,
        frames: vec![
            text("TIT2", "A title"),
            text("TPE1", "\u{15b}\u{1ed1}\u{43c} \u{1F600}"),
            Frame::CommentFrame {
                id: "COMM".to_string(),
                language: "eng".to_string(),
                description: "short".to_string(),
                text: "a comment with \u{65e5}\u{672c}".to_string(),
            },
            Frame::LyricsFrame {
                id: "USLT".to_string(),
                language: "deu".to_string(),
                description: "".to_string(),
                text: "la la\nla".to_string(),
            },
            Frame::PictureFrame {
                id: "APIC".to_string(),
                mime_type: "image/png".to_string(),
                picture_type: 3,
                description: "front".to_string(),
                data: vec![0x89, b'P', b'N', b'G', 0, 1, 2, 0xFF],
            },
            Frame::LinkFrame {
                id: "WXXX".to_string(),
                description: "home".to_string(),
                url: "https://example.com/".to_string(),
            },
            Frame::TableOfContentsFrame {
                id: "CTOC".to_string(),
                element_id: "toc".to_string(),
                ordered: true,
                child_element_ids: vec!["chp1".to_string(), "chp2".to_string()],
            },
        ],
        chapters: vec![
            Chapter {
                element_id: "chp1".to_string(),
                start_time_ms: 0,
                end_time_ms: 5000,
                sub_frames: vec![
                    text("TIT2", "Intro"),
                    Frame::LinkFrame {
                        id: "WXXX".to_string(),
                        description: "".to_string(),
                        url: "http://x".to_string(),
                    },
                ],
            },
            Chapter {
                element_id: "chp2".to_string(),
                start_time_ms: 5000,
                end_time_ms: 9000,
                sub_frames: vec![text("TIT2", "\u{43c}ain part")],
            },
        ],
    }
}

fn check_theirs(read: &id3::Tag) {
    assert_eq!(read.title(), Some("A title"));
    assert_eq!(read.artist(), Some("\u{15b}\u{1ed1}\u{43c} \u{1F600}"));
    let comments: Vec<&id3::frame::Comment> = read.comments().collect();
    assert_eq!(comments.len(), 1);
    assert_eq!(comments[0].lang, "eng");
    assert_eq!(comments[0].description, "short");
    assert_eq!(comments[0].text, "a comment with \u{65e5}\u{672c}");
    let lyrics: Vec<&id3::frame::Lyrics> = read.lyrics().collect();
    assert_eq!(lyrics.len(), 1);
    assert_eq!(lyrics[0].lang, "deu");
    assert_eq!(lyrics[0].description, "");
    assert_eq!(lyrics[0].text, "la la\nla");
    let pictures: Vec<&id3::frame::Picture> = read.pictures().collect();
    assert_eq!(pictures.len(), 1);
    assert_eq!(pictures[0].mime_type, "image/png");
    assert_eq!(pictures[0].picture_type, id3::frame::PictureType::CoverFront);
    assert_eq!(pictures[0].description, "front");
    assert_eq!(pictures[0].data, vec![0x89, b'P', b'N', b'G', 0, 1, 2, 0xFF]);
    let links: Vec<&id3::frame::ExtendedLink> = read.extended_links().collect();
    assert_eq!(links.len(), 1);
    assert_eq!(links[0].description, "home");
    assert_eq!(links[0].link, "https://example.com/");
    let tables: Vec<&id3::frame::TableOfContents> = read.tables_of_contents().collect();
    assert_eq!(tables.len(), 1);
    assert_eq!(tables[0].element_id, "toc");
    assert!(tables[0].ordered);
    assert!(tables[0].top_level);
    assert_eq!(tables[0].elements, vec!["chp1".to_string(), "chp2".to_string()]);
    assert!(tables[0].frames.is_empty());
    let chapters: Vec<&id3::frame::Chapter> = read.chapters().collect();
    assert_eq!(chapters.len(), 2);
    assert_eq!(chapters[0].element_id, "chp1");
    assert_eq!(chapters[0].start_time, 0);
    assert_eq!(chapters[0].end_time, 5000);
    assert_eq!(chapters[0].start_offset, 0xFFFF_FFFF);
    assert_eq!(chapters[0].end_offset, 0xFFFF_FFFF);
    assert_eq!(chapters[0].frames.len(), 2);
    assert_eq!(chapters[0].frames[0].id(), "TIT2");
    assert_eq!(chapters[0].frames[0].content().text(), Some("Intro"));
    assert_eq!(chapters[0].frames[1].content().extended_link().unwrap().link, "http://x");
    assert_eq!(chapters[1].element_id, "chp2");
    assert_eq!(chapters[1].start_time, 5000);
    assert_eq!(chapters[1].end_time, 9000);
    assert_eq!(chapters[1].frames[0].content().text(), Some("\u{43c}ain part"));
}

#[test]
fn another_reader_reads_what_is_written_in_version_four() {
    let file = encode(&ours(Version::Id3v24), b"\xFF\xFBaudio").unwrap();
    let read = id3::Tag::read_from2(Cursor::new(&file)).unwrap();
    assert_eq!(read.version(), id3::Version::Id3v24);
    check_theirs(&read);
}

#[test]
fn another_reader_reads_what_is_written_in_version_three() {
    let file = encode(&ours(Version::Id3v23), b"\xFF\xFBaudio").unwrap();
    let read = id3::Tag::read_from2(Cursor::new(&file)).unwrap();
    assert_eq!(read.version(), id3::Version::Id3v23);
    check_theirs(&read);
}

fn theirs() -> id3::Tag {
    let mut tag = id3::Tag::new();
    tag.set_title("A title");
    tag.set_artist("\u{15b}\u{1ed1}\u{43c} \u{1F600}");
    tag.add_frame(id3::frame::Comment {
        lang: "eng".to_string(),
        description: "short".to_string(),
        text: "a comment with \u{65e5}\u{672c}".to_string(),
    });
    tag.add_frame(id3::frame::Lyrics {
        lang: "deu".to_string(),
        description: "".to_string(),
        text: "la la\nla".to_string(),
    });
    tag.add_frame(id3::frame::Picture {
        mime_type: "image/png".to_string(),
        picture_type: id3::frame::PictureType::CoverFront,
        description: "front".to_string(),
        data: vec![0x89, b'P', b'N', b'G', 0, 1, 2, 0xFF],
    });
    tag.add_frame(id3::frame::ExtendedLink {
        description: "home".to_string(),
        link: "https://example.com/".to_string(),
    });
    tag.add_frame(id3::frame::Chapter {
        element_id: "chp1".to_string(),
        start_time: 0,
        end_time: 5000,
        start_offset: 0xFFFF_FFFF,
        end_offset: 0xFFFF_FFFF,
        frames: vec![id3::Frame::with_content("TIT2", id3::Content::Text("Intro".to_string()))],
    });
    tag.add_frame(id3::frame::TableOfContents {
        element_id: "toc".to_string(),
        top_level: true,
        ordered: true,
        elements: vec!["chp1".to_string()],
        frames: Vec::new(),
    });
    tag
}

fn check_ours(tag: &Tag, version: Version) {
    assert_eq!(tag.version, version);
    assert_eq!(
        tag.frames,
        vec![
            text("TIT2", "A title"),
            text("TPE1", "\u{15b}\u{1ed1}\u{43c} \u{1F600}"),
            Frame::CommentFrame {
                id: "COMM".to_string(),
                language: "eng".to_string(),
                description: "short".to_string(),
                text: "a comment with \u{65e5}\u{672c}".to_string(),
            },
            Frame::LyricsFrame {
                id: "USLT".to_string(),
                language: "deu".to_string(),
                description: "".to_string(),
                text: "la la\nla".to_string(),
            },
            Frame::PictureFrame {
                id: "APIC".to_string(),
                mime_type: "image/png".to_string(),
                picture_type: 3,
                description: "front".to_string(),
                data: vec![0x89, b'P', b'N', b'G', 0, 1, 2, 0xFF],
            },
            Frame::LinkFrame {
                id: "WXXX".to_string(),
                description: "home".to_string(),
                url: "https://example.com/".to_string(),
            },
            Frame::TableOfContentsFrame {
                id: "CTOC".to_string(),
                element_id: "toc".to_string(),
                ordered: true,
                child_element_ids: vec!["chp1".to_string()],
            },
        ]
    );
    assert_eq!(
        tag.chapters,
        vec![Chapter {
            element_id: "chp1".to_string(),
            start_time_ms: 0,
            end_time_ms: 5000,
            sub_frames: vec![text("TIT2", "Intro")],
        }]
    );
}

#[test]
fn what_another_writer_wrote_in_version_four_is_read() {
    let mut file = Vec::new();
    theirs().write_to(&mut file, id3::Version::Id3v24).unwrap();
    file.extend_from_slice(b"\xFF\xFBaudio");
    check_ours(&decode(&file).unwrap(), Version::Id3v24);
}

#[test]
fn what_another_writer_wrote_in_version_three_is_read() {
    let mut file = Vec::new();
    theirs().write_to(&mut file, id3::Version::Id3v23).unwrap();
    file.extend_from_slice(b"\xFF\xFBaudio");
    check_ours(&decode(&file).unwrap(), Version::Id3v23);
}

#[test]
fn a_tag_passes_through_both_ways() {
    let mut file = Vec::new();
    theirs().write_to(&mut file, id3::Version::Id3v24).unwrap();
    file.extend_from_slice(b"\xFF\xFBaudio");
    let tag = decode(&file).unwrap();
    let rewritten = encode(&tag, &file).unwrap();
    assert_eq!(&rewritten[rewritten.len() - 7..], b"\xFF\xFBaudio");
    let read = id3::Tag::read_from2(Cursor::new(&rewritten)).unwrap();
    assert_eq!(read.title(), Some("A title"));
    assert_eq!(read.artist(), Some("\u{15b}\u{1ed1}\u{43c} \u{1F600}"));
    assert_eq!(read.chapters().count(), 1);
    assert_eq!(read.pictures().count(), 1);
}
