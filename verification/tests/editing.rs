use id3edit::{
    add_frame, clear, find_chapter, find_frame, frames_excluding, pictures, remove_frames, set_text,
    Chapter, Frame, Tag, Version,
};

fn text(id: &str, text: &str) -> Frame {
    Frame::TextFrame { id: id.to_string(), text: text.to_string() }
}

fn comment(text: &str) -> Frame {
    Frame::CommentFrame {
        id: "COMM".to_string(),
        language: "eng".to_string(),
        description: "".to_string(),
        text: text.to_string(),
    }
}

fn picture(data: &[u8]) -> Frame {
    Frame::PictureFrame {
        id: "APIC".to_string(),
        mime_type: "image/png".to_string(),
        picture_type: 3,
        description: "".to_string(),
        data: data.to_vec(),
    }
}

fn sample() -> Tag {
    Tag {
        version: Version::Id3v23,
        frames: vec![
            text("TPE1", "artist"),
            comment("c"),
            text("TIT2", "first"),
            picture(&[1]),
            text("TIT2", "second"),
            picture(&[2]),
        ],
        chapters: vec![Chapter {
            element_id: "chp1".to_string(),
            start_time_ms: 0,
            end_time_ms: 1,
            sub_frames: vec![text("TIT2", "in chapter")],
        }],
    }
}

#[test]
fn set_text_replaces_the_first_match() {
    let mut tag = sample();
    set_text(&mut tag, "TIT2", "X");
    let mut want = sample();
    want.frames[2] = text("TIT2", "X");
    assert_eq!(tag, want);
}

#[test]
fn set_text_adds_a_frame_where_there_is_none() {
    let mut tag = sample();
    set_text(&mut tag, "TALB", "album");
    let mut want = sample();
    want.frames.push(text("TALB", "album"));
    assert_eq!(tag, want);

    let mut empty = Tag::new();
    set_text(&mut empty, "TIT2", "X");
    assert_eq!(empty.frames, vec![text("TIT2", "X")]);
    assert_eq!(empty.version, Version::Id3v24);
}

#[test]
fn set_text_looks_at_text_frames_only() {
    let mut tag = sample();
    set_text(&mut tag, "COMM", "X");
    let mut want = sample();
    want.frames.push(text("COMM", "X"));
    assert_eq!(tag, want);
}

#[test]
fn set_text_twice_is_set_text_once() {
    for id in ["TIT2", "TALB", "TPE1"] {
        let mut once = sample();
        set_text(&mut once, id, "X");
        let mut twice = once.clone();
        set_text(&mut twice, id, "X");
        assert_eq!(twice, once);
        assert_eq!(twice.frames.len(), once.frames.len());
    }
}

#[test]
fn set_text_leaves_chapters_alone() {
    let mut tag = sample();
    set_text(&mut tag, "TIT2", "X");
    assert_eq!(tag.chapters, sample().chapters);
    assert_eq!(tag.version, Version::Id3v23);
}

#[test]
fn add_frame_appends_and_does_not_deduplicate() {
    let mut tag = sample();
    add_frame(&mut tag, text("TIT2", "first"));
    add_frame(&mut tag, text("TIT2", "first"));
    let mut want = sample();
    want.frames.push(text("TIT2", "first"));
    want.frames.push(text("TIT2", "first"));
    assert_eq!(tag, want);
    assert_eq!(tag.frames.len(), 8);
}

#[test]
fn clear_gives_a_fresh_tag_and_leaves_the_old() {
    let tag = sample();
    let fresh = clear(&tag);
    assert_eq!(fresh, Tag { frames: vec![], chapters: vec![], version: Version::Id3v24 });
    assert_eq!(fresh, Tag::new());
    assert_eq!(tag, sample());
}

#[test]
fn with_version_is_empty() {
    assert_eq!(
        Tag::with_version(Version::Id3v22),
        Tag { frames: vec![], chapters: vec![], version: Version::Id3v22 }
    );
}

#[test]
fn frames_excluding_keeps_the_order() {
    let tag = sample();
    let shown = frames_excluding(&tag, &["CHAP", "APIC"]);
    let want = vec![
        text("TPE1", "artist"),
        comment("c"),
        text("TIT2", "first"),
        text("TIT2", "second"),
    ];
    assert_eq!(shown.len(), 4);
    for (got, want) in shown.iter().zip(want.iter()) {
        assert_eq!(*got, want);
    }
    let all = frames_excluding(&tag, &[]);
    assert_eq!(all.len(), 6);
    let few = frames_excluding(&tag, &["TIT2", "TPE1", "COMM", "APIC", "TIT2"]);
    assert!(few.is_empty());
    let by_case = frames_excluding(&tag, &["tit2", "TIT"]);
    assert_eq!(by_case.len(), 6);
}

#[test]
fn frames_excluding_hands_out_the_frames_themselves() {
    let tag = sample();
    let shown = frames_excluding(&tag, &["APIC"]);
    assert!(std::ptr::eq(shown[0], &tag.frames[0]));
    assert!(std::ptr::eq(shown[3], &tag.frames[4]));
}

#[test]
fn pictures_are_the_picture_frames() {
    let tag = sample();
    let found = pictures(&tag);
    assert_eq!(found.len(), 2);
    assert_eq!(*found[0], picture(&[1]));
    assert_eq!(*found[1], picture(&[2]));
    assert!(pictures(&Tag::new()).is_empty());
}

#[test]
fn frame_id_names_the_frame() {
    assert_eq!(text("TALB", "x").id(), "TALB");
    assert_eq!(comment("x").id(), "COMM");
    assert_eq!(picture(&[]).id(), "APIC");
    assert_eq!(Frame::GenericFrame { id: "PRIV".to_string(), data: vec![] }.id(), "PRIV");
}

#[test]
fn find_frame_gives_the_first_with_the_identifier() {
    let tag = sample();
    assert_eq!(find_frame(&tag, "TIT2"), Some(&text("TIT2", "first")));
    assert!(std::ptr::eq(find_frame(&tag, "TIT2").unwrap(), &tag.frames[2]));
    assert_eq!(find_frame(&tag, "COMM"), Some(&comment("c")));
    assert_eq!(find_frame(&tag, "APIC"), Some(&picture(&[1])));
    assert_eq!(find_frame(&tag, "TALB"), None);
    assert_eq!(find_frame(&tag, "CHAP"), None);
    assert_eq!(find_frame(&Tag::new(), "TIT2"), None);
}

#[test]
fn find_chapter_goes_by_the_element_identifier() {
    let mut tag = sample();
    tag.chapters.push(Chapter {
        element_id: "chp2".to_string(),
        start_time_ms: 1,
        end_time_ms: 2,
        sub_frames: vec![],
    });
    tag.chapters.push(Chapter {
        element_id: "chp1".to_string(),
        start_time_ms: 7,
        end_time_ms: 8,
        sub_frames: vec![],
    });
    assert_eq!(find_chapter(&tag, "chp1").unwrap().start_time_ms, 0);
    assert_eq!(find_chapter(&tag, "chp2").unwrap().start_time_ms, 1);
    assert_eq!(find_chapter(&tag, "chp3"), None);
    assert_eq!(find_chapter(&tag, ""), None);
}

#[test]
fn remove_frames_takes_all_with_the_identifier() {
    let mut tag = sample();
    let removed = remove_frames(&mut tag, "TIT2");
    assert_eq!(removed, vec![text("TIT2", "first"), text("TIT2", "second")]);
    assert_eq!(
        tag.frames,
        vec![text("TPE1", "artist"), comment("c"), picture(&[1]), picture(&[2])]
    );
    assert_eq!(tag.chapters, sample().chapters);
    assert_eq!(tag.version, Version::Id3v23);

    let removed = remove_frames(&mut tag, "TIT2");
    assert!(removed.is_empty());
    assert_eq!(tag.frames.len(), 4);

    let removed = remove_frames(&mut tag, "APIC");
    assert_eq!(removed, vec![picture(&[1]), picture(&[2])]);
    let removed = remove_frames(&mut tag, "TPE1");
    assert_eq!(removed, vec![text("TPE1", "artist")]);
    let removed = remove_frames(&mut tag, "COMM");
    assert_eq!(removed, vec![comment("c")]);
    assert!(tag.frames.is_empty());
    assert!(remove_frames(&mut tag, "COMM").is_empty());
}
