use id3edit::{encode, DecodeError, EncodeError, Frame, Session, Stage, Tag, Version};

fn text(id: &str, text: &str) -> Frame {
    Frame::TextFrame { id: id.to_string(), text: text.to_string() }
}

fn a_file(title: &str, audio: &[u8]) -> Vec<u8> {
    let tag = Tag { frames: vec![text("TIT2", title)], chapters: vec![], version: Version::Id3v23 };
    encode(&tag, audio).unwrap()
}

#[test]
fn a_session_starts_empty() {
    let session = Session::new();
    assert_eq!(session.stage(), Stage::Empty);
    assert_eq!(session.tag, None);
    assert_eq!(session.name, "");
    assert!(session.bytes.is_empty());
    assert_eq!(session, Session::default());
    assert_eq!(session.save(), None);
}

#[test]
fn loading_a_file_gives_its_tag() {
    let file = a_file("one", b"audio");
    let mut session = Session::new();
    assert_eq!(session.load("a.mp3", file.clone()), Ok(()));
    assert_eq!(session.stage(), Stage::Loaded);
    assert_eq!(session.name, "a.mp3");
    assert_eq!(session.bytes, file);
    assert_eq!(session.tag.as_ref().unwrap().frames, vec![text("TIT2", "one")]);
    assert_eq!(session.save(), Some(Ok(file)));
}

#[test]
fn a_file_without_tag_starts_with_an_empty_one() {
    let mut session = Session::new();
    assert_eq!(session.load("raw.mp3", b"\xFF\xFBaudio".to_vec()), Ok(()));
    assert_eq!(session.stage(), Stage::Loaded);
    assert_eq!(session.tag, Some(Tag::new()));
    assert_eq!(session.bytes, b"\xFF\xFBaudio".to_vec());
    assert_eq!(
        session.save(),
        Some(Ok(b"ID3\x04\x00\x00\x00\x00\x00\x00\xFF\xFBaudio".to_vec()))
    );
}

#[test]
fn a_file_that_cannot_be_read_leaves_the_session() {
    let mut session = Session::new();
    assert_eq!(session.load("bad.mp3", b"ID3\x03".to_vec()), Err(DecodeError::Truncated));
    assert_eq!(session, Session::new());

    session.load("a.mp3", a_file("one", b"audio")).unwrap();
    session.set_text("TIT2", "changed");
    let before = session.clone();
    assert_eq!(session.load("bad.mp3", b"ID3\x07\x00\x00\x00\x00\x00\x00".to_vec()), Err(DecodeError::UnsupportedVersion));
    assert_eq!(session, before);
    assert_eq!(session.load("bad.mp3", b"ID3\x03\x00\x00\x00\x00\x00\x09".to_vec()), Err(DecodeError::Truncated));
    assert_eq!(session, before);
    assert_eq!(session.stage(), Stage::Modified);
}

#[test]
fn an_edit_makes_the_session_modified() {
    let mut session = Session::new();
    session.load("a.mp3", a_file("one", b"audio")).unwrap();
    session.set_text("TIT2", "two");
    assert_eq!(session.stage(), Stage::Modified);
    session.set_text("TALB", "album");
    assert_eq!(session.stage(), Stage::Modified);
    assert_eq!(
        session.tag.as_ref().unwrap().frames,
        vec![text("TIT2", "two"), text("TALB", "album")]
    );
    let saved = session.save().unwrap().unwrap();
    assert_eq!(&saved[saved.len() - 5..], b"audio");
    let mut again = Session::new();
    again.load("b.mp3", saved).unwrap();
    assert_eq!(again.tag, session.tag);
    assert_eq!(again.stage(), Stage::Loaded);
}

#[test]
fn an_edit_without_a_file_does_nothing() {
    let mut session = Session::new();
    session.set_text("TIT2", "two");
    assert_eq!(session, Session::new());
    assert_eq!(session.stage(), Stage::Empty);
}

#[test]
fn loading_another_file_starts_over() {
    let mut session = Session::new();
    session.load("a.mp3", a_file("one", b"audio a")).unwrap();
    session.set_text("TIT2", "changed");
    session.load("b.mp3", a_file("two", b"audio b")).unwrap();
    assert_eq!(session.stage(), Stage::Loaded);
    assert_eq!(session.name, "b.mp3");
    assert_eq!(session.tag.as_ref().unwrap().frames, vec![text("TIT2", "two")]);
    assert_eq!(session.bytes, a_file("two", b"audio b"));
}

#[test]
fn clearing_empties_the_session() {
    let mut session = Session::new();
    session.load("a.mp3", a_file("one", b"audio")).unwrap();
    session.set_text("TIT2", "changed");
    session.clear();
    assert_eq!(session, Session::new());
    assert_eq!(session.stage(), Stage::Empty);
    session.clear();
    assert_eq!(session, Session::new());
}

#[test]
fn a_tag_that_cannot_be_written_leaves_the_session() {
    let mut session = Session::new();
    session.load("a.mp3", a_file("one", b"audio")).unwrap();
    session.set_text("COMM", "not a text frame");
    let before = session.clone();
    assert_eq!(session.save(), Some(Err(EncodeError::InvalidTag)));
    assert_eq!(session, before);
}
