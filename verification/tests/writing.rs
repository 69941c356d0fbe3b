use id3edit::{decode, encode, Chapter, EncodeError, Frame, Tag, Version};

fn text(id: &str, text: &str) -> Frame {
    Frame::TextFrame { id: id.to_string(), text: text.to_string() }
}

fn tag_of(version: Version, frames: Vec<Frame>) -> Tag {
    Tag { frames, chapters: vec![], version }
}

fn rich(version: Version) -> Tag {
    Tag {
        version,
        frames: vec![
            text("TIT2", "A title"),
            text("TPE1", "\u{15b}\u{1ed1}\u{43c}\u{1F600}"),
            text("TALB", ""),
            text("TXXX", "key\u{0}value"),
            Frame::CommentFrame {
                id: "COMM".to_string(),
                language: "eng".to_string(),
                description: "".to_string(),
                text: "plain".to_string(),
            },
            Frame::CommentFrame {
                id: "COMM".to_string(),
                language: "jpn".to_string(),
                description: "\u{65e5}\u{672c}".to_string(),
                text: "\u{8a9e}, mixed with ascii".to_string(),
            },
            Frame::LyricsFrame {
                id: "USLT".to_string(),
                language: "deu".to_string(),
                description: "caf\u{e9}".to_string(),
                text: "line one\nline two".to_string(),
            },
            Frame::PictureFrame {
                id: "APIC".to_string(),
                mime_type: "image/png".to_string(),
                picture_type: 3,
                description: "front \u{2764}".to_string(),
                data: (0..=255u8).collect(),
            },
            Frame::LinkFrame {
                id: "WXXX".to_string(),
                description: "home".to_string(),
                url: "https://example.com/?q=\u{e9}".to_string(),
            },
            Frame::TableOfContentsFrame {
                id: "CTOC".to_string(),
                element_id: "toc".to_string(),
                ordered: true,
                child_element_ids: vec!["chp1".to_string(), "chp2".to_string()],
            },
            Frame::TableOfContentsFrame {
                id: "CTOC".to_string(),
                element_id: "t2".to_string(),
                ordered: false,
                child_element_ids: vec![],
            },
            Frame::GenericFrame { id: "PRIV".to_string(), data: vec![0, 0, 0, 0, 1, 0xFF] },
            Frame::GenericFrame { id: "WOAR".to_string(), data: vec![] },
            text("TIT2", "A second title"),
        ],
        chapters: vec![
            Chapter {
                element_id: "chp1".to_string(),
                start_time_ms: 0,
                end_time_ms: 5000,
                sub_frames: vec![
                    text("TIT2", "Intro"),
                    Frame::PictureFrame {
                        id: "APIC".to_string(),
                        mime_type: "image/jpeg".to_string(),
                        picture_type: 0,
                        description: "".to_string(),
                        data: vec![0xFF, 0xD8, 0xFF, 0x00],
                    },
                    Frame::LinkFrame {
                        id: "WXXX".to_string(),
                        description: "".to_string(),
                        url: "http://x".to_string(),
                    },
                    Frame::GenericFrame { id: "CHAP".to_string(), data: vec![1, 2, 3] },
                ],
            },
            Chapter {
                element_id: "chp2".to_string(),
                start_time_ms: 5000,
                end_time_ms: 5000,
                sub_frames: vec![],
            },
        ],
    }
}

#[test]
fn a_title_in_version_three_byte_for_byte() {
    let tag = tag_of(Version::Id3v23, vec![text("TIT2", "Hi")]);
    assert_eq!(
        encode(&tag, b"\xFF\xFBaudio").unwrap(),
        b"ID3\x03\x00\x00\x00\x00\x00\x0DTIT2\x00\x00\x00\x03\x00\x00\x00Hi\xFF\xFBaudio".to_vec()
    );
}

#[test]
fn latin1_where_it_fits() {
    let tag = tag_of(Version::Id3v24, vec![text("TIT2", "caf\u{e9}")]);
    assert_eq!(
        encode(&tag, b"").unwrap(),
        b"ID3\x04\x00\x00\x00\x00\x00\x0FTIT2\x00\x00\x00\x05\x00\x00\x00caf\xE9".to_vec()
    );
}

#[test]
fn utf8_in_version_four_where_latin1_does_not_fit() {
    let tag = tag_of(Version::Id3v24, vec![text("TIT2", "\u{43c}\u{1F600}")]);
    assert_eq!(
        encode(&tag, b"").unwrap(),
        b"ID3\x04\x00\x00\x00\x00\x00\x11TIT2\x00\x00\x00\x07\x00\x00\x03\xD0\xBC\xF0\x9F\x98\x80"
            .to_vec()
    );
}

#[test]
fn utf16_before_version_four_where_latin1_does_not_fit() {
    for (version, major) in [(Version::Id3v22, 2u8), (Version::Id3v23, 3u8)] {
        let tag = tag_of(version, vec![text("TIT2", "\u{43c}\u{1F600}")]);
        let mut want = vec![b'I', b'D', b'3', major, 0, 0, 0, 0, 0, 0x13];
        want.extend_from_slice(b"TIT2\x00\x00\x00\x09\x00\x00\x01\xFF\xFE\x3C\x04\x3D\xD8\x00\xDE");
        assert_eq!(encode(&tag, b"").unwrap(), want);
    }
}

#[test]
fn a_comment_byte_for_byte() {
    let comment = |description: &str, text: &str| Frame::CommentFrame {
        id: "COMM".to_string(),
        language: "eng".to_string(),
        description: description.to_string(),
        text: text.to_string(),
    };
    assert_eq!(
        encode(&tag_of(Version::Id3v23, vec![comment("d", "t")]), b"").unwrap()[10..].to_vec(),
        b"COMM\x00\x00\x00\x07\x00\x00\x00engd\x00t".to_vec()
    );
    assert_eq!(
        encode(&tag_of(Version::Id3v23, vec![comment("", "\u{43c}")]), b"").unwrap()[10..].to_vec(),
        b"COMM\x00\x00\x00\x0C\x00\x00\x01eng\xFF\xFE\x00\x00\xFF\xFE\x3C\x04".to_vec()
    );
    assert_eq!(
        encode(&tag_of(Version::Id3v24, vec![comment("\u{43c}", "t")]), b"").unwrap()[10..]
            .to_vec(),
        b"COMM\x00\x00\x00\x08\x00\x00\x03eng\xD0\xBC\x00t".to_vec()
    );
}

#[test]
fn a_picture_a_link_and_a_table_byte_for_byte() {
    let picture = Frame::PictureFrame {
        id: "APIC".to_string(),
        mime_type: "image/png".to_string(),
        picture_type: 3,
        description: "c".to_string(),
        data: vec![1, 0, 2],
    };
    assert_eq!(
        encode(&tag_of(Version::Id3v23, vec![picture]), b"").unwrap()[10..].to_vec(),
        b"APIC\x00\x00\x00\x11\x00\x00\x00image/png\x00\x03c\x00\x01\x00\x02".to_vec()
    );
    let link = Frame::LinkFrame {
        id: "WXXX".to_string(),
        description: "\u{43c}".to_string(),
        url: "http://a".to_string(),
    };
    assert_eq!(
        encode(&tag_of(Version::Id3v23, vec![link]), b"").unwrap()[10..].to_vec(),
        b"WXXX\x00\x00\x00\x0F\x00\x00\x01\xFF\xFE\x3C\x04\x00\x00http://a".to_vec()
    );
    let table = |ordered: bool| Frame::TableOfContentsFrame {
        id: "CTOC".to_string(),
        element_id: "toc".to_string(),
        ordered,
        child_element_ids: vec!["a".to_string(), "bc".to_string()],
    };
    assert_eq!(
        encode(&tag_of(Version::Id3v23, vec![table(true)]), b"").unwrap()[10..].to_vec(),
        b"CTOC\x00\x00\x00\x0B\x00\x00toc\x00\x03\x02a\x00bc\x00".to_vec()
    );
    assert_eq!(
        encode(&tag_of(Version::Id3v23, vec![table(false)]), b"").unwrap()[10..].to_vec(),
        b"CTOC\x00\x00\x00\x0B\x00\x00toc\x00\x02\x02a\x00bc\x00".to_vec()
    );
}

#[test]
fn a_chapter_byte_for_byte() {
    let tag = Tag {
        version: Version::Id3v23,
        frames: vec![text("TIT2", "t")],
        chapters: vec![Chapter {
            element_id: "chp1".to_string(),
            start_time_ms: 1,
            end_time_ms: 0x0102_0304,
            sub_frames: vec![text("TIT2", "Intro")],
        }],
    };
    let mut want = b"ID3\x03\x00\x00\x00\x00\x00\x3B".to_vec();
    want.extend_from_slice(b"TIT2\x00\x00\x00\x02\x00\x00\x00t");
    want.extend_from_slice(b"CHAP\x00\x00\x00\x25\x00\x00chp1\x00");
    want.extend_from_slice(b"\x00\x00\x00\x01\x01\x02\x03\x04\xFF\xFF\xFF\xFF\xFF\xFF\xFF\xFF");
    want.extend_from_slice(b"TIT2\x00\x00\x00\x06\x00\x00\x00Intro");
    assert_eq!(encode(&tag, b"").unwrap(), want);
}

#[test]
fn sizes_in_version_four_are_synchsafe() {
    let tag = tag_of(Version::Id3v24, vec![text("TIT2", &"x".repeat(299))]);
    let bytes = encode(&tag, b"").unwrap();
    assert_eq!(&bytes[6..10], &[0, 0, 2, 54]);
    assert_eq!(&bytes[14..18], &[0, 0, 2, 44]);
    let tag = tag_of(Version::Id3v23, vec![text("TIT2", &"x".repeat(299))]);
    let bytes = encode(&tag, b"").unwrap();
    assert_eq!(&bytes[6..10], &[0, 0, 2, 54]);
    assert_eq!(&bytes[14..18], &[0, 0, 1, 44]);
}

#[test]
fn round_trip_of_a_rich_tag() {
    let audio: Vec<u8> = (0..2000u32).map(|i| (i * 7 % 251) as u8).collect();
    for version in [Version::Id3v22, Version::Id3v23, Version::Id3v24] {
        let tag = rich(version);
        let file = encode(&tag, &audio).unwrap();
        assert_eq!(decode(&file).unwrap(), tag);
        assert_eq!(&file[file.len() - audio.len()..], &audio[..]);
        let again = encode(&tag, &file).unwrap();
        assert_eq!(again, file);
    }
}

#[test]
fn the_old_tag_goes_and_the_audio_stays() {
    let audio = b"\xFF\xFB\x90\x00audio ID3 audio".to_vec();
    let old = encode(&rich(Version::Id3v23), &audio).unwrap();
    let new_tag = tag_of(Version::Id3v24, vec![text("TIT2", "New")]);
    let new = encode(&new_tag, &old).unwrap();
    let mut want = b"ID3\x04\x00\x00\x00\x00\x00\x0ETIT2\x00\x00\x00\x04\x00\x00\x00New".to_vec();
    want.extend_from_slice(&audio);
    assert_eq!(new, want);
    assert_eq!(decode(&new).unwrap(), new_tag);
}

#[test]
fn a_file_without_tag_gets_one_in_front() {
    let tag = tag_of(Version::Id3v23, vec![text("TIT2", "Hi")]);
    let file = encode(&tag, b"RIFFdata").unwrap();
    assert_eq!(&file[..10], b"ID3\x03\x00\x00\x00\x00\x00\x0D");
    assert_eq!(&file[file.len() - 8..], b"RIFFdata");
    assert_eq!(file.len(), 10 + 13 + 8);
}

#[test]
fn an_old_tag_of_any_version_is_replaced() {
    let tag = tag_of(Version::Id3v23, vec![text("TIT2", "Hi")]);
    let file = encode(&tag, b"ID3\x09\x00\x00\x00\x00\x00\x03abcAUDIO").unwrap();
    assert_eq!(&file[file.len() - 5..], b"AUDIO");
    assert_eq!(file.len(), 10 + 13 + 5);
}

#[test]
fn an_announced_tag_longer_than_the_file_is_missing_audio() {
    let tag = tag_of(Version::Id3v23, vec![text("TIT2", "Hi")]);
    assert_eq!(encode(&tag, b"ID3"), Err(EncodeError::MissingAudioPayload));
    assert_eq!(encode(&tag, b"ID3\x03\x00\x00\x00\x00\x00"), Err(EncodeError::MissingAudioPayload));
    assert_eq!(
        encode(&tag, b"ID3\x03\x00\x00\x00\x00\x00\x04abc"),
        Err(EncodeError::MissingAudioPayload)
    );
    assert_eq!(
        encode(&tag, b"ID3\x03\x00\x00\x00\x00\x00\x03abc").unwrap().len(),
        10 + 13
    );
}

fn refused(frame: Frame) {
    let tag = tag_of(Version::Id3v23, vec![frame]);
    assert_eq!(encode(&tag, b"audio"), Err(EncodeError::InvalidTag));
}

#[test]
fn identifiers_that_are_none_are_refused() {
    refused(text("TIT", "x"));
    refused(text("TIT22", "x"));
    refused(text("", "x"));
    refused(text("T\u{e9}T2", "x"));
    refused(text("XIT2", "x"));
    refused(Frame::GenericFrame { id: "\u{0}\u{0}\u{0}\u{0}".to_string(), data: vec![] });
    refused(Frame::GenericFrame { id: "PRI".to_string(), data: vec![] });
    refused(Frame::GenericFrame { id: "PR\u{1F600}".to_string(), data: vec![] });
}

#[test]
fn a_frame_under_the_identifier_of_another_variant_is_refused() {
    refused(Frame::GenericFrame { id: "TIT2".to_string(), data: vec![0, 65] });
    refused(Frame::GenericFrame { id: "COMM".to_string(), data: vec![] });
    refused(Frame::GenericFrame { id: "USLT".to_string(), data: vec![] });
    refused(Frame::GenericFrame { id: "APIC".to_string(), data: vec![] });
    refused(Frame::GenericFrame { id: "WXXX".to_string(), data: vec![] });
    refused(Frame::GenericFrame { id: "CTOC".to_string(), data: vec![] });
    refused(Frame::GenericFrame { id: "CHAP".to_string(), data: vec![] });
    refused(text("COMM", "x"));
    refused(Frame::CommentFrame {
        id: "USLT".to_string(),
        language: "eng".to_string(),
        description: "".to_string(),
        text: "".to_string(),
    });
    refused(Frame::LyricsFrame {
        id: "COMM".to_string(),
        language: "eng".to_string(),
        description: "".to_string(),
        text: "".to_string(),
    });
    refused(Frame::LinkFrame {
        id: "WOAR".to_string(),
        description: "".to_string(),
        url: "".to_string(),
    });
}

#[test]
fn fields_that_would_not_read_back_are_refused() {
    refused(text("TIT2", "ends in nul\u{0}"));
    let comment = |language: &str, description: &str, text: &str| Frame::CommentFrame {
        id: "COMM".to_string(),
        language: language.to_string(),
        description: description.to_string(),
        text: text.to_string(),
    };
    refused(comment("en", "", ""));
    refused(comment("engl", "", ""));
    refused(comment("\u{43c}ng", "", ""));
    refused(comment("eng", "a\u{0}b", ""));
    refused(comment("eng", "", "x\u{0}"));
    refused(Frame::PictureFrame {
        id: "APIC".to_string(),
        mime_type: "image/\u{43c}".to_string(),
        picture_type: 0,
        description: "".to_string(),
        data: vec![],
    });
    refused(Frame::PictureFrame {
        id: "APIC".to_string(),
        mime_type: "image\u{0}png".to_string(),
        picture_type: 0,
        description: "".to_string(),
        data: vec![],
    });
    refused(Frame::PictureFrame {
        id: "APIC".to_string(),
        mime_type: "image/png".to_string(),
        picture_type: 0,
        description: "\u{0}".to_string(),
        data: vec![],
    });
    refused(Frame::LinkFrame {
        id: "WXXX".to_string(),
        description: "".to_string(),
        url: "http://\u{43c}".to_string(),
    });
    refused(Frame::TableOfContentsFrame {
        id: "CTOC".to_string(),
        element_id: "t\u{0}c".to_string(),
        ordered: false,
        child_element_ids: vec![],
    });
    refused(Frame::TableOfContentsFrame {
        id: "CTOC".to_string(),
        element_id: "toc".to_string(),
        ordered: false,
        child_element_ids: vec!["ok".to_string(), "\u{1F600}".to_string()],
    });
    refused(Frame::TableOfContentsFrame {
        id: "CTOC".to_string(),
        element_id: "toc".to_string(),
        ordered: false,
        child_element_ids: (0..256).map(|i| format!("c{}", i)).collect(),
    });
}

#[test]
fn a_table_of_255_entries_is_written() {
    let names: Vec<String> = (0..255).map(|i| format!("c{}", i)).collect();
    let tag = tag_of(
        Version::Id3v24,
        vec![Frame::TableOfContentsFrame {
            id: "CTOC".to_string(),
            element_id: "toc".to_string(),
            ordered: true,
            child_element_ids: names,
        }],
    );
    assert_eq!(decode(&encode(&tag, b"").unwrap()).unwrap(), tag);
}

#[test]
fn chapters_that_break_the_model_are_refused() {
    let chapter = |element_id: &str, start: u32, end: u32, sub_frames: Vec<Frame>| Tag {
        version: Version::Id3v23,
        frames: vec![],
        chapters: vec![Chapter {
            element_id: element_id.to_string(),
            start_time_ms: start,
            end_time_ms: end,
            sub_frames,
        }],
    };
    assert!(encode(&chapter("c", 5, 5, vec![]), b"").is_ok());
    assert_eq!(encode(&chapter("c", 6, 5, vec![]), b""), Err(EncodeError::InvalidTag));
    assert_eq!(encode(&chapter("c\u{0}", 0, 5, vec![]), b""), Err(EncodeError::InvalidTag));
    assert_eq!(encode(&chapter("\u{43c}", 0, 5, vec![]), b""), Err(EncodeError::InvalidTag));
    assert_eq!(
        encode(&chapter("c", 0, 5, vec![text("XXXX", "x")]), b""),
        Err(EncodeError::InvalidTag)
    );
    assert!(encode(
        &chapter("c", 0, 5, vec![Frame::GenericFrame { id: "CHAP".to_string(), data: vec![] }]),
        b""
    )
    .is_ok());
}

#[test]
fn an_invalid_tag_comes_before_missing_audio() {
    let tag = tag_of(Version::Id3v23, vec![text("bad", "x")]);
    assert_eq!(encode(&tag, b"ID3"), Err(EncodeError::InvalidTag));
}

#[test]
fn a_tag_too_large_for_its_size_field_is_refused() {
    let big = Frame::GenericFrame { id: "PRIV".to_string(), data: vec![0u8; 0x0FFF_FFF6] };
    let tag = tag_of(Version::Id3v23, vec![big]);
    assert_eq!(encode(&tag, b""), Err(EncodeError::InvalidTag));
    let fits = Frame::GenericFrame { id: "PRIV".to_string(), data: vec![0u8; 0x0FFF_FFF5] };
    let tag = tag_of(Version::Id3v23, vec![fits]);
    let file = encode(&tag, b"").unwrap();
    assert_eq!(file.len(), 10 + 0x0FFF_FFFF);
    assert_eq!(&file[6..10], &[0x7F, 0x7F, 0x7F, 0x7F]);
}
