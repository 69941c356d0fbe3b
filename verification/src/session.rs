//! An editing session: the file that was picked and the tag as it stands
//! after the edits.
//!
//! A session is empty until a file is loaded. A loaded file whose tag is
//! then changed makes the session modified. Loading another file starts
//! over with that file, and clearing empties the session. A file that cannot
//! be read, or a tag that cannot be written, leaves the session as it was.

use crate::decode::decode;
use crate::edit::{set_text, spec_set_text};
use crate::encode::encode;
use crate::error::{DecodeError, EncodeError};
use crate::read_spec::spec_decode;
use crate::round_trip::{lemma_readable_file_takes_tag, readable};
use crate::tag::{Tag, TagView};
use crate::write_spec::{spec_encode, writable};
use vstd::prelude::*;

verus! {

/// Where a session stands.
#[derive(Clone, Copy, Debug, PartialEq, Eq, Structural)]
pub enum Stage {
    /// No file is loaded.
    Empty,
    /// A file is loaded and its tag is as it was read.
    Loaded,
    /// A file is loaded and its tag was changed since.
    Modified,
}

/// What a session holds.
#[derive(Clone, Debug, PartialEq, Eq)]
pub struct Session {
    /// The tag being edited; `None` while no file is loaded.
    pub tag: Option<Tag>,
    /// Whether the tag was changed since the file was loaded.
    pub modified: bool,
    /// The name of the file.
    pub name: String,
    /// The bytes of the file as it was loaded.
    pub bytes: Vec<u8>,
}

/// What a `Session` is.
pub struct SessionView {
    pub tag: Option<TagView>,
    pub modified: bool,
    pub name: Seq<char>,
    pub bytes: Seq<u8>,
}

impl SessionView {
    /// The session without a file.
    pub open spec fn empty() -> SessionView {
        SessionView { tag: None, modified: false, name: Seq::empty(), bytes: Seq::empty() }
    }

    /// The session right after `file` was loaded under `name` and gave the
    /// tag `tag`.
    pub open spec fn loaded(name: Seq<char>, file: Seq<u8>, tag: TagView) -> SessionView {
        SessionView { tag: Some(tag), modified: false, name, bytes: file }
    }

    /// Where the session stands.
    pub open spec fn stage(self) -> Stage {
        match self.tag {
            None => Stage::Empty,
            Some(_) => if self.modified {
                Stage::Modified
            } else {
                Stage::Loaded
            },
        }
    }

    /// Whether the session is one that the operations lead to: without a
    /// file it holds nothing at all, and the file it holds is one that a tag
    /// was read from or that has none.
    pub open spec fn well_formed(self) -> bool {
        match self.tag {
            None => self == SessionView::empty(),
            Some(_) => readable(self.bytes),
        }
    }

    /// The session after an attempt to load `file` under `name`: it holds
    /// the file and its tag, an empty tag where the file has none, and is
    /// as before where the tag of the file cannot be read.
    pub open spec fn after_load(self, name: Seq<char>, file: Seq<u8>) -> SessionView {
        match spec_decode(file) {
            Ok(tag) => SessionView::loaded(name, file, tag),
            Err(DecodeError::NoTagFound) => SessionView::loaded(name, file, TagView::empty()),
            Err(_) => self,
        }
    }

    /// The session after a text field was set: the tag has the field and
    /// counts as modified; without a file nothing changes.
    pub open spec fn after_set_text(self, id: Seq<char>, value: Seq<char>) -> SessionView {
        match self.tag {
            Some(tag) => SessionView {
                tag: Some(spec_set_text(tag, id, value)),
                modified: true,
                ..self
            },
            None => self,
        }
    }
}

impl View for Session {
    type V = SessionView;

    open spec fn view(&self) -> SessionView {
        SessionView {
            tag: match self.tag {
                Some(tag) => Some(tag@),
                None => None,
            },
            modified: self.modified,
            name: self.name@,
            bytes: self.bytes@,
        }
    }
}

impl Default for Session {
    fn default() -> (s: Session)
        ensures
            s@ == SessionView::empty(),
    {
        Session::new()
    }
}

impl Session {
    /// A session without a file.
    pub fn new() -> (s: Session)
        ensures
            s@ == SessionView::empty(),
            s@.stage() == Stage::Empty,
            s@.well_formed(),
    {
        Session { tag: None, modified: false, name: String::new(), bytes: Vec::new() }
    }

    /// Where the session stands.
    pub fn stage(&self) -> (r: Stage)
        ensures
            r == self@.stage(),
    {
        match &self.tag {
            None => Stage::Empty,
            Some(_) => if self.modified {
                Stage::Modified
            } else {
                Stage::Loaded
            },
        }
    }

    /// Loads a file. Where its tag can be read, the session holds the file
    /// and the tag; a file without tag starts with an empty one. Where the
    /// tag cannot be read, the error comes back and the session stays as it
    /// was.
    pub fn load(&mut self, name: &str, bytes: Vec<u8>) -> (r: Result<(), DecodeError>)
        ensures
            final(self)@ == old(self)@.after_load(name@, bytes@),
            match spec_decode(bytes@) {
                Ok(_) => r is Ok,
                Err(DecodeError::NoTagFound) => r is Ok,
                Err(e) => r == Err::<(), DecodeError>(e),
            },
            r is Ok ==> final(self)@.stage() == Stage::Loaded,
            old(self)@.well_formed() ==> final(self)@.well_formed(),
    {
        let tag: Tag = match decode(bytes.as_slice()) {
            Ok(tag) => tag,
            Err(DecodeError::NoTagFound) => Tag::new(),
            Err(e) => { return Err(e); },
        };
        self.tag = Some(tag);
        self.modified = false;
        self.name = name.to_owned();
        self.bytes = bytes;
        Ok(())
    }

    /// Sets a text field of the tag and marks the session as modified.
    /// Without a file there is no tag to change, and nothing happens.
    pub fn set_text(&mut self, frame_id: &str, value: &str)
        ensures
            final(self)@ == old(self)@.after_set_text(frame_id@, value@),
            old(self)@.stage() == Stage::Empty ==> final(self)@.stage() == Stage::Empty,
            old(self)@.stage() != Stage::Empty ==> final(self)@.stage() == Stage::Modified,
            old(self)@.well_formed() ==> final(self)@.well_formed(),
    {
        match &mut self.tag {
            Some(tag) => {
                set_text(tag, frame_id, value);
                self.modified = true;
            },
            None => {},
        }
    }

    /// Empties the session.
    pub fn clear(&mut self)
        ensures
            final(self)@ == SessionView::empty(),
            final(self)@.stage() == Stage::Empty,
            final(self)@.well_formed(),
    {
        self.tag = None;
        self.modified = false;
        self.name = String::new();
        self.bytes = Vec::new();
    }

    /// The file with the tag as it stands now in place of the tag it was
    /// loaded with, or `None` without a file. The session stays as it is,
    /// whether the tag can be written or not. In a session that the
    /// operations led to, the audio is never missing, and the file that
    /// comes out reads back as the tag of the session.
    pub fn save(&self) -> (r: Option<Result<Vec<u8>, EncodeError>>)
        ensures
            match self@.tag {
                None => r is None,
                Some(tag) => match spec_encode(tag, self@.bytes) {
                    Ok(file) => r matches Some(Ok(out)) && out@ == file,
                    Err(e) => r == Some(Err::<Vec<u8>, EncodeError>(e)),
                },
            },
            self@.well_formed() ==> r != Some(
                Err::<Vec<u8>, EncodeError>(EncodeError::MissingAudioPayload),
            ),
            self@.well_formed() ==> (r matches Some(Ok(out)) ==> spec_decode(out@) == Ok::<
                TagView,
                DecodeError,
            >(self@.tag.unwrap())),
    {
        match &self.tag {
            None => None,
            Some(tag) => {
                proof {
                    if self@.well_formed() && writable(tag@) {
                        lemma_readable_file_takes_tag(tag@, self@.bytes);
                    }
                }
                Some(encode(tag, self.bytes.as_slice()))
            },
        }
    }
}

} // verus!
