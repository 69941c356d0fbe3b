//! Reading, editing and writing ID3v2 metadata blocks of MP3 files.
//!
//! A file is a run of bytes that may open with a tag: a header, then frames
//! such as title, artist, comments, pictures and chapter markers. `decode`
//! reads the tag into a [`Tag`], the functions of [`edit`] change it, those
//! of [`query`] and [`display`] look into it, and `encode` writes it back in
//! front of the audio, which stays byte for byte as it was.
//!
//! The layout is stated twice as mathematics, once for reading
//! ([`read_spec`]) and once for writing ([`write_spec`]); [`round_trip`]
//! proves that what is written reads back, [`read_ok`] that what is read can
//! be written, and [`read_laws`] that a size running past the end of the
//! bytes is reported and never followed.
//!
//! Four calls are taken on trust, each behind a private function that says
//! what is claimed of it: `String::push`, `char::from_u32` and
//! `std::str::from_utf8` in [`text_read`], and the base64 encoder in
//! [`display`]. The rest is proved, on the specifications that vstd gives
//! the standard library.

pub mod decode;
pub mod display;
pub mod edit;
pub mod encode;
pub mod error;
pub mod frame;
pub mod layout;
pub mod query;
pub mod read_laws;
pub mod read_ok;
pub mod read_spec;
pub mod round_trip;
pub mod session;
pub mod strings;
pub mod synchsafe;
pub mod tag;
pub mod text;
pub mod text_laws;
pub mod text_read;
pub mod text_write;
pub mod valid;
pub mod write_laws;
pub mod write_spec;

pub use crate::decode::decode;
pub use crate::edit::{add_frame, clear, remove_frames, set_text};
pub use crate::encode::encode;
pub use crate::error::{DecodeError, EncodeError};
pub use crate::frame::{Frame, Version};
pub use crate::query::{find_chapter, find_frame, frames_excluding, pictures};
pub use crate::session::{Session, Stage};
pub use crate::synchsafe::{synchsafe, unsynchsafe};
pub use crate::tag::{Chapter, Tag};
