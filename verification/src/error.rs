//! What reading and writing a tag can fail with.

use vstd::prelude::*;

verus! {

/// Why a buffer could not be read as a tag.
#[derive(Clone, Copy, Debug, PartialEq, Eq, Structural)]
pub enum DecodeError {
    /// The buffer does not open with the `ID3` marker: the file carries no tag.
    NoTagFound,
    /// The marker is there, but what follows breaks off or does not fit the
    /// layout of a tag: a size that runs past the end of the buffer, a field
    /// that is missing or cannot be read, a value the model rules out.
    Truncated,
    /// The tag names a major version other than 2, 3 or 4.
    UnsupportedVersion,
}

/// Why a tag could not be written.
#[derive(Clone, Copy, Debug, PartialEq, Eq, Structural)]
pub enum EncodeError {
    /// The file announces a tag that is longer than the file itself, so
    /// there is no audio to carry over.
    MissingAudioPayload,
    /// The tag breaks an invariant of the model or is too large for the
    /// size field of the format.
    InvalidTag,
}

} // verus!
