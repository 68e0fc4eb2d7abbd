//! Error kinds shared by every operation of the crate.

use vstd::prelude::*;

verus! {

/// The error type of every fallible operation in this crate.
///
/// Each variant is a distinct failure condition; payloads carry a
/// human-readable detail message where one exists.
#[derive(Debug)]
pub enum UpNextError {
    /// A failure that fits no other kind, with a message.
    GenericError(String),
    /// A file or directory access failure, with the underlying message.
    IoError(String),
    /// The external player exited abnormally, with the underlying message.
    VlcError(String),
    /// The external player executable could not be found.
    VlcCommandNotFoundError,
    /// The configuration document is structurally invalid: unparsable, or a
    /// field has the wrong shape.
    SchemaError(String),
    /// No tracked entry exists for the requested location.
    MissingSeries,
    /// The requested location is already tracked.
    SeriesAlreadyExists,
    /// The requested episode index exceeds the number of available files.
    SeriesOver,
    /// The target file name does not contain the expected episode number and
    /// the user declined to play it anyway.
    WrongEpisodeNumber,
    /// A requested operation is not implemented.
    Unimplemented,
}

} // verus!
