//! The error taxonomy of the archive reader. Every error is terminal for the
//! operation that raised it; nothing is retried or recovered internally.

use vstd::prelude::*;

verus! {

/// An error raised by opening an archive or extracting a member.
#[derive(Clone, Copy, Debug, PartialEq, Eq, Structural)]
pub enum PboError {
    /// The first record of the archive does not carry the version mime tag.
    InvalidVersionMarker,
    /// A fixed-shape header record could not be decoded from the available
    /// bytes: the stream ended inside its fixed-width fields, or its mime
    /// code maps to no known tag.
    MalformedHeader,
    /// A null-terminated string ran to the end of the stream with no
    /// terminator seen.
    UnterminatedString,
    /// The stream ended before the empty key that terminates the property
    /// table.
    UnterminatedPropertyTable,
    /// The stream ended before the empty-filename sentinel that terminates
    /// the file directory.
    UnterminatedDirectory,
    /// Skipping the data blob and the separator byte, or reading the
    /// fixed-size checksum trailer, runs past the end of the source.
    TruncatedArchive,
    /// Bytes remain after the checksum trailer; the format defines no
    /// content there.
    TrailingData,
    /// The requested name is absent from the file directory.
    MemberNotFound,
    /// Fewer bytes are available at a member's computed offset than its
    /// directory entry declares. An archive validated by `open_file` places
    /// every member wholly inside the data blob, so extraction on such a
    /// handle never raises this.
    TruncatedMember,
}

/// The condition on which decoding one header record failed. The archive
/// reader maps it to a [`PboError`] according to where in the stream the
/// record was expected.
#[derive(Clone, Copy, Debug, PartialEq, Eq, Structural)]
pub enum HeaderError {
    /// The stream ended inside the mime tag or the four trailing integer
    /// fields.
    Truncated,
    /// The mime code maps to no known tag.
    UnknownMime,
    /// The filename ran to the end of the stream with no terminator.
    UnterminatedName,
}

} // verus!
