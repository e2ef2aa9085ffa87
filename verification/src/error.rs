//! The ways in which building, storing or loading an index can fail.

use vstd::prelude::*;

verus! {

/// Every failure is reported to the caller as a value; none stops the process.
#[derive(Clone, Copy, Debug, PartialEq, Eq, Structural)]
pub enum Error {
    /// The source text is not a readable table of records.
    MalformedSourceRecord,
    /// Two documents of the corpus carry the same identifier.
    DuplicateDocumentId,
    /// The stored index starts with a version tag other than the one this
    /// library writes.
    UnsupportedFormatVersion,
    /// The stored index ends too early, holds stray bytes, or breaks an
    /// invariant of the index.
    TruncatedOrCorruptPayload,
    /// The codec refused the compressed bytes: they are damaged, or another
    /// codec wrote them.
    DecompressionFailure,
    /// The codec reported a failure while compressing.
    CompressionFailure,
}

impl Error {
    /// A short description for messages and logs.
    pub fn message(&self) -> (out: &'static str)
        ensures
            out@ == match *self {
                Error::MalformedSourceRecord => "malformed source record"@,
                Error::DuplicateDocumentId => "duplicate document id"@,
                Error::UnsupportedFormatVersion => "unsupported format version"@,
                Error::TruncatedOrCorruptPayload => "truncated or corrupt payload"@,
                Error::DecompressionFailure => "decompression failure"@,
                Error::CompressionFailure => "compression failure"@,
            },
    {
        match self {
            Error::MalformedSourceRecord => "malformed source record",
            Error::DuplicateDocumentId => "duplicate document id",
            Error::UnsupportedFormatVersion => "unsupported format version",
            Error::TruncatedOrCorruptPayload => "truncated or corrupt payload",
            Error::DecompressionFailure => "decompression failure",
            Error::CompressionFailure => "compression failure",
        }
    }
}

} // verus!
