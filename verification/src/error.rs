//! Error kinds shared by the decoding pipeline.

use vstd::prelude::*;

verus! {

/// Why a decode failed.
#[derive(Clone, Copy, Debug, PartialEq, Eq, Structural)]
pub enum DecodeError {
    /// The file-definition magic is not `CRAM`.
    InvalidMagic,
    /// The major/minor format version is outside the supported set.
    UnsupportedVersion,
    /// CRC mismatch, framing truncation, or decompressed size mismatch.
    CorruptBlock,
    /// An entropy-coder invariant was violated.
    CorruptStream,
    /// A data series was decoded with an encoding of the wrong output type.
    EncodingMismatch,
    /// A mapped record requires a reference not present in the repository.
    MissingReference,
    /// Alignment start/end inconsistent with the sequence length.
    InvalidReferenceSpan,
    /// The underlying byte source ended unexpectedly.
    Truncated,
    /// The byte source signalled cancellation.
    Cancelled,
}

impl DecodeError {
    /// A short description of the error kind.
    pub fn message(&self) -> &'static str {
        match self {
            DecodeError::InvalidMagic => "invalid magic number",
            DecodeError::UnsupportedVersion => "unsupported format version",
            DecodeError::CorruptBlock => "corrupt block",
            DecodeError::CorruptStream => "corrupt entropy-coded stream",
            DecodeError::EncodingMismatch => "encoding output type mismatch",
            DecodeError::MissingReference => "missing reference sequence",
            DecodeError::InvalidReferenceSpan => "invalid reference span",
            DecodeError::Truncated => "unexpected end of input",
            DecodeError::Cancelled => "cancelled",
        }
    }
}

} // verus!
