//! The failures that the library reports.

use vstd::prelude::*;

verus! {

/// Why an operation was refused.
#[derive(Clone, Copy, Debug, PartialEq, Eq, Structural)]
pub enum DarkstarError {
    /// An envelope is too short, or some text is not valid hexadecimal,
    /// base64 or UTF-8.
    InvalidFormat,
    /// A reverse key is neither a legacy JSON array nor a packed record, has
    /// the wrong length, or names a transform that does not exist.
    InvalidReverseKey,
    /// The authentication tag of a sealed envelope does not match.
    AuthenticationFailed,
    /// The padding of a decrypted block sequence is malformed.
    PaddingError,
    /// The payload names a version that the decoder does not know.
    VersionMismatch,
    /// An inverse transform was given bytes that no forward transform
    /// produces, or a transformed word does not fit a blob record.
    PipelineError,
}

impl DarkstarError {
    /// The one-line description of each kind of failure.
    pub open spec fn description(self) -> Seq<char> {
        match self {
            DarkstarError::InvalidFormat => "invalid format"@,
            DarkstarError::InvalidReverseKey => "invalid reverse key"@,
            DarkstarError::AuthenticationFailed => "authentication failed"@,
            DarkstarError::PaddingError => "invalid padding"@,
            DarkstarError::VersionMismatch => "unsupported version"@,
            DarkstarError::PipelineError => "malformed transformed word"@,
        }
    }

    /// A one-line description of the failure.
    pub fn message(&self) -> (text: &'static str)
        ensures
            text@ == self.description(),
    {
        match self {
            DarkstarError::InvalidFormat => "invalid format",
            DarkstarError::InvalidReverseKey => "invalid reverse key",
            DarkstarError::AuthenticationFailed => "authentication failed",
            DarkstarError::PaddingError => "invalid padding",
            DarkstarError::VersionMismatch => "unsupported version",
            DarkstarError::PipelineError => "malformed transformed word",
        }
    }
}

/// The outcome of an operation that yields bytes, with the bytes as a
/// sequence.
pub open spec fn bytes_result(r: Result<Vec<u8>, DarkstarError>) -> Result<Seq<u8>, DarkstarError> {
    match r {
        Ok(bytes) => Ok(bytes@),
        Err(e) => Err(e),
    }
}

} // verus!
