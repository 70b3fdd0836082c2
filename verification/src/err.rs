use vstd::prelude::*;

verus! {

/// The ways a conversion can fail.
///
/// Hex decoding fails fast: `OddLength` when the digit string, after the
/// format markers are removed, has an odd number of characters, and
/// `InvalidHexDigit` when a two-character pair holds a character that is not
/// an ASCII hex digit. `InvalidUtf8` is raised only by strict hex-to-text
/// decoding, when the decoded bytes are not well-formed UTF-8. `InvalidHex`
/// and `InvalidCodepoint` are raised only by codepoint-token parsing.
#[derive(Debug, Clone, Copy, PartialEq, Eq, Structural)]
pub enum CodecError {
    OddLength,
    InvalidHexDigit,
    InvalidUtf8,
    InvalidHex,
    InvalidCodepoint,
}

impl CodecError {
    /// A human-readable description of the failure.
    pub fn message(&self) -> (r: String)
        ensures
            r@ == self.spec_message(),
    {
        match self {
            CodecError::OddLength => "Invalid hex input: odd number of characters".to_owned(),
            CodecError::InvalidHexDigit => "Invalid hex character".to_owned(),
            CodecError::InvalidUtf8 => "Invalid UTF-8 sequence".to_owned(),
            CodecError::InvalidHex => "Invalid hex format".to_owned(),
            CodecError::InvalidCodepoint => "Invalid Unicode codepoint".to_owned(),
        }
    }

    pub open spec fn spec_message(&self) -> Seq<char> {
        match self {
            CodecError::OddLength => "Invalid hex input: odd number of characters"@,
            CodecError::InvalidHexDigit => "Invalid hex character"@,
            CodecError::InvalidUtf8 => "Invalid UTF-8 sequence"@,
            CodecError::InvalidHex => "Invalid hex format"@,
            CodecError::InvalidCodepoint => "Invalid Unicode codepoint"@,
        }
    }
}

} // verus!
