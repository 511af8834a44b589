//! Why a byte stream could not be decoded.
use vstd::prelude::*;

verus! {

/// A decode failure. Decoding stops at the first one and returns no partial result.
#[derive(Clone, Copy, Debug, PartialEq, Eq, Structural)]
pub enum CodecError {
    /// The first word is not the family's magic; it holds the word found.
    BadMagic(u32),
    /// The sub-format tag is neither the baked nor the keyed one; it holds the word found.
    BadFrameType(u32),
    /// The input ends before a field or a payload that the file points to.
    Truncated,
}

impl CodecError {
    /// Whether the input was rejected for its content rather than its length.
    pub fn is_format_error(&self) -> (r: bool)
        ensures
            r == !(*self is Truncated),
    {
        match self {
            CodecError::Truncated => false,
            _ => true,
        }
    }
}

} // verus!
