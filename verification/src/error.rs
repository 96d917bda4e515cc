//! The error taxonomy of the codec.
//!
//! Every failure of serialization or deserialization is reported through one
//! of these variants; the codec never panics on malformed input. A malformed
//! token is a permanent failure: callers are expected to reject it outright
//! rather than attempt partial recovery.

use vstd::prelude::*;

verus! {

/// What went wrong while encoding or decoding a token.
#[derive(Clone, Copy, Debug, PartialEq, Eq, Structural)]
pub enum MacaroonError {
    /// The input text is not valid base64 (or, for a future format, not valid
    /// in that format's outer envelope).
    DecodeError,
    /// A packet length header is missing, is not four hex digits, or declares
    /// a length that is shorter than the header itself or longer than the
    /// bytes that remain. Also raised by serialization for a packet that
    /// would exceed the largest length the four-digit header can carry.
    FramingError,
    /// A packet body contains no space separating the tag from the value.
    KeyValueError,
    /// Tag or value bytes that are required to be text are not valid UTF-8.
    TextValidityError,
    /// A packet tag is not one of the six recognized keys.
    UnknownTagError,
    /// A `vid` or `cl` packet arrived with no open caveat, a `signature`
    /// value was shorter than 32 bytes, or the stream ended without any
    /// `signature` packet.
    MalformedSequenceError,
    /// The requested format has no codec yet.
    NotImplementedError,
}

impl MacaroonError {
    /// A short human-readable description of the failure.
    pub fn message(&self) -> (r: &'static str)
        ensures
            r@.len() > 0,
    {
        proof {
            reveal_strlit("base64 decode error");
            reveal_strlit("packet framing error");
            reveal_strlit("key/value error: no space in packet body");
            reveal_strlit("text-validity error: bytes are not valid UTF-8");
            reveal_strlit("unknown packet tag");
            reveal_strlit("malformed packet sequence");
            reveal_strlit("format not implemented");
        }
        match self {
            MacaroonError::DecodeError => "base64 decode error",
            MacaroonError::FramingError => "packet framing error",
            MacaroonError::KeyValueError => "key/value error: no space in packet body",
            MacaroonError::TextValidityError => "text-validity error: bytes are not valid UTF-8",
            MacaroonError::UnknownTagError => "unknown packet tag",
            MacaroonError::MalformedSequenceError => "malformed packet sequence",
            MacaroonError::NotImplementedError => "format not implemented",
        }
    }
}

} // verus!
