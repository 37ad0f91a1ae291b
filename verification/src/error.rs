//! What can go wrong while reading or writing a RESP stream.

use vstd::prelude::*;

verus! {

/// `std::io::Error`, of which nothing is known here: a reader or writer of this
/// library never makes one, and carries one that its user hands it.
#[verifier::external_type_specification]
#[verifier::external_body]
pub struct ExIoError(std::io::Error);

/// An error encountered while reading or writing a RESP stream.
#[derive(Debug)]
#[non_exhaustive]
pub enum RespError {
    /// Reached the end of the stream unexpectedly.
    EndOfInput,
    /// Received an invalid boolean.
    InvalidBoolean,
    /// Received an invalid blob length.
    InvalidBlobLength,
    /// Received an invalid double.
    InvalidDouble,
    /// Received an invalid integer.
    InvalidInteger,
    /// Received a map with a repeated key.
    InvalidMap,
    /// Received a set with a repeated member.
    InvalidSet,
    /// Received an invalid verbatim string.
    InvalidVerbatim,
    /// The transport failed.
    IO(std::io::Error),
    /// A single-line frame cannot contain a newline.
    Newline,
    /// Unsupported in the selected version.
    Version,
    /// Expected a primitive, but got a complex value.
    RespPrimitive,
    /// Received an inline request that was too big.
    TooBigInline,
    /// Expected the first byte, got the second.
    Unexpected(u8, u8),
    /// Unknown RESP type marker.
    UnknownType(u8),
    /// Invalid inline command.
    InvalidInline,
}

impl RespError {
    /// The message of an error whose message is always the same.
    pub open spec fn message(self) -> Option<Seq<char>> {
        match self {
            RespError::EndOfInput => Some("unexpected end of input"@),
            RespError::InvalidBoolean => Some("invalid boolean"@),
            RespError::InvalidBlobLength => Some("invalid blob length"@),
            RespError::InvalidDouble => Some("invalid double"@),
            RespError::InvalidInteger => Some("invalid integer"@),
            RespError::InvalidMap => Some("invalid map"@),
            RespError::InvalidSet => Some("invalid set"@),
            RespError::InvalidVerbatim => Some("invalid verbatim"@),
            RespError::IO(_) => Some("io error"@),
            RespError::Newline => Some("newline is not allowed in this frame"@),
            RespError::Version => Some("unsupported in the current version"@),
            RespError::RespPrimitive => Some("map keys and set values must be primitives"@),
            RespError::TooBigInline => Some("too big inline request"@),
            RespError::InvalidInline => Some("invalid inline command"@),
            RespError::Unexpected(_, _) => None,
            RespError::UnknownType(_) => None,
        }
    }

    /// The error's message. An unexpected byte and an unknown type are described
    /// with the bytes in question.
    pub fn to_string(&self) -> (text: String)
        ensures
            self.message() matches Some(message) ==> text@ == message,
    {
        match self {
            RespError::EndOfInput => "unexpected end of input".to_owned(),
            RespError::InvalidBoolean => "invalid boolean".to_owned(),
            RespError::InvalidBlobLength => "invalid blob length".to_owned(),
            RespError::InvalidDouble => "invalid double".to_owned(),
            RespError::InvalidInteger => "invalid integer".to_owned(),
            RespError::InvalidMap => "invalid map".to_owned(),
            RespError::InvalidSet => "invalid set".to_owned(),
            RespError::InvalidVerbatim => "invalid verbatim".to_owned(),
            RespError::IO(_) => "io error".to_owned(),
            RespError::Newline => "newline is not allowed in this frame".to_owned(),
            RespError::Version => "unsupported in the current version".to_owned(),
            RespError::RespPrimitive => "map keys and set values must be primitives".to_owned(),
            RespError::TooBigInline => "too big inline request".to_owned(),
            RespError::Unexpected(expected, got) => describe_unexpected(*expected, *got),
            RespError::UnknownType(marker) => describe_unknown(*marker),
            RespError::InvalidInline => "invalid inline command".to_owned(),
        }
    }
}

/// `format!`: the message of `RespError::Unexpected`, both bytes shown as characters.
#[verifier::external_body]
fn describe_unexpected(expected: u8, got: u8) -> String {
    format!("expected {:?}, got {:?}", char::from(expected), char::from(got))
}

/// `format!`: the message of `RespError::UnknownType`, the marker shown as a character.
#[verifier::external_body]
fn describe_unknown(marker: u8) -> String {
    format!("unknown resp type: {:?}", char::from(marker))
}

} // verus!
