use vstd::prelude::*;

use crate::text::{ParseError, ParseFailure};

verus! {

/// Why a wire form could not be read back into a flags value.
#[derive(Debug, PartialEq, Eq)]
pub enum DecodeError {
    /// The text form does not parse.
    InvalidFormat(ParseError),
    /// A record holds a field other than `bits`; it holds the field's key.
    UnknownField(String),
    /// A record holds the `bits` field twice.
    DuplicateField,
    /// A record has no `bits` field.
    MissingField,
}

/// A decode failure, with its text as characters.
pub enum DecodeFailure {
    InvalidFormat(ParseFailure),
    UnknownField(Seq<char>),
    DuplicateField,
    MissingField,
}

impl View for DecodeError {
    type V = DecodeFailure;

    open spec fn view(&self) -> DecodeFailure {
        match self {
            DecodeError::InvalidFormat(e) => DecodeFailure::InvalidFormat(e@),
            DecodeError::UnknownField(k) => DecodeFailure::UnknownField(k@),
            DecodeError::DuplicateField => DecodeFailure::DuplicateField,
            DecodeError::MissingField => DecodeFailure::MissingField,
        }
    }
}

} // verus!
