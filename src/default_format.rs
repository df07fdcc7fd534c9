//! The default wire form: the text form for formats meant for people, the
//! raw bits for the others.
use vstd::prelude::*;

use crate::error::{DecodeError, DecodeFailure};
use crate::flags::{Flag, Flags};
use crate::text::{
    from_text, lemma_text_reads_back, named_only, parse_text, readable_table, text_of, to_text,
};

verus! {

/// A flags value on the wire, in the default form.
#[derive(Debug, PartialEq, Eq)]
pub enum DefaultForm {
    /// The text form, for human-readable formats.
    Text(String),
    /// The raw bits, for the other formats.
    Bits(u32),
}

/// A default wire form, with its text as characters.
pub enum DefaultFormView {
    Text(Seq<char>),
    Bits(u32),
}

impl View for DefaultForm {
    type V = DefaultFormView;

    open spec fn view(&self) -> DefaultFormView {
        match self {
            DefaultForm::Text(s) => DefaultFormView::Text(s@),
            DefaultForm::Bits(b) => DefaultFormView::Bits(*b),
        }
    }
}

/// The default form of `bits`.
pub open spec fn encode_default(t: Seq<Flag>, bits: u32, human_readable: bool) -> DefaultFormView {
    if human_readable {
        DefaultFormView::Text(text_of(t, bits))
    } else {
        DefaultFormView::Bits(bits)
    }
}

/// The bits that a default form stands for.
pub open spec fn decode_default(t: Seq<Flag>, form: DefaultFormView) -> Result<u32, DecodeFailure> {
    match form {
        DefaultFormView::Text(s) => match parse_text(t, s) {
            Ok(b) => Ok(b),
            Err(e) => Err(DecodeFailure::InvalidFormat(e)),
        },
        DefaultFormView::Bits(b) => Ok(b),
    }
}

/// Encodes `flags` in the default form: its text form under `table` where
/// the format is human-readable, its raw bits elsewhere.
pub fn serialize_bits_default(flags: &Flags, table: &Vec<Flag>, human_readable: bool) -> (r:
    DefaultForm)
    ensures
        r@ == encode_default(table@, flags.spec_bits(), human_readable),
{
    if human_readable {
        DefaultForm::Text(to_text(flags, table))
    } else {
        DefaultForm::Bits(flags.bits())
    }
}

/// Decodes a default form: text is parsed under `table`, and fails only
/// where it does not parse; raw bits are kept as they are, unnamed ones too.
pub fn deserialize_bits_default(form: &DefaultForm, table: &Vec<Flag>) -> (r: Result<
    Flags,
    DecodeError,
>)
    ensures
        match r {
            Ok(f) => decode_default(table@, form@) == Ok::<u32, DecodeFailure>(f.spec_bits()),
            Err(e) => decode_default(table@, form@) == Err::<u32, DecodeFailure>(e@),
        },
{
    match form {
        DefaultForm::Text(s) => match from_text(s.as_str(), table) {
            Ok(f) => Ok(f),
            Err(e) => Err(DecodeError::InvalidFormat(e)),
        },
        DefaultForm::Bits(b) => Ok(Flags::from_bits_retain(*b)),
    }
}

/// In a human-readable format, a value made of named flags decodes from its
/// default form to the same bits, where the flags' names are plain and
/// distinct.
pub proof fn lemma_human_readable_round_trip(t: Seq<Flag>, bits: u32)
    requires
        readable_table(t),
        named_only(t, bits),
    ensures
        decode_default(t, encode_default(t, bits, true)) == Ok::<u32, DecodeFailure>(bits),
{
    lemma_text_reads_back(t, bits);
}

/// In a binary format, every value decodes from its default form to the
/// same bits, unnamed ones included.
pub proof fn lemma_binary_round_trip(t: Seq<Flag>, bits: u32)
    ensures
        decode_default(t, encode_default(t, bits, false)) == Ok::<u32, DecodeFailure>(bits),
{
}

} // verus!
