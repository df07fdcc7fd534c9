//! The legacy wire form: a record with exactly one field, `bits`, that holds
//! the raw bits.
//!
//! Reading a record is a small machine over its fields, in the order they
//! come: [`LegacyScan`]. A host framework that reads fields one at a time
//! drives it key by key; [`deserialize`] runs it over fields already read.
use vstd::prelude::*;

use crate::error::{DecodeError, DecodeFailure};
use crate::flags::Flags;

verus! {

/// The name of the one field of the record.
pub const BITS_FIELD: &'static str = "bits";

/// One field of a record: its key and the bits it holds.
pub struct Field {
    pub key: String,
    pub value: u32,
}

pub open spec fn bits_key() -> Seq<char> {
    seq!['b', 'i', 't', 's']
}

/// The fields of the record that stands for `bits`.
pub open spec fn encode_legacy(bits: u32) -> Seq<(Seq<char>, u32)> {
    seq![(bits_key(), bits)]
}

/// Reads fields from index `i`, with `seen` the bits read so far: every key
/// must be `bits`, once.
pub open spec fn scan_fields(fs: Seq<(Seq<char>, u32)>, i: int, seen: Option<u32>) -> Result<
    u32,
    DecodeFailure,
>
    decreases fs.len() - i,
{
    if i >= fs.len() {
        match seen {
            Some(b) => Ok(b),
            None => Err(DecodeFailure::MissingField),
        }
    } else if fs[i].0 != bits_key() {
        Err(DecodeFailure::UnknownField(fs[i].0))
    } else if seen is Some {
        Err(DecodeFailure::DuplicateField)
    } else {
        scan_fields(fs, i + 1, Some(fs[i].1))
    }
}

/// The bits that the fields of a record stand for.
pub open spec fn decode_legacy(fs: Seq<(Seq<char>, u32)>) -> Result<u32, DecodeFailure> {
    scan_fields(fs, 0, None)
}

pub open spec fn fields_view(fs: Seq<Field>) -> Seq<(Seq<char>, u32)> {
    fs.map_values(|f: Field| (f.key@, f.value))
}

/// Where a scan of record fields stands: the bits read so far, if any.
pub struct LegacyScan {
    bits: Option<u32>,
}

impl LegacyScan {
    pub closed spec fn seen(&self) -> Option<u32> {
        self.bits
    }

    /// A scan that has read no field.
    pub fn new() -> (r: LegacyScan)
        ensures
            r.seen() is None,
    {
        LegacyScan { bits: None }
    }

    /// Judges the next key: `Ok` where its value is to be read as the bits,
    /// the error that ends the scan otherwise.
    pub fn on_key(&self, key: &str) -> (r: Result<(), DecodeError>)
        ensures
            key@ != bits_key() ==> r is Err && r->Err_0@ == DecodeFailure::UnknownField(key@),
            key@ == bits_key() && self.seen() is Some ==> r is Err && r->Err_0@ == DecodeFailure::DuplicateField,
            key@ == bits_key() && self.seen() is None ==> r is Ok,
    {
        let name = String::from_str(key);
        proof {
            reveal_strlit("bits");
        }
        let expected = String::from_str(BITS_FIELD);
        assert(expected@ =~= bits_key());
        if !name.eq(&expected) {
            Err(DecodeError::UnknownField(name))
        } else if self.bits.is_some() {
            Err(DecodeError::DuplicateField)
        } else {
            Ok(())
        }
    }

    /// Takes the bits read for the `bits` key that [`LegacyScan::on_key`]
    /// accepted.
    pub fn on_bits(&mut self, bits: u32)
        requires
            old(self).seen() is None,
        ensures
            final(self).seen() == Some(bits),
    {
        self.bits = Some(bits);
    }

    /// Ends the scan once the fields are exhausted: the value of the bits
    /// read, unknown bits kept, or a missing-field error where none were.
    pub fn finish(&self) -> (r: Result<Flags, DecodeError>)
        ensures
            match self.seen() {
                Some(b) => r is Ok && r->Ok_0.spec_bits() == b,
                None => r is Err && r->Err_0@ == DecodeFailure::MissingField,
            },
    {
        match self.bits {
            Some(b) => Ok(Flags::from_bits_retain(b)),
            None => Err(DecodeError::MissingField),
        }
    }
}

/// Encodes `flags` in the legacy form: one field, `bits`, with its raw bits.
pub fn serialize(flags: &Flags) -> (r: Vec<Field>)
    ensures
        fields_view(r@) == encode_legacy(flags.spec_bits()),
{
    proof {
        reveal_strlit("bits");
    }
    let key = String::from_str(BITS_FIELD);
    assert(key@ =~= bits_key());
    let r = vec![Field { key, value: flags.bits() }];
    assert(fields_view(r@) =~= encode_legacy(flags.spec_bits()));
    r
}

/// Decodes the fields of a legacy record, in the order they come: the
/// first key other than `bits` fails as unknown, a second `bits` as a
/// duplicate, and a record without `bits` as missing it. Unknown bits in
/// the value are kept.
pub fn deserialize(fields: &Vec<Field>) -> (r: Result<Flags, DecodeError>)
    ensures
        match r {
            Ok(f) => decode_legacy(fields_view(fields@)) == Ok::<u32, DecodeFailure>(f.spec_bits()),
            Err(e) => decode_legacy(fields_view(fields@)) == Err::<u32, DecodeFailure>(e@),
        },
{
    let ghost fs = fields_view(fields@);
    let mut scan = LegacyScan::new();
    let mut i: usize = 0;
    while i < fields.len()
        invariant
            i <= fields@.len(),
            fs == fields_view(fields@),
            decode_legacy(fs) == scan_fields(fs, i as int, scan.seen()),
        decreases fields@.len() - i,
    {
        let field = &fields[i];
        assert(fs[i as int] == (field.key@, field.value));
        match scan.on_key(field.key.as_str()) {
            Ok(()) => {
                scan.on_bits(field.value);
            },
            Err(e) => {
                return Err(e);
            },
        }
        i = i + 1;
    }
    scan.finish()
}

/// Every value decodes from its legacy form to the same bits, unnamed ones
/// included.
pub proof fn lemma_legacy_round_trip(bits: u32)
    ensures
        decode_legacy(encode_legacy(bits)) == Ok::<u32, DecodeFailure>(bits),
{
    let fs = encode_legacy(bits);
    assert(scan_fields(fs, 1, Some(bits)) == Ok::<u32, DecodeFailure>(bits));
}

} // verus!
