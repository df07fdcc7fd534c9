use std::collections::BTreeMap;

use flags_codec::legacy_format::{self, Field, LegacyScan};
use flags_codec::text::{from_text, to_text};
use flags_codec::{
    deserialize_bits_default, serialize_bits_default, DecodeError, DefaultForm, Flag, Flags,
    ParseError,
};

fn flag(name: &str, bits: u32) -> Flag {
    Flag { name: name.to_string(), bits }
}

fn table() -> Vec<Flag> {
    vec![flag("A", 1), flag("B", 2), flag("C", 4), flag("D", 8)]
}

fn to_json_text(flags: &Flags) -> String {
    match serialize_bits_default(flags, &table(), true) {
        DefaultForm::Text(s) => serde_json::to_string(&s).unwrap(),
        DefaultForm::Bits(_) => panic!("a human-readable format gets text"),
    }
}

fn from_json_text(json: &str) -> Flags {
    let s: String = serde_json::from_str(json).unwrap();
    deserialize_bits_default(&DefaultForm::Text(s), &table()).unwrap()
}

fn to_json_record(flags: &Flags) -> String {
    let mut record = BTreeMap::new();
    for field in legacy_format::serialize(flags) {
        record.insert(field.key, field.value);
    }
    serde_json::to_string(&record).unwrap()
}

fn from_json_record(json: &str) -> Result<Flags, DecodeError> {
    let record: serde_json::Map<String, serde_json::Value> = serde_json::from_str(json).unwrap();
    let fields: Vec<Field> = record
        .into_iter()
        .map(|(key, value)| Field { key, value: value.as_u64().unwrap() as u32 })
        .collect();
    legacy_format::deserialize(&fields)
}

fn field(key: &str, value: u32) -> Field {
    Field { key: key.to_string(), value }
}

#[test]
fn test_serde_bitflags_default_serialize() {
    let flags = Flags::from_bits_retain(1 | 2);

    let serialized = to_json_text(&flags);

    assert_eq!(serialized, r#""A | B""#);
}

#[test]
fn test_serde_bitflags_default_deserialize() {
    let deserialized = from_json_text(r#""C | D""#);

    let expected = Flags::from_bits_retain(4 | 8);

    assert_eq!(deserialized.bits(), expected.bits());
}

#[test]
fn test_serde_bitflags_default_roundtrip() {
    let flags = Flags::from_bits_retain(1 | 2);

    let deserialized = from_json_text(&to_json_text(&flags));

    assert_eq!(deserialized.bits(), flags.bits());
}

#[test]
fn test_serde_bitflags_legacy_serialize() {
    let flags = Flags::from_bits_retain(1 | 2);

    let serialized = to_json_record(&flags);

    assert_eq!(serialized, r#"{"bits":3}"#);
}

#[test]
fn test_serde_bitflags_legacy_deserialize() {
    let deserialized = from_json_record(r#"{"bits":12}"#).unwrap();

    let expected = Flags::from_bits_retain(4 | 8);

    assert_eq!(deserialized.bits(), expected.bits());
}

#[test]
fn test_serde_bitflags_legacy_roundtrip() {
    let flags = Flags::from_bits_retain(1 | 2);

    let deserialized = from_json_record(&to_json_record(&flags)).unwrap();

    assert_eq!(deserialized.bits(), flags.bits());
}

#[test]
fn legacy_rejects_unknown_field() {
    let r = legacy_format::deserialize(&vec![field("bits", 1), field("extra", 2)]);
    assert_eq!(r, Err(DecodeError::UnknownField("extra".to_string())));
}

#[test]
fn legacy_rejects_unknown_field_from_json() {
    let r = from_json_record(r#"{"bits":1,"extra":2}"#);
    assert_eq!(r, Err(DecodeError::UnknownField("extra".to_string())));
}

#[test]
fn legacy_rejects_missing_field() {
    assert_eq!(from_json_record("{}"), Err(DecodeError::MissingField));
    assert_eq!(legacy_format::deserialize(&vec![]), Err(DecodeError::MissingField));
}

#[test]
fn legacy_rejects_duplicate_field() {
    let r = legacy_format::deserialize(&vec![field("bits", 1), field("bits", 2)]);
    assert_eq!(r, Err(DecodeError::DuplicateField));
}

#[test]
fn legacy_unknown_key_before_bits() {
    let r = legacy_format::deserialize(&vec![field("other", 1), field("bits", 2)]);
    assert_eq!(r, Err(DecodeError::UnknownField("other".to_string())));
}

#[test]
fn legacy_keeps_unnamed_bits() {
    let flags = Flags::from_bits_retain(0x8000_0011);
    let fields = legacy_format::serialize(&flags);
    assert_eq!(fields.len(), 1);
    assert_eq!(fields[0].key, "bits");
    assert_eq!(fields[0].value, 0x8000_0011);
    assert_eq!(legacy_format::deserialize(&fields).unwrap().bits(), 0x8000_0011);
}

#[test]
fn legacy_scan_steps() {
    let mut scan = LegacyScan::new();
    assert_eq!(scan.on_key("bits"), Ok(()));
    scan.on_bits(5);
    assert_eq!(scan.on_key("bits"), Err(DecodeError::DuplicateField));
    assert_eq!(scan.on_key("x"), Err(DecodeError::UnknownField("x".to_string())));
    assert_eq!(scan.finish().unwrap().bits(), 5);
    assert_eq!(LegacyScan::new().finish(), Err(DecodeError::MissingField));
}

#[test]
fn binary_decode_keeps_unnamed_bits() {
    let r = deserialize_bits_default(&DefaultForm::Bits(9), &table()).unwrap();
    assert_eq!(r.bits(), 9);
    let r = deserialize_bits_default(&DefaultForm::Bits(0xf0), &table()).unwrap();
    assert_eq!(r.bits(), 0xf0);
}

#[test]
fn binary_encode_is_raw_bits() {
    let flags = Flags::from_bits_retain(0x1234);
    assert_eq!(serialize_bits_default(&flags, &table(), false), DefaultForm::Bits(0x1234));
}

#[test]
fn binary_round_trip() {
    for bits in [0u32, 1, 9, 0xffff_ffff, 0x8000_0000] {
        let flags = Flags::from_bits_retain(bits);
        let form = serialize_bits_default(&flags, &table(), false);
        assert_eq!(deserialize_bits_default(&form, &table()).unwrap().bits(), bits);
    }
}

#[test]
fn human_readable_round_trip() {
    for bits in 0u32..16 {
        let flags = Flags::from_bits_retain(bits);
        let form = serialize_bits_default(&flags, &table(), true);
        assert_eq!(deserialize_bits_default(&form, &table()).unwrap().bits(), bits);
    }
}

#[test]
fn text_of_empty_value_is_empty() {
    assert_eq!(to_text(&Flags::empty(), &table()), "");
    assert_eq!(from_text("", &table()).unwrap().bits(), 0);
    assert_eq!(from_text("   ", &table()).unwrap().bits(), 0);
}

#[test]
fn text_writes_unnamed_bits_as_hex() {
    assert_eq!(to_text(&Flags::from_bits_retain(1 | 0x30), &table()), "A | 0x30");
    assert_eq!(to_text(&Flags::from_bits_retain(0xabc0), &table()), "0xabc0");
    assert_eq!(from_text("A | 0x30", &table()).unwrap().bits(), 0x31);
    assert_eq!(from_text("0xABC0", &table()).unwrap().bits(), 0xabc0);
}

#[test]
fn text_skips_unnamed_and_covered_flags() {
    let t = vec![flag("", 1), flag("AB", 3), flag("A", 1), flag("B", 2)];
    assert_eq!(to_text(&Flags::from_bits_retain(3), &t), "AB");
    assert_eq!(to_text(&Flags::from_bits_retain(1), &t), "A");
    assert_eq!(from_text("AB | A", &t).unwrap().bits(), 3);
}

#[test]
fn text_trims_segments() {
    assert_eq!(from_text("  A|B \t| D  ", &table()).unwrap().bits(), 11);
}

#[test]
fn text_rejects_empty_segment() {
    assert_eq!(from_text("A | | B", &table()), Err(ParseError::EmptyFlag));
    assert_eq!(from_text("A |", &table()), Err(ParseError::EmptyFlag));
}

#[test]
fn text_rejects_unknown_name() {
    assert_eq!(from_text("A | E", &table()), Err(ParseError::InvalidNamedFlag("E".to_string())));
}

#[test]
fn text_rejects_bad_hex() {
    assert_eq!(from_text("0xzz", &table()), Err(ParseError::InvalidHexFlag("zz".to_string())));
    assert_eq!(from_text("0x", &table()), Err(ParseError::InvalidHexFlag("".to_string())));
    assert_eq!(
        from_text("0x100000000", &table()),
        Err(ParseError::InvalidHexFlag("100000000".to_string()))
    );
    assert_eq!(from_text("0x+f", &table()).unwrap().bits(), 15);
    assert_eq!(from_text("0xffffffff", &table()).unwrap().bits(), 0xffff_ffff);
}

#[test]
fn default_decode_reports_invalid_format() {
    let r = deserialize_bits_default(&DefaultForm::Text("A | Q".to_string()), &table());
    assert_eq!(r, Err(DecodeError::InvalidFormat(ParseError::InvalidNamedFlag("Q".to_string()))));
}

#[test]
fn parse_error_messages() {
    assert_eq!(ParseError::EmptyFlag.message(), "encountered empty flag");
    assert_eq!(
        ParseError::InvalidNamedFlag("Q".to_string()).message(),
        "unrecognized named flag `Q`"
    );
    assert_eq!(ParseError::InvalidHexFlag("zz".to_string()).message(), "invalid hex flag `zz`");
}
