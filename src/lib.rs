//! Two wire encodings for bit-flag values: a default form that is a
//! pipe-separated list of flag names (or the raw bits for binary formats),
//! and a legacy form that is a record with a single `bits` field.

pub mod default_format;
pub mod error;
pub mod flags;
pub mod legacy_format;
pub mod text;

pub use default_format::{deserialize_bits_default, serialize_bits_default, DefaultForm};
pub use error::DecodeError;
pub use flags::{Flag, Flags};
pub use text::ParseError;
