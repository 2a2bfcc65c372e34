//! GFF3 record model and line codec.
//!
//! A GFF3 file holds one genomic feature per line: nine tab-separated
//! columns, the last a semicolon-separated list of `key=value` attribute
//! pairs.  This crate provides the typed [`record::Record`] model together
//! with verified decoding of a raw line into a record and encoding of a
//! record back into the exact on-disk textual form.  Opening files and
//! driving byte streams is left to callers.

pub mod codec;
pub mod record;
pub mod text;

pub use codec::decode_line;
pub use codec::decode_lines;
pub use codec::encode_attributes;
pub use codec::encode_line;
pub use codec::encode_lines;
pub use codec::parse_attributes;
pub use record::GffError;
pub use record::Record;
pub use record::Strand;
pub use text::parse_u64;
pub use text::u64_to_string;

