//! Inference of CSV file details (delimiter choice, quote character, number
//! of fields, preamble length, field data types, and more) from raw bytes.
//!
//! The entry point is [`Sniffer`]: configure it with optional hints
//! (delimiter, quote, header, sample size, date preference) and call
//! `sniff_bytes` on the file contents to obtain a [`metadata::Metadata`]
//! record describing the dialect and the per-column types.

pub mod bignat;
pub mod chain;
pub mod error;
pub mod field_type;
pub mod infer_type;
pub mod metadata;
pub mod sample;
pub mod sniffer;
pub mod snip;

pub use field_type::DatePreference;
pub use field_type::Type;
pub use sample::SampleSize;
pub use sniffer::Sniffer;
