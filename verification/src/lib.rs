//! A lossless text compressor that learns a dictionary of frequent
//! substrings from its input and rewrites the input as literal UTF-8
//! scalars mixed with two-byte dictionary references.

pub mod build_ledger;
pub mod decoder;
pub mod encode_string;
pub mod encoder;
pub mod encoder_spec;
pub mod encoding_table;
pub mod ledger_policies;
pub mod sorting;
pub mod substring;
pub mod substring_counts;
pub mod substring_ledger;
pub mod substring_order;
pub mod substring_selector;
pub mod trie;

pub use decoder::{decode, decode_string, DecodeError};
pub use encode_string::encode_string;
pub use encoder::{encode, encode_with_policy};
pub use encoder_spec::EncoderSpec;
pub use encoding_table::EncodingTable;
pub use ledger_policies::{CaptureAll, LedgerPolicy, LimitLedgerSize};
pub use substring::{Substring, SubstringCount};
pub use substring_counts::SubstringCounts;
pub use substring_ledger::SubstringLedger;
pub use substring_selector::SubstringSelector;
pub use trie::Trie;
