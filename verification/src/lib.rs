//! HRest: a compact binary TLV encoding of JSON payloads, driven by a
//! per-route field contract.
//!
//! A contract maps every field name of a route to a one-byte token ID.
//! Encoding writes a JSON object as `(token ID, typed value)` pairs; decoding
//! reads them back, refusing unknown tokens, unknown type bytes, truncated
//! input, excessive nesting and non-finite floats.

pub mod canonical;
pub mod contract;
pub mod data_type;
pub mod decoder;
pub mod encoder;
pub mod error;
pub mod json;
pub mod laws;
pub mod loader;
pub mod outside;
pub mod ports;
pub mod round_trip;
pub mod text;
pub mod types;
pub mod varint;
pub mod wire;

pub use decoder::decode_payload;
pub use encoder::encode_payload;
pub use error::HrestError;
pub use json::{JsonNumber, JsonValue};
pub use loader::{JsonContractLoader, RawContract, RawRoute};
pub use ports::ContractProvider;
