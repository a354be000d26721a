//! The abstractions that decouple encoding and decoding from where the
//! contract comes from.

use vstd::prelude::*;

use crate::contract::ContractData;
use crate::error::HrestError;
use crate::json::JsonValue;

verus! {

/// A source of HRest contract data.
///
/// Implement this trait to provide contract data from any source (JSON
/// file, in-memory, database, etc.) without changing the encoding/decoding
/// logic.
pub trait ContractProvider {
    /// The contract this provider hands out.
    spec fn provided(&self) -> ContractData;

    /// Returns a reference to the underlying contract data.
    fn contract(&self) -> (c: &ContractData)
        ensures
            *c == self.provided(),
    ;
}

/// Encoding capability: converts a JSON payload to a binary TLV stream.
pub trait Encode {
    /// Encode the given JSON value for the specified route.
    fn encode(&self, route: &str, payload: &JsonValue) -> Result<Vec<u8>, HrestError>;
}

/// Decoding capability: converts a binary TLV stream to a JSON value.
pub trait Decode {
    /// Decode the given binary stream for the specified route.
    fn decode(&self, route: &str, bytes: &[u8]) -> Result<JsonValue, HrestError>;
}

} // verus!
