//! Every error that encoding, decoding or loading a contract can end in.

use vstd::prelude::*;

verus! {

/// An I/O failure, such as a contract file that could not be read.
#[verifier::external_type_specification]
#[verifier::external_body]
pub struct ExIoError(std::io::Error);

/// A JSON syntax or shape error reported by serde_json.
#[verifier::external_type_specification]
#[verifier::external_body]
pub struct ExJsonError(serde_json::Error);

/// All possible errors that can occur during HRest encoding/decoding.
///
/// HTTP status semantics (for middleware implementations):
/// - `UnknownField` / `UnknownToken` -> HTTP 422 Unprocessable Entity
/// - `InvalidContractHash`           -> HTTP 400 Bad Request
/// - `BufferOverflow` / `MalformedPayload` -> HTTP 400 Bad Request
#[derive(Debug)]
pub enum HrestError {
    /// The requested route is not defined in the contract.
    UnknownRoute(String),
    /// A field name is not in the contract whitelist for this route.
    UnknownField(String),
    /// A token ID in the binary stream is not registered in the contract.
    UnknownToken(u8),
    /// The client's contract hash does not match the server's active contract.
    InvalidContractHash { expected: String, got: String },
    /// A data type byte is not recognized.
    InvalidDataType(u8),
    /// Reading would exceed the buffer boundary.
    BufferOverflow { needed: usize, available: usize },
    /// Varint encoding/decoding failure.
    VarintError(String),
    /// Generic malformed payload.
    MalformedPayload(String),
    /// I/O error (file reading, etc.).
    Io(std::io::Error),
    /// JSON parsing error (contract loading, etc.).
    Json(serde_json::Error),
}

/// What an error says, with its texts taken as character sequences.
pub enum ErrorModel {
    UnknownRoute(Seq<char>),
    UnknownField(Seq<char>),
    UnknownToken(u8),
    InvalidContractHash { expected: Seq<char>, got: Seq<char> },
    InvalidDataType(u8),
    BufferOverflow { needed: nat, available: nat },
    VarintError(Seq<char>),
    MalformedPayload(Seq<char>),
    Io,
    Json,
}

impl View for HrestError {
    type V = ErrorModel;

    open spec fn view(&self) -> ErrorModel {
        match self {
            HrestError::UnknownRoute(s) => ErrorModel::UnknownRoute(s@),
            HrestError::UnknownField(s) => ErrorModel::UnknownField(s@),
            HrestError::UnknownToken(b) => ErrorModel::UnknownToken(*b),
            HrestError::InvalidContractHash { expected, got } => ErrorModel::InvalidContractHash {
                expected: expected@,
                got: got@,
            },
            HrestError::InvalidDataType(b) => ErrorModel::InvalidDataType(*b),
            HrestError::BufferOverflow { needed, available } => ErrorModel::BufferOverflow {
                needed: *needed as nat,
                available: *available as nat,
            },
            HrestError::VarintError(s) => ErrorModel::VarintError(s@),
            HrestError::MalformedPayload(s) => ErrorModel::MalformedPayload(s@),
            HrestError::Io(_) => ErrorModel::Io,
            HrestError::Json(_) => ErrorModel::Json,
        }
    }
}

/// A text error carrying a fixed message.
pub(crate) fn varint_error(msg: &str) -> (e: HrestError)
    ensures
        e@ == ErrorModel::VarintError(msg@),
{
    HrestError::VarintError(msg.to_owned())
}

/// A malformed-payload error carrying a message.
pub(crate) fn malformed(msg: String) -> (e: HrestError)
    ensures
        e@ == ErrorModel::MalformedPayload(msg@),
{
    HrestError::MalformedPayload(msg)
}

} // verus!
