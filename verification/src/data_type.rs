//! Wire format type constants and the `DataType` enum.
//!
//! These constants define the HRest binary wire format (v2).

use vstd::prelude::*;

use crate::error::{ErrorModel, HrestError};

verus! {

/// Null value. Field is present but carries no data.
pub const TYPE_NULL: u8 = 0x00;

/// UTF-8 string. Encoded as `[compact length][utf8 bytes]`.
pub const TYPE_STRING: u8 = 0x01;

/// 64-bit signed integer. Encoded as zigzag varint.
pub const TYPE_INT: u8 = 0x02;

/// Boolean. Encoded as `0x00` (false) or `0x01` (true).
pub const TYPE_BOOL: u8 = 0x03;

/// Raw bytes or UUID. Encoded as `[compact length][raw bytes]`.
pub const TYPE_BYTES: u8 = 0x04;

/// Nested object or array.
/// Encoded as `[kind: 0x00=object | 0x01=array][compact count][...]`.
pub const TYPE_NESTED: u8 = 0x05;

/// 64-bit IEEE 754 float. Encoded as 8 bytes little-endian.
pub const TYPE_FLOAT: u8 = 0x06;

/// 32-bit IEEE 754 float. Encoded as 4 bytes little-endian.
pub const TYPE_FLOAT32: u8 = 0x07;

/// Nested kind discriminant: object.
pub const NESTED_KIND_OBJECT: u8 = 0x00;

/// Nested kind discriminant: array.
pub const NESTED_KIND_ARRAY: u8 = 0x01;

/// A compact length or count byte with this value announces a following
/// 2-byte little-endian value; any smaller byte is the value itself.
pub const COMPACT_SENTINEL: u8 = 0xFF;

/// Canonical representation of all supported wire-format data types.
#[derive(Debug, Clone, Copy, PartialEq, Eq, Structural, Hash)]
pub enum DataType {
    /// `0x00` — Null: field present, no value bytes.
    Null,
    /// `0x01` — UTF-8 string.
    Str,
    /// `0x02` — 64-bit signed integer (zigzag varint).
    Int,
    /// `0x03` — Boolean.
    Bool,
    /// `0x04` — Raw bytes / UUID.
    Bytes,
    /// `0x05` — Nested object or array.
    Nested,
    /// `0x06` — 64-bit IEEE 754 float.
    Float,
    /// `0x07` — 32-bit IEEE 754 float.
    Float32,
}

/// The wire byte of a data type.
pub open spec fn type_byte(dt: DataType) -> u8 {
    match dt {
        DataType::Null => TYPE_NULL,
        DataType::Str => TYPE_STRING,
        DataType::Int => TYPE_INT,
        DataType::Bool => TYPE_BOOL,
        DataType::Bytes => TYPE_BYTES,
        DataType::Nested => TYPE_NESTED,
        DataType::Float => TYPE_FLOAT,
        DataType::Float32 => TYPE_FLOAT32,
    }
}

/// The data type a wire byte stands for, if any.
pub open spec fn data_type_of(byte: u8) -> Option<DataType> {
    if byte == TYPE_NULL {
        Some(DataType::Null)
    } else if byte == TYPE_STRING {
        Some(DataType::Str)
    } else if byte == TYPE_INT {
        Some(DataType::Int)
    } else if byte == TYPE_BOOL {
        Some(DataType::Bool)
    } else if byte == TYPE_BYTES {
        Some(DataType::Bytes)
    } else if byte == TYPE_NESTED {
        Some(DataType::Nested)
    } else if byte == TYPE_FLOAT {
        Some(DataType::Float)
    } else if byte == TYPE_FLOAT32 {
        Some(DataType::Float32)
    } else {
        None
    }
}

/// Parsing a type byte gives back the type that produced it, and a byte that
/// parses gives back itself.
pub proof fn lemma_type_byte_round_trip(dt: DataType, byte: u8)
    ensures
        data_type_of(type_byte(dt)) == Some(dt),
        data_type_of(byte) matches Some(d) ==> type_byte(d) == byte,
{
}

impl DataType {
    /// Parse a wire-format type byte into a `DataType`.
    ///
    /// # Errors
    /// Returns `HrestError::InvalidDataType` for unknown byte values.
    pub fn parse(byte: u8) -> (res: Result<DataType, HrestError>)
        ensures
            match data_type_of(byte) {
                Some(dt) => res matches Ok(d) && d == dt,
                None => res matches Err(e) && e@ == ErrorModel::InvalidDataType(byte),
            },
    {
        match byte {
            TYPE_NULL => Ok(DataType::Null),
            TYPE_STRING => Ok(DataType::Str),
            TYPE_INT => Ok(DataType::Int),
            TYPE_BOOL => Ok(DataType::Bool),
            TYPE_BYTES => Ok(DataType::Bytes),
            TYPE_NESTED => Ok(DataType::Nested),
            TYPE_FLOAT => Ok(DataType::Float),
            TYPE_FLOAT32 => Ok(DataType::Float32),
            other => Err(HrestError::InvalidDataType(other)),
        }
    }

    /// The wire-format type byte of this data type.
    pub fn to_byte(self) -> (b: u8)
        ensures
            b == type_byte(self),
    {
        match self {
            DataType::Null => TYPE_NULL,
            DataType::Str => TYPE_STRING,
            DataType::Int => TYPE_INT,
            DataType::Bool => TYPE_BOOL,
            DataType::Bytes => TYPE_BYTES,
            DataType::Nested => TYPE_NESTED,
            DataType::Float => TYPE_FLOAT,
            DataType::Float32 => TYPE_FLOAT32,
        }
    }

    /// The display name of this data type.
    pub fn name(&self) -> (s: &'static str)
        ensures
            s@ == data_type_name(*self),
    {
        match self {
            DataType::Null => "Null",
            DataType::Str => "String",
            DataType::Int => "Int",
            DataType::Bool => "Bool",
            DataType::Bytes => "Bytes",
            DataType::Nested => "Nested",
            DataType::Float => "Float",
            DataType::Float32 => "Float32",
        }
    }
}

/// The display name of a data type.
pub open spec fn data_type_name(dt: DataType) -> Seq<char> {
    match dt {
        DataType::Null => "Null"@,
        DataType::Str => "String"@,
        DataType::Int => "Int"@,
        DataType::Bool => "Bool"@,
        DataType::Bytes => "Bytes"@,
        DataType::Nested => "Nested"@,
        DataType::Float => "Float"@,
        DataType::Float32 => "Float32"@,
    }
}

impl TryFrom<u8> for DataType {
    type Error = HrestError;

    /// Parse a wire-format type byte into a `DataType`.
    fn try_from(byte: u8) -> (res: Result<Self, Self::Error>) {
        DataType::parse(byte)
    }
}

impl vstd::std_specs::convert::TryFromSpecImpl<u8> for DataType {
    open spec fn obeys_try_from_spec() -> bool {
        true
    }

    open spec fn try_from_spec(byte: u8) -> Result<Self, Self::Error> {
        match data_type_of(byte) {
            Some(dt) => Ok(dt),
            None => Err(HrestError::InvalidDataType(byte)),
        }
    }
}

impl From<DataType> for u8 {
    fn from(dt: DataType) -> (b: u8) {
        dt.to_byte()
    }
}

impl vstd::std_specs::convert::FromSpecImpl<DataType> for u8 {
    open spec fn obeys_from_spec() -> bool {
        true
    }

    open spec fn from_spec(dt: DataType) -> u8 {
        type_byte(dt)
    }
}

} // verus!
