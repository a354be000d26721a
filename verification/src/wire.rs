//! The wire format, stated as what encoding produces and what decoding
//! reads.
//!
//! ```text
//! Packet = (FieldID:u8  Value)*
//! Value  = 0x00                                  Null
//!        | 0x01 [compact len] [utf8 bytes]       String
//!        | 0x02 [zigzag varint]                  Integer
//!        | 0x03 [0x00 | 0x01]                    Boolean
//!        | 0x04 [compact len] [raw bytes]        Bytes (read back as hex text)
//!        | 0x05 0x00 [compact count] (FieldID Value)*   Object
//!        | 0x05 0x01 [compact count] Value*             Array
//!        | 0x06 [f64 LE 8 bytes]
//!        | 0x07 [f32 LE 4 bytes]
//! compact n = n < 255 ? [n] : [0xFF, n & 0xFF, n >> 8]
//! ```

use vstd::prelude::*;
use vstd::utf8::{decode_utf8, encode_utf8, valid_utf8};

use crate::contract::{spec_field_id, spec_field_name, spec_route_fields, FieldModel, RoutesModel};
use crate::data_type::{data_type_of, DataType};
use crate::error::ErrorModel;
use crate::json::{JsonModel, JsonNumber};
use crate::outside::{hex_lower, utf8_error_text};
use crate::text::{decimal, hex2_upper};
use crate::varint::{
    lemma_decode_varint_consumes, spec_decode_varint, spec_encode_varint, varint_fault_error,
};

verus! {

/// Maximum allowed nesting depth for nested objects/arrays.
pub const MAX_NESTING_DEPTH: usize = 32;

/// Soft cap on pre-allocated capacity for a decoded object or array.
pub const MAX_PREALLOC_CAPACITY: usize = 256;

/// Largest length or count a compact field can carry.
pub const MAX_COMPACT_VALUE: usize = 65535;

/// Object members as (key, value) pairs.
pub type Members = Seq<(Seq<char>, JsonModel)>;

// ---------------------------------------------------------------------------
// Fixed-width pieces
// ---------------------------------------------------------------------------

/// The compact encoding of a length or count up to 65535.
pub open spec fn compact(n: nat) -> Seq<u8> {
    if n < 255 {
        seq![n as u8]
    } else {
        seq![255u8, (n % 256) as u8, (n / 256) as u8]
    }
}

/// Eight bytes, least significant first.
pub open spec fn le_bytes64(x: u64) -> Seq<u8> {
    seq![
        x as u8,
        (x >> 8u64) as u8,
        (x >> 16u64) as u8,
        (x >> 24u64) as u8,
        (x >> 32u64) as u8,
        (x >> 40u64) as u8,
        (x >> 48u64) as u8,
        (x >> 56u64) as u8,
    ]
}

/// Four bytes, least significant first.
pub open spec fn le_bytes32(x: u32) -> Seq<u8> {
    seq![x as u8, (x >> 8u32) as u8, (x >> 16u32) as u8, (x >> 24u32) as u8]
}

/// The little-endian 64-bit value of eight bytes.
pub open spec fn le_value64(b0: u8, b1: u8, b2: u8, b3: u8, b4: u8, b5: u8, b6: u8, b7: u8) -> u64 {
    (b0 as u64) | ((b1 as u64) << 8u64) | ((b2 as u64) << 16u64) | ((b3 as u64) << 24u64) | ((
    b4 as u64) << 32u64) | ((b5 as u64) << 40u64) | ((b6 as u64) << 48u64) | ((b7 as u64)
        << 56u64)
}

/// The little-endian 32-bit value of four bytes.
pub open spec fn le_value32(b0: u8, b1: u8, b2: u8, b3: u8) -> u32 {
    (b0 as u32) | ((b1 as u32) << 8u32) | ((b2 as u32) << 16u32) | ((b3 as u32) << 24u32)
}

/// The 64-bit value of the eight bytes of `s` from `p`.
pub open spec fn le64_at(s: Seq<u8>, p: int) -> u64 {
    le_value64(s[p], s[p + 1], s[p + 2], s[p + 3], s[p + 4], s[p + 5], s[p + 6], s[p + 7])
}

/// The 32-bit value of the four bytes of `s` from `p`.
pub open spec fn le32_at(s: Seq<u8>, p: int) -> u32 {
    le_value32(s[p], s[p + 1], s[p + 2], s[p + 3])
}

/// A binary64 bit pattern is neither NaN nor an infinity: its exponent is
/// not all ones.
pub open spec fn finite64(bits: u64) -> bool {
    (bits >> 52u64) & 0x7ffu64 != 0x7ffu64
}

/// A binary32 bit pattern is neither NaN nor an infinity.
pub open spec fn finite32(bits: u32) -> bool {
    (bits >> 23u32) & 0xffu32 != 0xffu32
}

// ---------------------------------------------------------------------------
// Messages
// ---------------------------------------------------------------------------

pub open spec fn depth_message(depth: nat) -> Seq<char> {
    "Nesting depth "@ + decimal(depth) + " exceeds maximum allowed ("@ + decimal(
        MAX_NESTING_DEPTH as nat,
    ) + ") \u{2014} possible attack vector"@
}

pub open spec fn kind_message(kind: u8) -> Seq<char> {
    "Unknown nested kind 0x"@ + hex2_upper(kind) + " (expected 0x00=object or 0x01=array)"@
}

pub open spec fn utf8_message(bytes: Seq<u8>) -> Seq<char> {
    "Invalid UTF-8 in string field: "@ + utf8_error_text(bytes)
}

pub open spec fn float64_message() -> Seq<char> {
    "Float64 value is NaN or Infinity \u{2014} not representable in JSON (security reject)"@
}

pub open spec fn float32_message() -> Seq<char> {
    "Float32 value is NaN or Infinity \u{2014} not representable in JSON (security reject)"@
}

pub open spec fn not_object_message() -> Seq<char> {
    "Top-level payload must be a JSON object `{}`"@
}

pub open spec fn uint_message(u: u64) -> Seq<char> {
    "Integer "@ + decimal(u as nat) + " exceeds i64::MAX; use a float for large unsigned values"@
}

pub open spec fn string_too_long_message(n: nat) -> Seq<char> {
    "String too long: "@ + decimal(n) + " bytes (max 65535)"@
}

pub open spec fn bytes_too_long_message(n: nat) -> Seq<char> {
    "Bytes value too long: "@ + decimal(n) + " bytes (max 65535)"@
}

pub open spec fn array_too_long_message(n: nat) -> Seq<char> {
    "Array too long: "@ + decimal(n) + " elements (max 65535)"@
}

pub open spec fn object_too_long_message(n: nat) -> Seq<char> {
    "Nested object has too many fields: "@ + decimal(n) + " (max 65535)"@
}

// ---------------------------------------------------------------------------
// Decoding
// ---------------------------------------------------------------------------

/// Reading past the end: `needed` bytes wanted at `pos`.
pub open spec fn overflow(needed: nat, s: Seq<u8>, pos: nat) -> ErrorModel {
    ErrorModel::BufferOverflow { needed, available: (s.len() - pos) as nat }
}

/// Reading a compact length at `pos`: the value and the position after it.
pub open spec fn parse_compact(s: Seq<u8>, pos: nat) -> Result<(nat, nat), ErrorModel> {
    if pos >= s.len() {
        Err(overflow(1, s, pos))
    } else if s[pos as int] < 255 {
        Ok((s[pos as int] as nat, pos + 1))
    } else if s.len() - (pos + 1) < 2 {
        Err(overflow(2, s, pos + 1))
    } else {
        Ok(((s[pos + 1int] as nat) + 256 * (s[pos + 2int] as nat), pos + 3))
    }
}

/// Reading `n` raw bytes at `pos`.
pub open spec fn parse_raw(s: Seq<u8>, pos: nat, n: nat) -> Result<(Seq<u8>, nat), ErrorModel> {
    if n > s.len() - pos {
        Err(overflow(n, s, pos))
    } else {
        Ok((s.subrange(pos as int, (pos + n) as int), pos + n))
    }
}

/// The position of `key` among the members, if present.
pub open spec fn is_key_at(m: Members, key: Seq<char>, i: int) -> bool {
    &&& 0 <= i < m.len()
    &&& m[i].0 == key
    &&& forall|j: int| 0 <= j < i ==> m[j].0 != key
}

/// Inserting a member as a JSON map does: an existing key keeps its place
/// and takes the new value; a new key goes last.
pub open spec fn members_insert(m: Members, key: Seq<char>, v: JsonModel) -> Members {
    if exists|i: int| is_key_at(m, key, i) {
        m.update(choose|i: int| is_key_at(m, key, i), (key, v))
    } else {
        m.push((key, v))
    }
}

/// Reading a string value's length and UTF-8 bytes at `pos`.
pub open spec fn parse_string(s: Seq<u8>, pos: nat) -> Result<(JsonModel, nat), ErrorModel> {
    match parse_compact(s, pos) {
        Err(e) => Err(e),
        Ok((n, q)) => match parse_raw(s, q, n) {
            Err(e) => Err(e),
            Ok((b, r)) => if valid_utf8(b) {
                Ok((JsonModel::Str(decode_utf8(b)), r))
            } else {
                Err(ErrorModel::MalformedPayload(utf8_message(b)))
            },
        },
    }
}

/// Reading a varint integer value at `pos`.
pub open spec fn parse_int(s: Seq<u8>, pos: nat) -> Result<(JsonModel, nat), ErrorModel> {
    match spec_decode_varint(s.subrange(pos as int, s.len() as int)) {
        Ok((v, c)) => Ok((JsonModel::Number(JsonNumber::Int(v as i64)), pos + c)),
        Err(f) => Err(varint_fault_error(f)),
    }
}

/// Reading a boolean value's byte at `pos`: any non-zero byte is `true`.
pub open spec fn parse_bool(s: Seq<u8>, pos: nat) -> Result<(JsonModel, nat), ErrorModel> {
    if pos >= s.len() {
        Err(overflow(1, s, pos))
    } else {
        Ok((JsonModel::Bool(s[pos as int] != 0), pos + 1))
    }
}

/// Reading a raw bytes value at `pos`; it reads back as hexadecimal text.
pub open spec fn parse_bytes(s: Seq<u8>, pos: nat) -> Result<(JsonModel, nat), ErrorModel> {
    match parse_compact(s, pos) {
        Err(e) => Err(e),
        Ok((n, q)) => match parse_raw(s, q, n) {
            Err(e) => Err(e),
            Ok((b, r)) => Ok((JsonModel::Str(hex_lower(b)), r)),
        },
    }
}

/// Reading a binary64 value at `pos`; NaN and infinities are refused.
pub open spec fn parse_float64(s: Seq<u8>, pos: nat) -> Result<(JsonModel, nat), ErrorModel> {
    if s.len() - pos < 8 {
        Err(overflow(8, s, pos))
    } else if finite64(le64_at(s, pos as int)) {
        Ok((JsonModel::Number(JsonNumber::Float64(le64_at(s, pos as int))), pos + 8))
    } else {
        Err(ErrorModel::MalformedPayload(float64_message()))
    }
}

/// Reading a binary32 value at `pos`; NaN and infinities are refused.
pub open spec fn parse_float32(s: Seq<u8>, pos: nat) -> Result<(JsonModel, nat), ErrorModel> {
    if s.len() - pos < 4 {
        Err(overflow(4, s, pos))
    } else if finite32(le32_at(s, pos as int)) {
        Ok((JsonModel::Number(JsonNumber::Float32(le32_at(s, pos as int))), pos + 4))
    } else {
        Err(ErrorModel::MalformedPayload(float32_message()))
    }
}

/// Reading one typed value at `pos`, `depth` levels deep: the value and the
/// position after it.
pub open spec fn parse_value(s: Seq<u8>, pos: nat, fm: FieldModel, depth: nat) -> Result<
    (JsonModel, nat),
    ErrorModel,
>
    decreases 33 - depth, 0int, 0int,
{
    if pos >= s.len() {
        Err(overflow(1, s, pos))
    } else {
        let t = s[pos as int];
        let p = pos + 1;
        match data_type_of(t) {
            None => Err(ErrorModel::InvalidDataType(t)),
            Some(DataType::Null) => Ok((JsonModel::Null, p)),
            Some(DataType::Str) => parse_string(s, p),
            Some(DataType::Int) => parse_int(s, p),
            Some(DataType::Bool) => parse_bool(s, p),
            Some(DataType::Bytes) => parse_bytes(s, p),
            Some(DataType::Float) => parse_float64(s, p),
            Some(DataType::Float32) => parse_float32(s, p),
            Some(DataType::Nested) => if depth + 1 > MAX_NESTING_DEPTH {
                Err(ErrorModel::MalformedPayload(depth_message(depth + 1)))
            } else {
                parse_nested(s, p, fm, depth + 1)
            },
        }
    }
}

/// Reading a nested object or array at `pos` (just after its type byte),
/// at nesting level `depth`.
pub open spec fn parse_nested(s: Seq<u8>, pos: nat, fm: FieldModel, depth: nat) -> Result<
    (JsonModel, nat),
    ErrorModel,
>
    decreases 33 - depth, 2int, 0int,
{
    if depth > MAX_NESTING_DEPTH {
        Err(ErrorModel::MalformedPayload(depth_message(depth)))
    } else if pos >= s.len() {
        Err(overflow(1, s, pos))
    } else if s[pos as int] == 0 {
        match parse_compact(s, pos + 1) {
            Err(e) => Err(e),
            Ok((n, q)) => match parse_members(s, q, n, fm, depth, Seq::empty()) {
                Err(e) => Err(e),
                Ok((m, r)) => Ok((JsonModel::Object(m), r)),
            },
        }
    } else if s[pos as int] == 1 {
        match parse_compact(s, pos + 1) {
            Err(e) => Err(e),
            Ok((n, q)) => match parse_items(s, q, n, fm, depth, Seq::empty()) {
                Err(e) => Err(e),
                Ok((a, r)) => Ok((JsonModel::Array(a), r)),
            },
        }
    } else {
        Err(ErrorModel::MalformedPayload(kind_message(s[pos as int])))
    }
}

/// Reading `count` (field ID, value) pairs of a nested object at `pos`,
/// inserting each into `acc`.
pub open spec fn parse_members(
    s: Seq<u8>,
    pos: nat,
    count: nat,
    fm: FieldModel,
    depth: nat,
    acc: Members,
) -> Result<(Members, nat), ErrorModel>
    decreases 33 - depth, 1int, count,
{
    if count == 0 {
        Ok((acc, pos))
    } else if pos >= s.len() {
        Err(overflow(1, s, pos))
    } else {
        let id = s[pos as int];
        match spec_field_name(fm, id) {
            None => Err(ErrorModel::UnknownToken(id)),
            Some(name) => match parse_value(s, pos + 1, fm, depth) {
                Err(e) => Err(e),
                Ok((v, p)) => parse_members(
                    s,
                    p,
                    (count - 1) as nat,
                    fm,
                    depth,
                    members_insert(acc, name, v),
                ),
            },
        }
    }
}

/// Reading `count` values of a nested array at `pos`, appending each to
/// `acc`.
pub open spec fn parse_items(
    s: Seq<u8>,
    pos: nat,
    count: nat,
    fm: FieldModel,
    depth: nat,
    acc: Seq<JsonModel>,
) -> Result<(Seq<JsonModel>, nat), ErrorModel>
    decreases 33 - depth, 1int, count,
{
    if count == 0 {
        Ok((acc, pos))
    } else {
        match parse_value(s, pos, fm, depth) {
            Err(e) => Err(e),
            Ok((v, p)) => parse_items(s, p, (count - 1) as nat, fm, depth, acc.push(v)),
        }
    }
}


/// Reading (field ID, value) pairs at top level until the bytes end,
/// inserting each into `acc`.
pub open spec fn parse_fields(s: Seq<u8>, pos: nat, fm: FieldModel, acc: Members) -> Result<
    Members,
    ErrorModel,
>
    decreases s.len() - pos,
    via parse_fields_decreases
{
    if pos >= s.len() {
        Ok(acc)
    } else {
        let id = s[pos as int];
        match spec_field_name(fm, id) {
            None => Err(ErrorModel::UnknownToken(id)),
            Some(name) => match parse_value(s, pos + 1, fm, 0) {
                Err(e) => Err(e),
                Ok((v, p)) => parse_fields(s, p, fm, members_insert(acc, name, v)),
            },
        }
    }
}

#[via_fn]
proof fn parse_fields_decreases(s: Seq<u8>, pos: nat, fm: FieldModel, acc: Members) {
    if pos < s.len() {
        lemma_value_advances(s, pos + 1, fm, 0);
    }
}

/// Decoding a whole packet for `route`: the top-level object.
pub open spec fn spec_decode_payload(routes: RoutesModel, route: Seq<char>, s: Seq<u8>) -> Result<
    JsonModel,
    ErrorModel,
> {
    match spec_route_fields(routes, route) {
        None => Err(ErrorModel::UnknownRoute(route)),
        Some(fm) => match parse_fields(s, 0, fm, Seq::empty()) {
            Err(e) => Err(e),
            Ok(m) => Ok(JsonModel::Object(m)),
        },
    }
}

/// A successful read of a value moves forward and stays within the bytes.
pub proof fn lemma_value_advances(s: Seq<u8>, pos: nat, fm: FieldModel, depth: nat)
    ensures
        parse_value(s, pos, fm, depth) matches Ok((v, p)) ==> pos < p <= s.len(),
    decreases 33 - depth, 0int, 0int,
{
    if pos < s.len() {
        let p = pos + 1;
        match data_type_of(s[pos as int]) {
            Some(DataType::Int) => {
                lemma_decode_varint_consumes(s.subrange(p as int, s.len() as int), 0);
            },
            Some(DataType::Nested) => {
                if depth + 1 <= MAX_NESTING_DEPTH {
                    lemma_nested_advances(s, p, fm, depth + 1);
                }
            },
            _ => {},
        }
    }
}

pub proof fn lemma_nested_advances(s: Seq<u8>, pos: nat, fm: FieldModel, depth: nat)
    ensures
        parse_nested(s, pos, fm, depth) matches Ok((v, p)) ==> pos < p <= s.len(),
    decreases 33 - depth, 2int, 0int,
{
    if depth <= MAX_NESTING_DEPTH && pos < s.len() {
        if let Ok((n, q)) = parse_compact(s, pos + 1) {
            if s[pos as int] == 0 {
                lemma_members_advance(s, q, n, fm, depth, Seq::empty());
            } else if s[pos as int] == 1 {
                lemma_items_advance(s, q, n, fm, depth, Seq::empty());
            }
        }
    }
}

pub proof fn lemma_members_advance(
    s: Seq<u8>,
    pos: nat,
    count: nat,
    fm: FieldModel,
    depth: nat,
    acc: Members,
)
    requires
        pos <= s.len(),
    ensures
        parse_members(s, pos, count, fm, depth, acc) matches Ok((m, p)) ==> pos <= p <= s.len(),
    decreases 33 - depth, 1int, count,
{
    if count > 0 && pos < s.len() {
        if let Some(name) = spec_field_name(fm, s[pos as int]) {
            lemma_value_advances(s, pos + 1, fm, depth);
            if let Ok((v, p)) = parse_value(s, pos + 1, fm, depth) {
                lemma_members_advance(
                    s,
                    p,
                    (count - 1) as nat,
                    fm,
                    depth,
                    members_insert(acc, name, v),
                );
            }
        }
    }
}

pub proof fn lemma_items_advance(
    s: Seq<u8>,
    pos: nat,
    count: nat,
    fm: FieldModel,
    depth: nat,
    acc: Seq<JsonModel>,
)
    requires
        pos <= s.len(),
    ensures
        parse_items(s, pos, count, fm, depth, acc) matches Ok((a, p)) ==> pos <= p <= s.len(),
    decreases 33 - depth, 1int, count,
{
    if count > 0 {
        lemma_value_advances(s, pos, fm, depth);
        if let Ok((v, p)) = parse_value(s, pos, fm, depth) {
            lemma_items_advance(s, p, (count - 1) as nat, fm, depth, acc.push(v));
        }
    }
}

// ---------------------------------------------------------------------------
// Encoding
// ---------------------------------------------------------------------------

/// The bytes of a number: integers as varints, floats by their bits.
pub open spec fn enc_number(n: JsonNumber) -> Result<Seq<u8>, ErrorModel> {
    match n {
        JsonNumber::Int(i) => Ok(seq![0x02u8] + spec_encode_varint(i)),
        JsonNumber::UInt(u) => Err(ErrorModel::MalformedPayload(uint_message(u))),
        JsonNumber::Float64(bits) => Ok(seq![0x06u8] + le_bytes64(bits)),
        JsonNumber::Float32(bits) => Ok(seq![0x07u8] + le_bytes32(bits)),
    }
}

/// The bytes of one typed value.
pub open spec fn enc_value(v: JsonModel, fm: FieldModel) -> Result<Seq<u8>, ErrorModel>
    decreases v,
{
    match v {
        JsonModel::Null => Ok(seq![0x00u8]),
        JsonModel::Bool(b) => Ok(seq![0x03u8, if b { 1u8 } else { 0u8 }]),
        JsonModel::Number(n) => enc_number(n),
        JsonModel::Str(cs) => {
            let b = encode_utf8(cs);
            if b.len() > MAX_COMPACT_VALUE {
                Err(ErrorModel::MalformedPayload(string_too_long_message(b.len())))
            } else {
                Ok(seq![0x01u8] + compact(b.len()) + b)
            }
        },
        JsonModel::Array(items) => if items.len() > MAX_COMPACT_VALUE {
            Err(ErrorModel::MalformedPayload(array_too_long_message(items.len())))
        } else {
            match enc_items(items, fm) {
                Err(e) => Err(e),
                Ok(b) => Ok(seq![0x05u8, 0x01u8] + compact(items.len()) + b),
            }
        },
        JsonModel::Object(m) => if m.len() > MAX_COMPACT_VALUE {
            Err(ErrorModel::MalformedPayload(object_too_long_message(m.len())))
        } else {
            match enc_members(m, fm) {
                Err(e) => Err(e),
                Ok(b) => Ok(seq![0x05u8, 0x00u8] + compact(m.len()) + b),
            }
        },
    }
}

/// The bytes of a sequence of values, in order; the first failure wins.
pub open spec fn enc_items(items: Seq<JsonModel>, fm: FieldModel) -> Result<Seq<u8>, ErrorModel>
    decreases items,
{
    if items.len() == 0 {
        Ok(Seq::empty())
    } else {
        match enc_value(items[0], fm) {
            Err(e) => Err(e),
            Ok(b) => match enc_items(items.drop_first(), fm) {
                Err(e) => Err(e),
                Ok(r) => Ok(b + r),
            },
        }
    }
}

/// The bytes of object members as (field ID, value) pairs, in order; the
/// first failure wins.
pub open spec fn enc_members(m: Members, fm: FieldModel) -> Result<Seq<u8>, ErrorModel>
    decreases m,
{
    if m.len() == 0 {
        Ok(Seq::empty())
    } else {
        match spec_field_id(fm, m[0].0) {
            None => Err(ErrorModel::UnknownField(m[0].0)),
            Some(id) => match enc_value(m[0].1, fm) {
                Err(e) => Err(e),
                Ok(b) => match enc_members(m.drop_first(), fm) {
                    Err(e) => Err(e),
                    Ok(r) => Ok(seq![id] + b + r),
                },
            },
        }
    }
}

/// Encoding a payload for `route`: it must be an object.
pub open spec fn spec_encode_payload(routes: RoutesModel, route: Seq<char>, v: JsonModel) -> Result<
    Seq<u8>,
    ErrorModel,
> {
    match spec_route_fields(routes, route) {
        None => Err(ErrorModel::UnknownRoute(route)),
        Some(fm) => match v {
            JsonModel::Object(m) => enc_members(m, fm),
            _ => Err(ErrorModel::MalformedPayload(not_object_message())),
        },
    }
}

/// The bytes of a raw byte value.
pub open spec fn enc_bytes(b: Seq<u8>) -> Result<Seq<u8>, ErrorModel> {
    if b.len() > MAX_COMPACT_VALUE {
        Err(ErrorModel::MalformedPayload(bytes_too_long_message(b.len())))
    } else {
        Ok(seq![0x04u8] + compact(b.len()) + b)
    }
}

} // verus!
