//! Decoding a binary HRest TLV stream into a JSON value.
//!
//! Every read is bounds-checked, nesting is capped at `MAX_NESTING_DEPTH`,
//! unknown tokens and type bytes are refused, and NaN / infinite floats are
//! rejected since JSON cannot hold them.

use vstd::prelude::*;
use vstd::slice::slice_subrange;

use crate::contract::FieldMap;
use crate::data_type::{DataType, COMPACT_SENTINEL, NESTED_KIND_ARRAY, NESTED_KIND_OBJECT};
use crate::error::{malformed, ErrorModel, HrestError};
use crate::json::{
    items_model, lemma_array_model, lemma_object_model, members_model, JsonNumber, JsonValue,
};
use crate::outside::{hex_encode, utf8_to_string};
use crate::ports::ContractProvider;
use crate::text::{decimal_string, hex2_upper_string};
use crate::varint::decode_varint;
use crate::wire::{
    depth_message, is_key_at, lemma_value_advances, members_insert, overflow, parse_bool, parse_bytes,
    parse_compact, parse_fields, parse_float32, parse_float64, parse_int, parse_items,
    parse_members, parse_nested, parse_raw, parse_string, parse_value, spec_decode_payload,
    MAX_NESTING_DEPTH, MAX_PREALLOC_CAPACITY,
};

verus! {

/// A bounds-checked reader over a byte slice.
pub struct ByteCursor<'a> {
    data: &'a [u8],
    pos: usize,
}

impl<'a> ByteCursor<'a> {
    /// The bytes being read.
    pub closed spec fn bytes(&self) -> Seq<u8> {
        self.data@
    }

    /// How many bytes have been read.
    pub closed spec fn position(&self) -> nat {
        self.pos as nat
    }

    /// The position lies within the bytes.
    pub open spec fn wf(&self) -> bool {
        self.position() <= self.bytes().len()
    }

    /// A cursor at the start of `data`.
    pub fn new(data: &'a [u8]) -> (c: Self)
        ensures
            c.bytes() == data@,
            c.position() == 0,
            c.wf(),
    {
        ByteCursor { data, pos: 0 }
    }

    /// Number of bytes remaining unread.
    pub fn remaining(&self) -> (n: usize)
        requires
            self.wf(),
        ensures
            n == self.bytes().len() - self.position(),
    {
        self.data.len() - self.pos
    }

    /// Returns `true` when all bytes have been consumed.
    pub fn is_exhausted(&self) -> (b: bool)
        ensures
            b == (self.position() >= self.bytes().len()),
    {
        self.pos >= self.data.len()
    }

    /// Bounds check: `BufferOverflow` if fewer than `needed` bytes remain.
    pub fn ensure_available(&self, needed: usize) -> (r: Result<(), HrestError>)
        requires
            self.wf(),
        ensures
            match r {
                Ok(()) => needed <= self.bytes().len() - self.position(),
                Err(e) => needed > self.bytes().len() - self.position() && e@ == overflow(
                    needed as nat,
                    self.bytes(),
                    self.position(),
                ),
            },
    {
        let available = self.remaining();
        if needed > available {
            Err(HrestError::BufferOverflow { needed, available })
        } else {
            Ok(())
        }
    }

    /// Read a single byte. Bounds-checked.
    pub fn read_u8(&mut self) -> (r: Result<u8, HrestError>)
        requires
            old(self).wf(),
        ensures
            final(self).wf(),
            final(self).bytes() == old(self).bytes(),
            if old(self).position() < old(self).bytes().len() {
                r matches Ok(b) && b == old(self).bytes()[old(self).position() as int]
                    && final(self).position() == old(self).position() + 1
            } else {
                r matches Err(e) && e@ == overflow(1, old(self).bytes(), old(self).position())
                    && final(self).position() == old(self).position()
            },
    {
        self.ensure_available(1)?;
        let byte = self.data[self.pos];
        self.pos = self.pos + 1;
        Ok(byte)
    }

    /// Read 2 bytes as a little-endian u16. Bounds-checked.
    pub fn read_u16_le(&mut self) -> (r: Result<u16, HrestError>)
        requires
            old(self).wf(),
        ensures
            final(self).wf(),
            final(self).bytes() == old(self).bytes(),
            ({
                let s = old(self).bytes();
                let p = old(self).position();
                if s.len() - p >= 2 {
                    r matches Ok(v) && v == (s[p as int] as nat) + 256 * (s[p + 1int] as nat)
                        && final(self).position() == p + 2
                } else {
                    r matches Err(e) && e@ == overflow(2, s, p) && final(self).position() == p
                }
            }),
    {
        self.ensure_available(2)?;
        let lo = self.data[self.pos] as u16;
        let hi = self.data[self.pos + 1] as u16;
        self.pos = self.pos + 2;
        Ok(lo + hi * 256)
    }

    /// Read exactly `len` bytes and return a slice. Bounds-checked.
    pub fn read_bytes(&mut self, len: usize) -> (r: Result<&'a [u8], HrestError>)
        requires
            old(self).wf(),
        ensures
            final(self).wf(),
            final(self).bytes() == old(self).bytes(),
            match parse_raw(old(self).bytes(), old(self).position(), len as nat) {
                Ok((b, q)) => r matches Ok(x) && x@ == b && final(self).position() == q,
                Err(e) => r matches Err(x) && x@ == e && final(self).position()
                    == old(self).position(),
            },
    {
        self.ensure_available(len)?;
        let total = self.data.len();
        let slice = slice_subrange(self.data, self.pos, self.pos + len);
        self.pos = self.pos + len;
        Ok(slice)
    }

    /// Read exactly 8 bytes as a fixed-size array. Bounds-checked.
    pub fn read_bytes_8(&mut self) -> (r: Result<[u8; 8], HrestError>)
        requires
            old(self).wf(),
        ensures
            final(self).wf(),
            final(self).bytes() == old(self).bytes(),
            ({
                let s = old(self).bytes();
                let p = old(self).position();
                if s.len() - p >= 8 {
                    r matches Ok(a) && a@ == s.subrange(p as int, p + 8int) && final(self).position()
                        == p + 8
                } else {
                    r matches Err(e) && e@ == overflow(8, s, p) && final(self).position() == p
                }
            }),
    {
        self.ensure_available(8)?;
        let p = self.pos;
        let arr: [u8; 8] = [
            self.data[p],
            self.data[p + 1],
            self.data[p + 2],
            self.data[p + 3],
            self.data[p + 4],
            self.data[p + 5],
            self.data[p + 6],
            self.data[p + 7],
        ];
        self.pos = p + 8;
        assert(arr@ =~= self.data@.subrange(p as int, p + 8));
        Ok(arr)
    }

    /// Read exactly 4 bytes as a fixed-size array. Bounds-checked.
    pub fn read_bytes_4(&mut self) -> (r: Result<[u8; 4], HrestError>)
        requires
            old(self).wf(),
        ensures
            final(self).wf(),
            final(self).bytes() == old(self).bytes(),
            ({
                let s = old(self).bytes();
                let p = old(self).position();
                if s.len() - p >= 4 {
                    r matches Ok(a) && a@ == s.subrange(p as int, p + 4int) && final(self).position()
                        == p + 4
                } else {
                    r matches Err(e) && e@ == overflow(4, s, p) && final(self).position() == p
                }
            }),
    {
        self.ensure_available(4)?;
        let p = self.pos;
        let arr: [u8; 4] = [self.data[p], self.data[p + 1], self.data[p + 2], self.data[p + 3]];
        self.pos = p + 4;
        assert(arr@ =~= self.data@.subrange(p as int, p + 4));
        Ok(arr)
    }

    /// The bytes from the current position to the end.
    pub fn remaining_slice(&self) -> (r: &'a [u8])
        requires
            self.wf(),
        ensures
            r@ == self.bytes().subrange(self.position() as int, self.bytes().len() as int),
    {
        slice_subrange(self.data, self.pos, self.data.len())
    }

    /// Advance by `n` bytes. Bounds-checked.
    pub fn advance(&mut self, n: usize) -> (r: Result<(), HrestError>)
        requires
            old(self).wf(),
        ensures
            final(self).wf(),
            final(self).bytes() == old(self).bytes(),
            ({
                let s = old(self).bytes();
                let p = old(self).position();
                if n <= s.len() - p {
                    r is Ok && final(self).position() == p + n
                } else {
                    r matches Err(e) && e@ == overflow(n as nat, s, p) && final(self).position()
                        == p
                }
            }),
    {
        self.ensure_available(n)?;
        let total = self.data.len();
        self.pos = self.pos + n;
        Ok(())
    }
}

/// What a decoding step promises about the cursor: same bytes, still
/// well-formed.
pub open spec fn cursor_kept(before: ByteCursor, after: ByteCursor) -> bool {
    after.wf() && after.bytes() == before.bytes()
}

/// The result of a decoding step matches what the wire format reads.
pub open spec fn read_matches(
    spec: Result<(crate::json::JsonModel, nat), ErrorModel>,
    r: Result<JsonValue, HrestError>,
    after: ByteCursor,
) -> bool {
    match spec {
        Ok((m, p)) => r matches Ok(v) && v@ == m && after.position() == p,
        Err(e) => r matches Err(x) && x@ == e,
    }
}

/// Read a compact length (v2 format):
/// - If next byte < 0xFF: that byte IS the length (1 byte total)
/// - If next byte == 0xFF: read following 2 bytes as u16-LE length
pub fn read_compact_len(cursor: &mut ByteCursor) -> (r: Result<usize, HrestError>)
    requires
        old(cursor).wf(),
    ensures
        cursor_kept(*old(cursor), *final(cursor)),
        match parse_compact(old(cursor).bytes(), old(cursor).position()) {
            Ok((n, q)) => r matches Ok(x) && x == n && final(cursor).position() == q,
            Err(e) => r matches Err(x) && x@ == e,
        },
{
    let byte = cursor.read_u8()?;
    if byte < COMPACT_SENTINEL {
        Ok(byte as usize)
    } else {
        Ok(cursor.read_u16_le()? as usize)
    }
}

/// Read a compact count (v2 format): same encoding as compact length.
pub fn read_compact_count(cursor: &mut ByteCursor) -> (r: Result<usize, HrestError>)
    requires
        old(cursor).wf(),
    ensures
        cursor_kept(*old(cursor), *final(cursor)),
        match parse_compact(old(cursor).bytes(), old(cursor).position()) {
            Ok((n, q)) => r matches Ok(x) && x == n && final(cursor).position() == q,
            Err(e) => r matches Err(x) && x@ == e,
        },
{
    read_compact_len(cursor)
}

/// `0x00` — returns `Null`. No bytes consumed.
pub fn read_null() -> (r: Result<JsonValue, HrestError>)
    ensures
        r matches Ok(v) && v@ == crate::json::JsonModel::Null,
{
    Ok(JsonValue::Null)
}

/// `0x01 [compact len] [utf8 bytes]`.
pub fn read_string(cursor: &mut ByteCursor) -> (r: Result<JsonValue, HrestError>)
    requires
        old(cursor).wf(),
    ensures
        cursor_kept(*old(cursor), *final(cursor)),
        read_matches(parse_string(old(cursor).bytes(), old(cursor).position()), r, *final(cursor)),
{
    let len = read_compact_len(cursor)?;
    let bytes = cursor.read_bytes(len)?;
    match utf8_to_string(bytes) {
        Ok(s) => Ok(JsonValue::String(s)),
        Err(e) => {
            let mut msg = "Invalid UTF-8 in string field: ".to_owned();
            msg.append(e.as_str());
            Err(malformed(msg))
        },
    }
}

/// `0x02 [zigzag varint]`.
pub fn read_int(cursor: &mut ByteCursor) -> (r: Result<JsonValue, HrestError>)
    requires
        old(cursor).wf(),
    ensures
        cursor_kept(*old(cursor), *final(cursor)),
        read_matches(parse_int(old(cursor).bytes(), old(cursor).position()), r, *final(cursor)),
{
    let ghost s = cursor.bytes();
    let ghost p = cursor.position();
    let (value, consumed) = decode_varint(cursor.remaining_slice())?;
    proof {
        crate::varint::lemma_decode_varint_consumes(s.subrange(p as int, s.len() as int), 0);
    }
    cursor.advance(consumed)?;
    Ok(JsonValue::Number(JsonNumber::Int(value)))
}

/// `0x03 [byte]`: any non-zero byte reads as `true`.
pub fn read_bool(cursor: &mut ByteCursor) -> (r: Result<JsonValue, HrestError>)
    requires
        old(cursor).wf(),
    ensures
        cursor_kept(*old(cursor), *final(cursor)),
        read_matches(parse_bool(old(cursor).bytes(), old(cursor).position()), r, *final(cursor)),
{
    let byte = cursor.read_u8()?;
    Ok(JsonValue::Bool(byte != 0))
}

/// `0x04 [compact len] [raw bytes]`: raw bytes are hex-encoded in the JSON
/// output to represent all bit patterns safely.
pub fn read_bytes(cursor: &mut ByteCursor) -> (r: Result<JsonValue, HrestError>)
    requires
        old(cursor).wf(),
    ensures
        cursor_kept(*old(cursor), *final(cursor)),
        read_matches(parse_bytes(old(cursor).bytes(), old(cursor).position()), r, *final(cursor)),
{
    let len = read_compact_len(cursor)?;
    let bytes = cursor.read_bytes(len)?;
    Ok(JsonValue::String(hex_encode(bytes)))
}

/// `0x06 [f64 LE 8 bytes]`: NaN and infinities are rejected.
pub fn read_float(cursor: &mut ByteCursor) -> (r: Result<JsonValue, HrestError>)
    requires
        old(cursor).wf(),
    ensures
        cursor_kept(*old(cursor), *final(cursor)),
        read_matches(parse_float64(old(cursor).bytes(), old(cursor).position()), r, *final(cursor)),
{
    let a = cursor.read_bytes_8()?;
    let bits: u64 = (a[0] as u64) | ((a[1] as u64) << 8u64) | ((a[2] as u64) << 16u64) | ((
    a[3] as u64) << 24u64) | ((a[4] as u64) << 32u64) | ((a[5] as u64) << 40u64) | ((
    a[6] as u64) << 48u64) | ((a[7] as u64) << 56u64);
    if (bits >> 52u64) & 0x7ffu64 != 0x7ffu64 {
        Ok(JsonValue::Number(JsonNumber::Float64(bits)))
    } else {
        Err(
            malformed(
                "Float64 value is NaN or Infinity \u{2014} not representable in JSON (security reject)".to_owned(),
            ),
        )
    }
}

/// `0x07 [f32 LE 4 bytes]`: NaN and infinities are rejected.
pub fn read_float32(cursor: &mut ByteCursor) -> (r: Result<JsonValue, HrestError>)
    requires
        old(cursor).wf(),
    ensures
        cursor_kept(*old(cursor), *final(cursor)),
        read_matches(parse_float32(old(cursor).bytes(), old(cursor).position()), r, *final(cursor)),
{
    let a = cursor.read_bytes_4()?;
    let bits: u32 = (a[0] as u32) | ((a[1] as u32) << 8u32) | ((a[2] as u32) << 16u32) | ((
    a[3] as u32) << 24u32);
    if (bits >> 23u32) & 0xffu32 != 0xffu32 {
        Ok(JsonValue::Number(JsonNumber::Float32(bits)))
    } else {
        Err(
            malformed(
                "Float32 value is NaN or Infinity \u{2014} not representable in JSON (security reject)".to_owned(),
            ),
        )
    }
}

/// Insert a member into a decoded object as a JSON map does: an existing
/// key takes the new value in place, a new key goes last.
pub fn object_insert(map: &mut Vec<(String, JsonValue)>, key: String, value: JsonValue)
    ensures
        members_model(final(map)@) == members_insert(members_model(old(map)@), key@, value@),
{
    let ghost m = members_model(map@);
    let mut i: usize = 0;
    while i < map.len()
        invariant
            i <= map.len(),
            m == members_model(map@),
            map@ == old(map)@,
            forall|j: int| 0 <= j < i ==> m[j].0 != key@,
        decreases map.len() - i,
    {
        if map[i].0 == key {
            proof {
                assert(is_key_at(m, key@, i as int));
                let k = choose|k: int| is_key_at(m, key@, k);
                assert(k == i as int);
            }
            let ghost kv = (key@, value@);
            map.set(i, (key, value));
            assert(members_model(map@) =~= m.update(i as int, kv));
            assert(members_insert(m, kv.0, kv.1) == m.update(i as int, kv));
            return ;
        }
        i = i + 1;
    }
    proof {
        assert(!exists|k: int| is_key_at(m, key@, k));
    }
    map.push((key, value));
    assert(members_model(map@) =~= m.push((key@, value@)));
}

/// The smaller of a count and the pre-allocation cap.
fn capped_capacity(count: usize) -> (c: usize)
    ensures
        c == (if count < MAX_PREALLOC_CAPACITY { count } else { MAX_PREALLOC_CAPACITY }),
{
    if count < MAX_PREALLOC_CAPACITY {
        count
    } else {
        MAX_PREALLOC_CAPACITY
    }
}

/// The error for a nested value `depth` levels deep, beyond
/// `MAX_NESTING_DEPTH`.
fn depth_error(depth: usize) -> (e: HrestError)
    ensures
        e@ == ErrorModel::MalformedPayload(depth_message(depth as nat)),
{
    let mut msg = "Nesting depth ".to_owned();
    msg.append(decimal_string(depth as u64).as_str());
    msg.append(" exceeds maximum allowed (");
    msg.append(decimal_string(MAX_NESTING_DEPTH as u64).as_str());
    msg.append(") \u{2014} possible attack vector");
    malformed(msg)
}

/// Read a typed value: its type byte, then what that type carries.
///
/// `depth` is how many nested levels deep the value stands.
pub fn read_value(cursor: &mut ByteCursor, field_map: &FieldMap, depth: usize) -> (r: Result<
    JsonValue,
    HrestError,
>)
    requires
        old(cursor).wf(),
        depth < usize::MAX,
    ensures
        cursor_kept(*old(cursor), *final(cursor)),
        read_matches(
            parse_value(old(cursor).bytes(), old(cursor).position(), field_map@, depth as nat),
            r,
            *final(cursor),
        ),
    decreases 33 - depth, 0int,
{
    let type_byte = cursor.read_u8()?;
    let data_type = DataType::parse(type_byte)?;
    match data_type {
        DataType::Null => read_null(),
        DataType::Str => read_string(cursor),
        DataType::Int => read_int(cursor),
        DataType::Bool => read_bool(cursor),
        DataType::Bytes => read_bytes(cursor),
        DataType::Float => read_float(cursor),
        DataType::Float32 => read_float32(cursor),
        DataType::Nested => {
            // Depth guard: a value one level deeper than allowed is refused
            // before its kind byte is read.
            if depth >= MAX_NESTING_DEPTH {
                Err(depth_error(depth + 1))
            } else {
                read_nested(cursor, field_map, depth + 1)
            }
        },
    }
}

/// `0x05 [kind] ...`: an object or array, refused beyond
/// `MAX_NESTING_DEPTH` before anything else is read.
pub fn read_nested(cursor: &mut ByteCursor, field_map: &FieldMap, depth: usize) -> (r: Result<
    JsonValue,
    HrestError,
>)
    requires
        old(cursor).wf(),
    ensures
        cursor_kept(*old(cursor), *final(cursor)),
        read_matches(
            parse_nested(old(cursor).bytes(), old(cursor).position(), field_map@, depth as nat),
            r,
            *final(cursor),
        ),
        depth > MAX_NESTING_DEPTH ==> final(cursor).position() == old(cursor).position(),
    decreases 33 - depth, 2int,
{
    // Depth guard: prevents stack overflow via crafted deep binary
    if depth > MAX_NESTING_DEPTH {
        return Err(depth_error(depth));
    }
    let kind = cursor.read_u8()?;
    if kind == NESTED_KIND_OBJECT {
        read_nested_object(cursor, field_map, depth)
    } else if kind == NESTED_KIND_ARRAY {
        read_nested_array(cursor, field_map, depth)
    } else {
        let mut msg = "Unknown nested kind 0x".to_owned();
        msg.append(hex2_upper_string(kind).as_str());
        msg.append(" (expected 0x00=object or 0x01=array)");
        Err(malformed(msg))
    }
}

/// `[compact count] (FieldID Value)*` -> object.
pub fn read_nested_object(cursor: &mut ByteCursor, field_map: &FieldMap, depth: usize) -> (r:
    Result<JsonValue, HrestError>)
    requires
        old(cursor).wf(),
        depth < usize::MAX,
    ensures
        cursor_kept(*old(cursor), *final(cursor)),
        read_matches(
            match parse_compact(old(cursor).bytes(), old(cursor).position()) {
                Err(e) => Err(e),
                Ok((n, q)) => match parse_members(
                    old(cursor).bytes(),
                    q,
                    n,
                    field_map@,
                    depth as nat,
                    Seq::empty(),
                ) {
                    Err(e) => Err(e),
                    Ok((m, p)) => Ok((crate::json::JsonModel::Object(m), p)),
                },
            },
            r,
            *final(cursor),
        ),
    decreases 33 - depth, 1int,
{
    let ghost s = cursor.bytes();
    let field_count = read_compact_count(cursor)?;
    let ghost q = cursor.position();
    // Soft-cap pre-allocation to prevent memory exhaustion
    let mut map: Vec<(String, JsonValue)> = Vec::with_capacity(capped_capacity(field_count));
    let mut i: usize = 0;
    assert(members_model(map@) =~= Seq::empty());
    while i < field_count
        invariant
            cursor.wf(),
            cursor.bytes() == s,
            s == old(cursor).bytes(),
            parse_compact(s, old(cursor).position()) == Ok::<(nat, nat), ErrorModel>(
                (field_count as nat, q),
            ),
            i <= field_count,
            depth < usize::MAX,
            parse_members(s, q, field_count as nat, field_map@, depth as nat, Seq::empty())
                == parse_members(
                s,
                cursor.position(),
                (field_count - i) as nat,
                field_map@,
                depth as nat,
                members_model(map@),
            ),
        decreases field_count - i,
    {
        let field_id = cursor.read_u8()?;
        let field_name = match field_map.field_name(field_id) {
            Some(n) => n,
            None => {
                return Err(HrestError::UnknownToken(field_id));
            },
        };
        let name = field_name.to_owned();
        let value = read_value(cursor, field_map, depth)?;
        object_insert(&mut map, name, value);
        i = i + 1;
    }
    proof {
        lemma_object_model(map);
    }
    Ok(JsonValue::Object(map))
}

/// `[compact count] Value*` -> array.
pub fn read_nested_array(cursor: &mut ByteCursor, field_map: &FieldMap, depth: usize) -> (r:
    Result<JsonValue, HrestError>)
    requires
        old(cursor).wf(),
        depth < usize::MAX,
    ensures
        cursor_kept(*old(cursor), *final(cursor)),
        read_matches(
            match parse_compact(old(cursor).bytes(), old(cursor).position()) {
                Err(e) => Err(e),
                Ok((n, q)) => match parse_items(
                    old(cursor).bytes(),
                    q,
                    n,
                    field_map@,
                    depth as nat,
                    Seq::empty(),
                ) {
                    Err(e) => Err(e),
                    Ok((a, p)) => Ok((crate::json::JsonModel::Array(a), p)),
                },
            },
            r,
            *final(cursor),
        ),
    decreases 33 - depth, 1int,
{
    let ghost s = cursor.bytes();
    let elem_count = read_compact_count(cursor)?;
    let ghost q = cursor.position();
    // Soft-cap pre-allocation to prevent memory exhaustion
    let mut arr: Vec<JsonValue> = Vec::with_capacity(capped_capacity(elem_count));
    let mut i: usize = 0;
    assert(items_model(arr@) =~= Seq::empty());
    while i < elem_count
        invariant
            cursor.wf(),
            cursor.bytes() == s,
            s == old(cursor).bytes(),
            parse_compact(s, old(cursor).position()) == Ok::<(nat, nat), ErrorModel>(
                (elem_count as nat, q),
            ),
            i <= elem_count,
            depth < usize::MAX,
            parse_items(s, q, elem_count as nat, field_map@, depth as nat, Seq::empty())
                == parse_items(
                s,
                cursor.position(),
                (elem_count - i) as nat,
                field_map@,
                depth as nat,
                items_model(arr@),
            ),
        decreases elem_count - i,
    {
        let value = read_value(cursor, field_map, depth)?;
        let ghost before = items_model(arr@);
        arr.push(value);
        assert(items_model(arr@) =~= before.push(value@));
        i = i + 1;
    }
    proof {
        lemma_array_model(arr);
    }
    Ok(JsonValue::Array(arr))
}

/// Read top-level `(field_id, value)` pairs until the cursor is exhausted.
/// Top-level is not counted as a nesting level (depth starts at 0).
pub fn read_top_level_fields(cursor: &mut ByteCursor, field_map: &FieldMap) -> (r: Result<
    JsonValue,
    HrestError,
>)
    requires
        old(cursor).wf(),
    ensures
        match parse_fields(old(cursor).bytes(), old(cursor).position(), field_map@, Seq::empty()) {
            Ok(m) => r matches Ok(v) && v@ == crate::json::JsonModel::Object(m),
            Err(e) => r matches Err(x) && x@ == e,
        },
{
    let ghost s = cursor.bytes();
    let ghost p0 = cursor.position();
    let mut map: Vec<(String, JsonValue)> = Vec::new();
    assert(members_model(map@) =~= Seq::empty());
    while !cursor.is_exhausted()
        invariant
            cursor.wf(),
            cursor.bytes() == s,
            s == old(cursor).bytes(),
            p0 == old(cursor).position(),
            parse_fields(s, p0, field_map@, Seq::empty()) == parse_fields(
                s,
                cursor.position(),
                field_map@,
                members_model(map@),
            ),
        decreases s.len() - cursor.position(),
    {
        let ghost here = cursor.position();
        let field_id = cursor.read_u8()?;
        let field_name = match field_map.field_name(field_id) {
            Some(n) => n,
            None => {
                return Err(HrestError::UnknownToken(field_id));
            },
        };
        let name = field_name.to_owned();
        proof {
            lemma_value_advances(s, here + 1, field_map@, 0);
        }
        let value = read_value(cursor, field_map, 0)?;
        object_insert(&mut map, name, value);
    }
    proof {
        lemma_object_model(map);
    }
    Ok(JsonValue::Object(map))
}

/// Decode a binary HRest TLV stream for `route` into a JSON object.
///
/// # Errors
/// - `UnknownRoute`     — route not in contract
/// - `UnknownToken`     — token ID not whitelisted (HTTP 422)
/// - `BufferOverflow`   — stream is malformed or truncated
/// - `InvalidDataType`  — unknown type byte encountered
/// - `VarintError`      — malformed integer
/// - `MalformedPayload` — nesting depth exceeded, NaN float, bad UTF-8, etc.
pub fn decode_payload<P: ContractProvider>(route: &str, bytes: &[u8], contract: &P) -> (r: Result<
    JsonValue,
    HrestError,
>)
    ensures
        match spec_decode_payload(contract.provided().routes_model(), route@, bytes@) {
            Ok(m) => r matches Ok(v) && v@ == m,
            Err(e) => r matches Err(x) && x@ == e,
        },
{
    let field_map = contract.contract().field_map(route)?;
    let mut cursor = ByteCursor::new(bytes);
    // Start at depth 0: the top-level packet is not counted as a nesting level
    read_top_level_fields(&mut cursor, field_map)
}

} // verus!
