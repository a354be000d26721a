//! Encoding a JSON payload into a binary HRest TLV stream.

use vstd::prelude::*;

use crate::contract::FieldMap;
use crate::data_type::{
    COMPACT_SENTINEL, NESTED_KIND_ARRAY, NESTED_KIND_OBJECT, TYPE_BOOL, TYPE_BYTES, TYPE_FLOAT,
    TYPE_FLOAT32, TYPE_INT, TYPE_NESTED, TYPE_NULL, TYPE_STRING,
};
use crate::error::{malformed, ErrorModel, HrestError};
use crate::json::{items_model, lemma_array_model, lemma_object_model, members_model, JsonNumber, JsonValue};
use crate::ports::ContractProvider;
use crate::text::decimal_string;
use crate::varint::encode_varint;
use crate::wire::{compact, enc_bytes, enc_items, enc_members, enc_number, enc_value, spec_encode_payload, Members, MAX_COMPACT_VALUE};

verus! {

broadcast use vstd::std_specs::vec::group_vec_axioms;

/// What an encoding step promises: on success, exactly the expected bytes
/// appended; on failure, the expected error, with what was there before
/// left in place (the bytes written before the failure stay after it).
pub open spec fn wrote(spec: Result<Seq<u8>, ErrorModel>, r: Result<(), HrestError>, before: Seq<u8>, after: Seq<u8>) -> bool {
    match spec {
        Ok(b) => r is Ok && after == before + b,
        Err(e) => r matches Err(x) && x@ == e && before.is_prefix_of(after),
    }
}

/// Append `bytes` to `out`.
fn append_bytes(out: &mut Vec<u8>, bytes: &[u8])
    ensures
        final(out)@ == old(out)@ + bytes@,
{
    out.extend_from_slice(bytes);
    assert(out@ =~= old(out)@ + bytes@);
}

/// Write a compact length or count: one byte below 255, otherwise the
/// 0xFF sentinel and the value as u16 little-endian.
pub fn write_compact(out: &mut Vec<u8>, n: usize)
    requires
        n <= MAX_COMPACT_VALUE,
    ensures
        final(out)@ == old(out)@ + compact(n as nat),
{
    if n < COMPACT_SENTINEL as usize {
        out.push(n as u8);
    } else {
        out.push(COMPACT_SENTINEL);
        out.push((n % 256) as u8);
        out.push((n / 256) as u8);
    }
    assert(out@ =~= old(out)@ + compact(n as nat));
}

/// `0x00` — Null: type byte only, no value bytes.
pub fn encode_null(out: &mut Vec<u8>)
    ensures
        final(out)@ == old(out)@ + seq![TYPE_NULL],
{
    out.push(TYPE_NULL);
}

/// `0x01 [compact len] [utf8 bytes]`
pub fn encode_string(out: &mut Vec<u8>, s: &str) -> (r: Result<(), HrestError>)
    ensures
        wrote(enc_value(crate::json::JsonModel::Str(s@), Seq::empty()), r, old(out)@, final(out)@),
        r is Err ==> final(out)@ == old(out)@,
{
    let bytes = s.as_bytes();
    if bytes.len() > MAX_COMPACT_VALUE {
        let mut msg = "String too long: ".to_owned();
        msg.append(decimal_string(bytes.len() as u64).as_str());
        msg.append(" bytes (max 65535)");
        return Err(malformed(msg));
    }
    out.push(TYPE_STRING);
    write_compact(out, bytes.len());
    append_bytes(out, bytes);
    assert(out@ =~= old(out)@ + (seq![TYPE_STRING] + compact(bytes@.len()) + bytes@));
    Ok(())
}

/// `0x02 [zigzag varint]` for integers, `0x06 [f64 LE]` / `0x07 [f32 LE]`
/// for floats.
pub fn encode_number(out: &mut Vec<u8>, n: &JsonNumber) -> (r: Result<(), HrestError>)
    ensures
        wrote(enc_number(*n), r, old(out)@, final(out)@),
        r is Err ==> final(out)@ == old(out)@,
{
    match n {
        JsonNumber::Int(i) => {
            out.push(TYPE_INT);
            let v = encode_varint(*i);
            append_bytes(out, v.as_slice());
        },
        JsonNumber::UInt(u) => {
            // above i64::MAX: cannot be encoded in the current protocol
            let mut msg = "Integer ".to_owned();
            msg.append(decimal_string(*u).as_str());
            msg.append(" exceeds i64::MAX; use a float for large unsigned values");
            return Err(malformed(msg));
        },
        JsonNumber::Float64(bits) => {
            let x = *bits;
            out.push(TYPE_FLOAT);
            out.push(x as u8);
            out.push((x >> 8u64) as u8);
            out.push((x >> 16u64) as u8);
            out.push((x >> 24u64) as u8);
            out.push((x >> 32u64) as u8);
            out.push((x >> 40u64) as u8);
            out.push((x >> 48u64) as u8);
            out.push((x >> 56u64) as u8);
        },
        JsonNumber::Float32(bits) => {
            let x = *bits;
            out.push(TYPE_FLOAT32);
            out.push(x as u8);
            out.push((x >> 8u32) as u8);
            out.push((x >> 16u32) as u8);
            out.push((x >> 24u32) as u8);
        },
    }
    assert(out@ =~= old(out)@ + enc_number(*n)->Ok_0);
    Ok(())
}

/// `0x03 [0x00 | 0x01]`
pub fn encode_bool(out: &mut Vec<u8>, b: bool)
    ensures
        final(out)@ == old(out)@ + seq![TYPE_BOOL, if b { 1u8 } else { 0u8 }],
{
    out.push(TYPE_BOOL);
    out.push(if b { 1u8 } else { 0u8 });
    assert(out@ =~= old(out)@ + seq![TYPE_BOOL, if b { 1u8 } else { 0u8 }]);
}

/// `0x04 [compact len] [raw bytes]`
/// For programmatic use, e.g. encoding pre-computed UUID bytes.
pub fn encode_bytes(out: &mut Vec<u8>, bytes: &[u8]) -> (r: Result<(), HrestError>)
    ensures
        wrote(enc_bytes(bytes@), r, old(out)@, final(out)@),
        r is Err ==> final(out)@ == old(out)@,
{
    if bytes.len() > MAX_COMPACT_VALUE {
        let mut msg = "Bytes value too long: ".to_owned();
        msg.append(decimal_string(bytes.len() as u64).as_str());
        msg.append(" bytes (max 65535)");
        return Err(malformed(msg));
    }
    out.push(TYPE_BYTES);
    write_compact(out, bytes.len());
    append_bytes(out, bytes);
    assert(out@ =~= old(out)@ + (seq![TYPE_BYTES] + compact(bytes@.len()) + bytes@));
    Ok(())
}

/// Write `[type_byte][value_bytes]` for any JSON value (recursive).
pub fn encode_value(out: &mut Vec<u8>, value: &JsonValue, field_map: &FieldMap) -> (r: Result<
    (),
    HrestError,
>)
    ensures
        wrote(enc_value(value@, field_map@), r, old(out)@, final(out)@),
    decreases value, 0int,
{
    match value {
        JsonValue::Null => {
            encode_null(out);
            Ok(())
        },
        JsonValue::Bool(b) => {
            encode_bool(out, *b);
            Ok(())
        },
        JsonValue::Number(n) => encode_number(out, n),
        JsonValue::String(s) => encode_string(out, s.as_str()),
        JsonValue::Array(arr) => {
            proof {
                lemma_array_model(*arr);
            }
            encode_array(out, arr, field_map)
        },
        JsonValue::Object(obj) => {
            proof {
                lemma_object_model(*obj);
            }
            encode_nested_object(out, obj, field_map)
        },
    }
}

/// `0x05 0x01 [compact count] Value*`
pub fn encode_array(out: &mut Vec<u8>, arr: &Vec<JsonValue>, field_map: &FieldMap) -> (r: Result<
    (),
    HrestError,
>)
    ensures
        wrote(
            enc_value(crate::json::JsonModel::Array(items_model(arr@)), field_map@),
            r,
            old(out)@,
            final(out)@,
        ),
        arr@.len() > MAX_COMPACT_VALUE ==> final(out)@ == old(out)@,
    decreases arr, 0int,
{
    if arr.len() > MAX_COMPACT_VALUE {
        let mut msg = "Array too long: ".to_owned();
        msg.append(decimal_string(arr.len() as u64).as_str());
        msg.append(" elements (max 65535)");
        return Err(malformed(msg));
    }
    out.push(TYPE_NESTED);
    out.push(NESTED_KIND_ARRAY);
    write_compact(out, arr.len());
    let ghost items = items_model(arr@);
    let ghost head = out@;
    assert(head == old(out)@ + (seq![TYPE_NESTED, NESTED_KIND_ARRAY] + compact(arr@.len())));
    let mut i: usize = 0;
    assert(items.skip(0) == items);
    assert(out@ == head + Seq::<u8>::empty());
    proof {
        match enc_items(items, field_map@) {
            Ok(rest) => {
                assert(Seq::<u8>::empty() + rest == rest);
            },
            Err(_) => {},
        }
    }
    while i < arr.len()
        invariant
            i <= arr.len(),
            arr.len() <= MAX_COMPACT_VALUE,
            items == items_model(arr@),
            head == old(out)@ + (seq![TYPE_NESTED, NESTED_KIND_ARRAY] + compact(arr@.len())),
            exists|done: Seq<u8>|
                out@ == head + done && enc_items(items, field_map@) == (match enc_items(
                    items.skip(i as int),
                    field_map@,
                ) {
                    Ok(rest) => Ok(done + rest),
                    Err(e) => Err(e),
                }),
        decreases arr.len() - i,
    {
        let ghost done = choose|done: Seq<u8>|
            out@ == head + done && enc_items(items, field_map@) == (match enc_items(
                items.skip(i as int),
                field_map@,
            ) {
                Ok(rest) => Ok(done + rest),
                Err(e) => Err(e),
            });
        let ghost before = out@;
        assert(items.skip(i as int)[0] == items[i as int]);
        assert(items.skip(i as int).drop_first() == items.skip(i + 1));
        encode_value(out, &arr[i], field_map)?;
        proof {
            let b = enc_value(items[i as int], field_map@)->Ok_0;
            assert(out@ == head + (done + b));
            match enc_items(items.skip(i + 1), field_map@) {
                Ok(rest) => {
                    assert(done + (b + rest) == (done + b) + rest);
                },
                Err(e) => {},
            }
        }
        i = i + 1;
    }
    proof {
        let done = choose|done: Seq<u8>|
            out@ == head + done && enc_items(items, field_map@) == (match enc_items(
                items.skip(i as int),
                field_map@,
            ) {
                Ok(rest) => Ok(done + rest),
                Err(e) => Err(e),
            });
        assert(items.skip(i as int) =~= Seq::<crate::json::JsonModel>::empty());
        assert(done + Seq::<u8>::empty() == done);
        assert(out@ == old(out)@ + (seq![TYPE_NESTED, NESTED_KIND_ARRAY] + compact(arr@.len()) + done));
    }
    Ok(())
}

/// `0x05 0x00 [compact count] (FieldID Value)*`
pub fn encode_nested_object(
    out: &mut Vec<u8>,
    obj: &Vec<(String, JsonValue)>,
    field_map: &FieldMap,
) -> (r: Result<(), HrestError>)
    ensures
        wrote(
            enc_value(crate::json::JsonModel::Object(members_model(obj@)), field_map@),
            r,
            old(out)@,
            final(out)@,
        ),
        obj@.len() > MAX_COMPACT_VALUE ==> final(out)@ == old(out)@,
    decreases obj, 1int,
{
    if obj.len() > MAX_COMPACT_VALUE {
        let mut msg = "Nested object has too many fields: ".to_owned();
        msg.append(decimal_string(obj.len() as u64).as_str());
        msg.append(" (max 65535)");
        return Err(malformed(msg));
    }
    out.push(TYPE_NESTED);
    out.push(NESTED_KIND_OBJECT);
    write_compact(out, obj.len());
    let ghost head = out@;
    encode_object_fields(out, obj, field_map)?;
    assert(out@ =~= old(out)@ + (seq![TYPE_NESTED, NESTED_KIND_OBJECT] + compact(obj@.len())
        + enc_members(members_model(obj@), field_map@)->Ok_0));
    Ok(())
}

/// Write all members of a JSON object as `[field_id][Value]` pairs.
pub fn encode_object_fields(
    out: &mut Vec<u8>,
    obj: &Vec<(String, JsonValue)>,
    field_map: &FieldMap,
) -> (r: Result<(), HrestError>)
    ensures
        wrote(enc_members(members_model(obj@), field_map@), r, old(out)@, final(out)@),
    decreases obj, 0int,
{
    let ghost ms: Members = members_model(obj@);
    let ghost head = out@;
    let mut i: usize = 0;
    assert(ms.skip(0) == ms);
    assert(out@ == head + Seq::<u8>::empty());
    proof {
        match enc_members(ms, field_map@) {
            Ok(rest) => {
                assert(Seq::<u8>::empty() + rest == rest);
            },
            Err(_) => {},
        }
    }
    while i < obj.len()
        invariant
            i <= obj.len(),
            ms == members_model(obj@),
            head == old(out)@,
            exists|done: Seq<u8>|
                out@ == head + done && enc_members(ms, field_map@) == (match enc_members(
                    ms.skip(i as int),
                    field_map@,
                ) {
                    Ok(rest) => Ok(done + rest),
                    Err(e) => Err(e),
                }),
        decreases obj.len() - i,
    {
        let ghost done = choose|done: Seq<u8>|
            out@ == head + done && enc_members(ms, field_map@) == (match enc_members(
                ms.skip(i as int),
                field_map@,
            ) {
                Ok(rest) => Ok(done + rest),
                Err(e) => Err(e),
            });
        assert(ms.skip(i as int)[0] == ms[i as int]);
        assert(ms.skip(i as int).drop_first() == ms.skip(i + 1));
        let key = &obj[i].0;
        let field_id = match field_map.field_id(key.as_str()) {
            Some(id) => id,
            None => {
                return Err(HrestError::UnknownField(key.clone()));
            },
        };
        out.push(field_id);
        encode_value(out, &obj[i].1, field_map)?;
        proof {
            let b = enc_value(ms[i as int].1, field_map@)->Ok_0;
            assert(out@ == head + (done + (seq![field_id] + b)));
            match enc_members(ms.skip(i + 1), field_map@) {
                Ok(rest) => {
                    assert(done + (seq![field_id] + b + rest) == (done + (seq![field_id] + b))
                        + rest);
                },
                Err(e) => {},
            }
        }
        i = i + 1;
    }
    proof {
        let done = choose|done: Seq<u8>|
            out@ == head + done && enc_members(ms, field_map@) == (match enc_members(
                ms.skip(i as int),
                field_map@,
            ) {
                Ok(rest) => Ok(done + rest),
                Err(e) => Err(e),
            });
        assert(ms.skip(i as int) =~= Seq::<(Seq<char>, crate::json::JsonModel)>::empty());
        assert(done + Seq::<u8>::empty() == done);
    }
    Ok(())
}

/// Encode a JSON object payload for `route` into a binary HRest TLV stream.
///
/// The top-level `payload` must be a JSON object; nested arrays and objects
/// are encoded recursively.
///
/// # Errors
/// - `UnknownRoute`     — route not in contract
/// - `UnknownField`     — field not whitelisted (HTTP 422)
/// - `MalformedPayload` — payload is not a JSON object, an integer exceeds
///   `i64::MAX`, or a string/array/object exceeds 65 535 bytes/elements
pub fn encode_payload<P: ContractProvider>(route: &str, payload: &JsonValue, contract: &P) -> (r:
    Result<Vec<u8>, HrestError>)
    ensures
        match spec_encode_payload(contract.provided().routes_model(), route@, payload@) {
            Ok(b) => r matches Ok(v) && v@ == b,
            Err(e) => r matches Err(x) && x@ == e,
        },
{
    let field_map = contract.contract().field_map(route)?;
    let obj = match payload {
        JsonValue::Object(obj) => obj,
        _ => {
            return Err(malformed("Top-level payload must be a JSON object `{}`".to_owned()));
        },
    };
    proof {
        lemma_object_model(*obj);
    }
    let mut out: Vec<u8> = Vec::new();
    encode_object_fields(&mut out, obj, field_map)?;
    assert(out@ =~= Seq::<u8>::empty() + out@);
    Ok(out)
}

} // verus!
