//! What decoding gives back of an encoding: every payload that can be
//! encoded and decoded under a route's contract comes back as it was.

use vstd::prelude::*;
use vstd::utf8::{encode_utf8, encode_utf8_decode_utf8, encode_utf8_valid_utf8};

use crate::contract::{spec_field_id, spec_field_name, spec_route_fields, FieldModel, RoutesModel};
use crate::json::{JsonModel, JsonNumber};
use crate::varint::{lemma_varint_round_trip, spec_encode_varint};
use crate::wire::{compact, enc_items, enc_members, enc_value, finite32, finite64, is_key_at, le_bytes32, le_bytes64, le_value32, le_value64, members_insert, parse_compact, parse_fields, parse_items, parse_members, parse_value, spec_decode_payload, spec_encode_payload, Members, MAX_COMPACT_VALUE, MAX_NESTING_DEPTH};

verus! {

/// A key that the route's contract maps to an ID that maps back to it.
pub open spec fn key_ok(fm: FieldModel, k: Seq<char>) -> bool {
    &&& spec_field_id(fm, k) is Some
    &&& spec_field_name(fm, spec_field_id(fm, k)->Some_0) == Some(k)
}

/// No key occurs twice.
pub open spec fn keys_distinct(m: Members) -> bool {
    forall|i: int, j: int| 0 <= i < j < m.len() ==> m[i].0 != m[j].0
}

/// A value that encodes and reads back, `depth` nesting levels deep: no
/// integer above `i64::MAX`, no NaN or infinity, no text, array or object
/// beyond 65 535 bytes or entries, no nesting beyond `MAX_NESTING_DEPTH`,
/// every object key whitelisted and mapped both ways, no key twice.
pub open spec fn encodable(v: JsonModel, fm: FieldModel, depth: nat) -> bool
    decreases v,
{
    match v {
        JsonModel::Null => true,
        JsonModel::Bool(_) => true,
        JsonModel::Number(n) => match n {
            JsonNumber::Int(_) => true,
            JsonNumber::UInt(_) => false,
            JsonNumber::Float64(bits) => finite64(bits),
            JsonNumber::Float32(bits) => finite32(bits),
        },
        JsonModel::Str(cs) => encode_utf8(cs).len() <= MAX_COMPACT_VALUE,
        JsonModel::Array(items) => {
            &&& depth + 1 <= MAX_NESTING_DEPTH
            &&& items.len() <= MAX_COMPACT_VALUE
            &&& items_encodable(items, fm, depth + 1)
        },
        JsonModel::Object(m) => {
            &&& depth + 1 <= MAX_NESTING_DEPTH
            &&& m.len() <= MAX_COMPACT_VALUE
            &&& keys_distinct(m)
            &&& members_encodable(m, fm, depth + 1)
        },
    }
}

/// Every item is encodable at `depth`.
pub open spec fn items_encodable(items: Seq<JsonModel>, fm: FieldModel, depth: nat) -> bool
    decreases items,
{
    if items.len() == 0 {
        true
    } else {
        encodable(items[0], fm, depth) && items_encodable(items.drop_first(), fm, depth)
    }
}

/// Every member has a whitelisted key and an encodable value at `depth`.
pub open spec fn members_encodable(m: Members, fm: FieldModel, depth: nat) -> bool
    decreases m,
{
    if m.len() == 0 {
        true
    } else {
        key_ok(fm, m[0].0) && encodable(m[0].1, fm, depth) && members_encodable(
            m.drop_first(),
            fm,
            depth,
        )
    }
}

/// A payload that encodes and reads back: an object whose members are
/// encodable at the top level.
pub open spec fn payload_encodable(v: JsonModel, fm: FieldModel) -> bool {
    &&& v is Object
    &&& keys_distinct(v->Object_0)
    &&& members_encodable(v->Object_0, fm, 0)
}

proof fn lemma_le64_round_trip(x: u64)
    ensures
        le_value64(
            x as u8,
            (x >> 8u64) as u8,
            (x >> 16u64) as u8,
            (x >> 24u64) as u8,
            (x >> 32u64) as u8,
            (x >> 40u64) as u8,
            (x >> 48u64) as u8,
            (x >> 56u64) as u8,
        ) == x,
{
    assert(((x as u8) as u64) | ((((x >> 8u64) as u8) as u64) << 8u64) | ((((x >> 16u64) as u8)
        as u64) << 16u64) | ((((x >> 24u64) as u8) as u64) << 24u64) | ((((x >> 32u64) as u8)
        as u64) << 32u64) | ((((x >> 40u64) as u8) as u64) << 40u64) | ((((x >> 48u64) as u8)
        as u64) << 48u64) | ((((x >> 56u64) as u8) as u64) << 56u64) == x) by (bit_vector);
}

proof fn lemma_le32_round_trip(x: u32)
    ensures
        le_value32(x as u8, (x >> 8u32) as u8, (x >> 16u32) as u8, (x >> 24u32) as u8) == x,
{
    assert(((x as u8) as u32) | ((((x >> 8u32) as u8) as u32) << 8u32) | ((((x >> 16u32) as u8)
        as u32) << 16u32) | ((((x >> 24u32) as u8) as u32) << 24u32) == x) by (bit_vector);
}

/// Every encodable value encodes.
pub proof fn lemma_encodable_encodes(v: JsonModel, fm: FieldModel, depth: nat)
    requires
        encodable(v, fm, depth),
    ensures
        enc_value(v, fm) is Ok,
    decreases v,
{
    match v {
        JsonModel::Array(items) => {
            lemma_items_encode(items, fm, depth + 1);
        },
        JsonModel::Object(m) => {
            lemma_members_encode(m, fm, depth + 1);
        },
        _ => {},
    }
}

pub proof fn lemma_items_encode(items: Seq<JsonModel>, fm: FieldModel, depth: nat)
    requires
        items_encodable(items, fm, depth),
    ensures
        enc_items(items, fm) is Ok,
    decreases items,
{
    if items.len() > 0 {
        lemma_encodable_encodes(items[0], fm, depth);
        lemma_items_encode(items.drop_first(), fm, depth);
    }
}

pub proof fn lemma_members_encode(m: Members, fm: FieldModel, depth: nat)
    requires
        members_encodable(m, fm, depth),
    ensures
        enc_members(m, fm) is Ok,
    decreases m,
{
    if m.len() > 0 {
        lemma_encodable_encodes(m[0].1, fm, depth);
        lemma_members_encode(m.drop_first(), fm, depth);
    }
}

/// Reading a compact length back.
pub(crate) proof fn lemma_compact_round_trip(s: Seq<u8>, pos: nat, n: nat)
    requires
        n <= MAX_COMPACT_VALUE,
        pos + compact(n).len() <= s.len(),
        s.subrange(pos as int, (pos + compact(n).len()) as int) == compact(n),
    ensures
        parse_compact(s, pos) == Ok::<(nat, nat), crate::error::ErrorModel>(
            (n, pos + compact(n).len()),
        ),
{
    let c = compact(n);
    assert(s[pos as int] == c[0]);
    if n >= 255 {
        assert(s[pos + 1int] == c[1]);
        assert(s[pos + 2int] == c[2]);
    }
}

/// The premise of the read-back lemmas: the encoding of `v` stands in `s`
/// at `pos`.
pub open spec fn encoded_at(v: JsonModel, fm: FieldModel, s: Seq<u8>, pos: nat) -> bool {
    &&& enc_value(v, fm) is Ok
    &&& pos + enc_value(v, fm)->Ok_0.len() <= s.len()
    &&& s.subrange(pos as int, (pos + enc_value(v, fm)->Ok_0.len()) as int) == enc_value(v, fm)->Ok_0
}

/// What the read-back lemmas conclude: `v` reads back from `pos`.
pub open spec fn reads_back(v: JsonModel, fm: FieldModel, depth: nat, s: Seq<u8>, pos: nat) -> bool {
    parse_value(s, pos, fm, depth) == Ok::<(JsonModel, nat), crate::error::ErrorModel>(
        (v, pos + enc_value(v, fm)->Ok_0.len()),
    )
}

/// `t` stands in `s` at `at`.
pub open spec fn stands_at(s: Seq<u8>, at: int, t: Seq<u8>) -> bool {
    &&& 0 <= at
    &&& at + t.len() <= s.len()
    &&& s.subrange((at) as int, (at + t.len()) as int) == t
}

proof fn lemma_stands_within(s: Seq<u8>, at: int, t: Seq<u8>, off: int, len: int)
    requires
        stands_at(s, at, t),
        0 <= off,
        0 <= len,
        off + len <= t.len(),
    ensures
        stands_at(s, at + off, t.subrange(off, off + len)),
{
    let w = s.subrange(at + off, at + off + len);
    let u = t.subrange(off, off + len);
    let whole = s.subrange(at, at + t.len());
    assert forall|k: int| 0 <= k < len implies #[trigger] w[k] == u[k] by {
        assert(whole[off + k] == t[off + k]);
    }
    assert(w =~= u);
}

proof fn lemma_int_round_trip(i: i64, fm: FieldModel, depth: nat, s: Seq<u8>, pos: nat)
    requires
        encoded_at(JsonModel::Number(JsonNumber::Int(i)), fm, s, pos),
    ensures
        reads_back(JsonModel::Number(JsonNumber::Int(i)), fm, depth, s, pos),
{
    let b = enc_value(JsonModel::Number(JsonNumber::Int(i)), fm)->Ok_0;
    assert(stands_at(s, pos as int, b));
    assert(s[pos as int] == b[0]) by {
        assert(s.subrange(pos as int, (pos + b.len()) as int)[0] == b[0]);
    }
    let p = pos + 1;
    let e = spec_encode_varint(i);
    lemma_stands_within(s, pos as int, b, 1, e.len() as int);
    assert(b.subrange(1, (1 + e.len()) as int) =~= e);
    let rest = s.subrange((pos + b.len()) as int, s.len() as int);
    assert(s.subrange(p as int, s.len() as int) =~= e + rest) by {
        assert forall|k: int| 0 <= k < s.len() - p implies s.subrange(p as int, s.len() as int)[k]
            == (e + rest)[k] by {
            if k < e.len() {
                assert(s.subrange(p as int, (p + e.len()) as int)[k] == e[k]);
            }
        }
    }
    lemma_varint_round_trip(i, rest);
}

proof fn lemma_float64_round_trip(bits: u64, fm: FieldModel, depth: nat, s: Seq<u8>, pos: nat)
    requires
        finite64(bits),
        encoded_at(JsonModel::Number(JsonNumber::Float64(bits)), fm, s, pos),
    ensures
        reads_back(JsonModel::Number(JsonNumber::Float64(bits)), fm, depth, s, pos),
{
    let b = enc_value(JsonModel::Number(JsonNumber::Float64(bits)), fm)->Ok_0;
    assert(forall|k: int| 0 <= k < b.len() ==> s[pos + k] == #[trigger] b[k]) by {
        assert forall|k: int| 0 <= k < b.len() implies s[pos + k] == #[trigger] b[k] by {
            assert(s.subrange(pos as int, (pos + b.len()) as int)[k] == b[k]);
        }
    }
    assert(b[0] == 0x06u8);
    lemma_le64_round_trip(bits);
    let p = pos + 1;
    assert forall|k: int| 0 <= k < 8 implies s[p + k] == le_bytes64(bits)[k] by {
        assert(b[1 + k] == le_bytes64(bits)[k]);
    }
}

proof fn lemma_float32_round_trip(bits: u32, fm: FieldModel, depth: nat, s: Seq<u8>, pos: nat)
    requires
        finite32(bits),
        encoded_at(JsonModel::Number(JsonNumber::Float32(bits)), fm, s, pos),
    ensures
        reads_back(JsonModel::Number(JsonNumber::Float32(bits)), fm, depth, s, pos),
{
    let b = enc_value(JsonModel::Number(JsonNumber::Float32(bits)), fm)->Ok_0;
    assert(forall|k: int| 0 <= k < b.len() ==> s[pos + k] == #[trigger] b[k]) by {
        assert forall|k: int| 0 <= k < b.len() implies s[pos + k] == #[trigger] b[k] by {
            assert(s.subrange(pos as int, (pos + b.len()) as int)[k] == b[k]);
        }
    }
    assert(b[0] == 0x07u8);
    lemma_le32_round_trip(bits);
    let p = pos + 1;
    assert forall|k: int| 0 <= k < 4 implies s[p + k] == le_bytes32(bits)[k] by {
        assert(b[1 + k] == le_bytes32(bits)[k]);
    }
}

proof fn lemma_string_round_trip(cs: Seq<char>, fm: FieldModel, depth: nat, s: Seq<u8>, pos: nat)
    requires
        encode_utf8(cs).len() <= MAX_COMPACT_VALUE,
        encoded_at(JsonModel::Str(cs), fm, s, pos),
    ensures
        reads_back(JsonModel::Str(cs), fm, depth, s, pos),
{
    let b = enc_value(JsonModel::Str(cs), fm)->Ok_0;
    let u = encode_utf8(cs);
    let c = compact(u.len());
    assert(b == seq![0x01u8] + c + u);
    assert(stands_at(s, pos as int, b));
    assert(s[pos as int] == b[0]) by {
        assert(s.subrange(pos as int, (pos + b.len()) as int)[0] == b[0]);
    }
    let p = pos + 1;
    lemma_stands_within(s, pos as int, b, 1, c.len() as int);
    assert(b.subrange(1, (1 + c.len()) as int) =~= c);
    lemma_compact_round_trip(s, p, u.len());
    let q = p + c.len();
    lemma_stands_within(s, pos as int, b, (1 + c.len()) as int, u.len() as int);
    assert(b.subrange((1 + c.len()) as int, (1 + c.len() + u.len()) as int) =~= u);
    encode_utf8_valid_utf8(cs);
    encode_utf8_decode_utf8(cs);
}

/// The bytes of `v` at `pos` read back as `v`, `depth` levels deep.
pub proof fn lemma_value_round_trip(
    v: JsonModel,
    fm: FieldModel,
    depth: nat,
    s: Seq<u8>,
    pos: nat,
)
    requires
        encodable(v, fm, depth),
        encoded_at(v, fm, s, pos),
    ensures
        reads_back(v, fm, depth, s, pos),
    decreases v, 0int,
{
    let b = enc_value(v, fm)->Ok_0;
    match v {
        JsonModel::Null => {
            assert(s.subrange(pos as int, (pos + b.len()) as int)[0] == b[0]);
        },
        JsonModel::Bool(x) => {
            assert(s.subrange(pos as int, (pos + b.len()) as int)[0] == b[0]);
            assert(s.subrange(pos as int, (pos + b.len()) as int)[1] == b[1]);
        },
        JsonModel::Number(n) => {
            match n {
                JsonNumber::Int(i) => lemma_int_round_trip(i, fm, depth, s, pos),
                JsonNumber::UInt(_) => {},
                JsonNumber::Float64(bits) => lemma_float64_round_trip(bits, fm, depth, s, pos),
                JsonNumber::Float32(bits) => lemma_float32_round_trip(bits, fm, depth, s, pos),
            }
        },
        JsonModel::Str(cs) => lemma_string_round_trip(cs, fm, depth, s, pos),
        JsonModel::Array(items) => lemma_array_round_trip(items, fm, depth, s, pos),
        JsonModel::Object(m) => lemma_object_round_trip(m, fm, depth, s, pos),
    }
}

proof fn lemma_array_round_trip(items: Seq<JsonModel>, fm: FieldModel, depth: nat, s: Seq<u8>, pos: nat)
    requires
        encodable(JsonModel::Array(items), fm, depth),
        encoded_at(JsonModel::Array(items), fm, s, pos),
    ensures
        reads_back(JsonModel::Array(items), fm, depth, s, pos),
    decreases items, 1int,
{
    let b = enc_value(JsonModel::Array(items), fm)->Ok_0;
    let ib = enc_items(items, fm)->Ok_0;
    let c = compact(items.len());
    assert(b == seq![0x05u8, 0x01u8] + c + ib);
    assert(stands_at(s, pos as int, b));
    assert(s[pos as int] == b[0]) by {
        assert(s.subrange(pos as int, (pos + b.len()) as int)[0] == b[0]);
    }
    let p = pos + 1;
    assert(s[p as int] == b[1]) by {
        assert(s.subrange(pos as int, (pos + b.len()) as int)[1] == b[1]);
    }
    lemma_stands_within(s, pos as int, b, 2, c.len() as int);
    assert(b.subrange(2, (2 + c.len()) as int) =~= c);
    lemma_compact_round_trip(s, p + 1, items.len());
    let q = p + 1 + c.len();
    lemma_stands_within(s, pos as int, b, (2 + c.len()) as int, ib.len() as int);
    assert(b.subrange((2 + c.len()) as int, (2 + c.len() + ib.len()) as int) =~= ib);
    lemma_items_round_trip(items, fm, depth + 1, s, q, Seq::empty());
    assert(Seq::<JsonModel>::empty() + items =~= items);
}

proof fn lemma_object_round_trip(m: Members, fm: FieldModel, depth: nat, s: Seq<u8>, pos: nat)
    requires
        encodable(JsonModel::Object(m), fm, depth),
        encoded_at(JsonModel::Object(m), fm, s, pos),
    ensures
        reads_back(JsonModel::Object(m), fm, depth, s, pos),
    decreases m, 1int,
{
    let b = enc_value(JsonModel::Object(m), fm)->Ok_0;
    let mb = enc_members(m, fm)->Ok_0;
    let c = compact(m.len());
    assert(b == seq![0x05u8, 0x00u8] + c + mb);
    assert(stands_at(s, pos as int, b));
    assert(s[pos as int] == b[0]) by {
        assert(s.subrange(pos as int, (pos + b.len()) as int)[0] == b[0]);
    }
    let p = pos + 1;
    assert(s[p as int] == b[1]) by {
        assert(s.subrange(pos as int, (pos + b.len()) as int)[1] == b[1]);
    }
    lemma_stands_within(s, pos as int, b, 2, c.len() as int);
    assert(b.subrange(2, (2 + c.len()) as int) =~= c);
    lemma_compact_round_trip(s, p + 1, m.len());
    let q = p + 1 + c.len();
    lemma_stands_within(s, pos as int, b, (2 + c.len()) as int, mb.len() as int);
    assert(b.subrange((2 + c.len()) as int, (2 + c.len() + mb.len()) as int) =~= mb);
    assert(Seq::<(Seq<char>, JsonModel)>::empty() + m =~= m);
    lemma_members_round_trip(m, fm, depth + 1, s, q, Seq::empty());
}

/// The bytes of `items` at `pos` read back as `items`, appended to `acc`.
pub proof fn lemma_items_round_trip(
    items: Seq<JsonModel>,
    fm: FieldModel,
    depth: nat,
    s: Seq<u8>,
    pos: nat,
    acc: Seq<JsonModel>,
)
    requires
        items_encodable(items, fm, depth),
        enc_items(items, fm) is Ok,
        pos + enc_items(items, fm)->Ok_0.len() <= s.len(),
        s.subrange(pos as int, (pos + enc_items(items, fm)->Ok_0.len()) as int) == enc_items(items, fm)->Ok_0,
    ensures
        parse_items(s, pos, items.len(), fm, depth, acc) == Ok::<
            (Seq<JsonModel>, nat),
            crate::error::ErrorModel,
        >((acc + items, pos + enc_items(items, fm)->Ok_0.len())),
    decreases items, 0int,
{
    if items.len() == 0 {
        assert(acc + items =~= acc);
    } else {
        let all = enc_items(items, fm)->Ok_0;
        let b0 = enc_value(items[0], fm)->Ok_0;
        let rest = enc_items(items.drop_first(), fm)->Ok_0;
        assert(all == b0 + rest);
        assert(s.subrange(pos as int, (pos + b0.len()) as int) =~= b0) by {
            assert forall|k: int| 0 <= k < b0.len() implies s.subrange(pos as int, (pos + b0.len()) as int)[k]
                == b0[k] by {
                assert(s[pos + k] == all[k]);
            }
        }
        lemma_value_round_trip(items[0], fm, depth, s, pos);
        let p = pos + b0.len();
        assert(s.subrange(p as int, (p + rest.len()) as int) =~= rest) by {
            assert forall|k: int| 0 <= k < rest.len() implies s.subrange(p as int, (p + rest.len()) as int)[k]
                == rest[k] by {
                assert(s[p + k] == all[b0.len() + k]);
            }
        }
        lemma_items_round_trip(items.drop_first(), fm, depth, s, p, acc.push(items[0]));
        assert(acc.push(items[0]) + items.drop_first() =~= acc + items);
    }
}

/// The bytes of members `m` at `pos` read back as `m`, after `acc`, when no
/// key occurs twice in `acc + m`.
pub proof fn lemma_members_round_trip(
    m: Members,
    fm: FieldModel,
    depth: nat,
    s: Seq<u8>,
    pos: nat,
    acc: Members,
)
    requires
        members_encodable(m, fm, depth),
        keys_distinct(acc + m),
        enc_members(m, fm) is Ok,
        pos + enc_members(m, fm)->Ok_0.len() <= s.len(),
        s.subrange(pos as int, (pos + enc_members(m, fm)->Ok_0.len()) as int) == enc_members(m, fm)->Ok_0,
    ensures
        parse_members(s, pos, m.len(), fm, depth, acc) == Ok::<(Members, nat), crate::error::ErrorModel>(
            (acc + m, pos + enc_members(m, fm)->Ok_0.len()),
        ),
    decreases m, 0int,
{
    if m.len() == 0 {
        assert(acc + m =~= acc);
    } else {
        let all = enc_members(m, fm)->Ok_0;
        let id = spec_field_id(fm, m[0].0)->Some_0;
        let b0 = enc_value(m[0].1, fm)->Ok_0;
        let rest = enc_members(m.drop_first(), fm)->Ok_0;
        assert(all == seq![id] + b0 + rest);
        assert(s[pos as int] == all[0]);
        let p = pos + 1;
        assert(s.subrange(p as int, (p + b0.len()) as int) =~= b0) by {
            assert forall|k: int| 0 <= k < b0.len() implies s.subrange(p as int, (p + b0.len()) as int)[k]
                == b0[k] by {
                assert(s[p + k] == all[1 + k]);
            }
        }
        lemma_value_round_trip(m[0].1, fm, depth, s, p);
        let r = p + b0.len();
        assert(s.subrange(r as int, (r + rest.len()) as int) =~= rest) by {
            assert forall|k: int| 0 <= k < rest.len() implies s.subrange(r as int, (r + rest.len()) as int)[k]
                == rest[k] by {
                assert(s[r + k] == all[1 + b0.len() + k]);
            }
        }
        assert(!exists|i: int| is_key_at(acc, m[0].0, i)) by {
            if exists|i: int| is_key_at(acc, m[0].0, i) {
                let i = choose|i: int| is_key_at(acc, m[0].0, i);
                assert((acc + m)[i].0 == (acc + m)[acc.len() as int].0);
            }
        }
        assert(members_insert(acc, m[0].0, m[0].1) == acc.push(m[0]));
        assert(acc.push(m[0]) + m.drop_first() =~= acc + m);
        lemma_members_round_trip(m.drop_first(), fm, depth, s, r, acc.push(m[0]));
    }
}

/// Top-level members read back until the bytes end.
proof fn lemma_fields_round_trip(m: Members, fm: FieldModel, s: Seq<u8>, pos: nat, acc: Members)
    requires
        members_encodable(m, fm, 0),
        keys_distinct(acc + m),
        enc_members(m, fm) is Ok,
        pos + enc_members(m, fm)->Ok_0.len() == s.len(),
        s.subrange(pos as int, s.len() as int) == enc_members(m, fm)->Ok_0,
    ensures
        parse_fields(s, pos, fm, acc) == Ok::<Members, crate::error::ErrorModel>(acc + m),
    decreases m,
{
    if m.len() == 0 {
        assert(acc + m =~= acc);
    } else {
        let all = enc_members(m, fm)->Ok_0;
        let id = spec_field_id(fm, m[0].0)->Some_0;
        let b0 = enc_value(m[0].1, fm)->Ok_0;
        let rest = enc_members(m.drop_first(), fm)->Ok_0;
        assert(all == seq![id] + b0 + rest);
        assert(s[pos as int] == all[0]);
        let p = pos + 1;
        assert(s.subrange(p as int, (p + b0.len()) as int) =~= b0) by {
            assert forall|k: int| 0 <= k < b0.len() implies s.subrange(p as int, (p + b0.len()) as int)[k]
                == b0[k] by {
                assert(s[p + k] == all[1 + k]);
            }
        }
        lemma_value_round_trip(m[0].1, fm, 0, s, p);
        let r = p + b0.len();
        assert(s.subrange(r as int, s.len() as int) =~= rest) by {
            assert forall|k: int| 0 <= k < rest.len() implies s.subrange(r as int, s.len() as int)[k]
                == rest[k] by {
                assert(s[r + k] == all[1 + b0.len() + k]);
            }
        }
        assert(!exists|i: int| is_key_at(acc, m[0].0, i)) by {
            if exists|i: int| is_key_at(acc, m[0].0, i) {
                let i = choose|i: int| is_key_at(acc, m[0].0, i);
                assert((acc + m)[i].0 == (acc + m)[acc.len() as int].0);
            }
        }
        assert(members_insert(acc, m[0].0, m[0].1) == acc.push(m[0]));
        assert(acc.push(m[0]) + m.drop_first() =~= acc + m);
        lemma_fields_round_trip(m.drop_first(), fm, s, r, acc.push(m[0]));
    }
}

/// Round trip: a payload that is encodable under the route's contract
/// encodes, and decoding those bytes under the same contract gives the
/// payload back.
pub proof fn lemma_payload_round_trip(routes: RoutesModel, route: Seq<char>, v: JsonModel)
    requires
        spec_route_fields(routes, route) is Some,
        payload_encodable(v, spec_route_fields(routes, route)->Some_0),
    ensures
        spec_encode_payload(routes, route, v) is Ok,
        spec_decode_payload(routes, route, spec_encode_payload(routes, route, v)->Ok_0) == Ok::<
            JsonModel,
            crate::error::ErrorModel,
        >(v),
{
    let fm = spec_route_fields(routes, route)->Some_0;
    let m = v->Object_0;
    lemma_members_encode(m, fm, 0);
    let b = enc_members(m, fm)->Ok_0;
    assert(b.subrange((0) as int, b.len() as int) =~= b);
    assert(Seq::<(Seq<char>, JsonModel)>::empty() + m =~= m);
    lemma_fields_round_trip(m, fm, b, 0, Seq::empty());
}

} // verus!
