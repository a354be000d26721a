//! Properties of the library as a whole: what holds across its operations.

use vstd::prelude::*;
use vstd::utf8::encode_utf8;

use crate::canonical::bytes_lt;
use crate::contract::{
    lemma_route_fields_at, ids_distinct, is_first_id, is_first_name, names_distinct, spec_field_id, spec_field_name,
    spec_route_fields, FieldModel, RoutesModel,
};
use crate::canonical::{entry_names_distinct, lemma_fields_json_order_independent, lemma_routes_json_rendered, lemma_sort_order_independent, rendered_routes, routes_json, same_entries};
use crate::json::JsonModel;
use crate::data_type::TYPE_BYTES;
use crate::error::ErrorModel;
use crate::outside::{hex_digit_lower, hex_lower, sha256};
use crate::loader::{is_first_bad_route, spec_build_routes};
use crate::round_trip::{lemma_compact_round_trip, key_ok, lemma_payload_round_trip, payload_encodable};
use crate::varint::{spec_encode_varint, zigzag};
use crate::wire::{
    compact, parse_bytes, MAX_COMPACT_VALUE, parse_fields, parse_items, parse_members, parse_nested, parse_value, spec_decode_payload,
    spec_encode_payload, members_insert, is_key_at, Members, MAX_NESTING_DEPTH,
};

verus! {

/// In a field map where names and IDs are each unique, a name maps to an ID
/// exactly when that ID maps back to the name.
pub proof fn lemma_field_map_bidirectional(m: FieldModel, name: Seq<char>, id: u8)
    requires
        names_distinct(m),
        ids_distinct(m),
    ensures
        spec_field_id(m, name) == Some(id) <==> spec_field_name(m, id) == Some(name),
{
    if spec_field_id(m, name) == Some(id) {
        let i = choose|i: int| is_first_name(m, name, i);
        assert(is_first_id(m, id, i));
        let k = choose|k: int| is_first_id(m, id, k);
        assert(k == i);
    }
    if spec_field_name(m, id) == Some(name) {
        let i = choose|i: int| is_first_id(m, id, i);
        assert(is_first_name(m, name, i));
        let k = choose|k: int| is_first_name(m, name, k);
        assert(k == i);
    }
}

proof fn lemma_first_bad_route_exists(r: RoutesModel, n: nat)
    requires
        n <= r.len(),
        exists|i: int| 0 <= i < n && !ids_distinct(#[trigger] r[i].1),
    ensures
        exists|i: int| is_first_bad_route(r, i),
    decreases n,
{
    if exists|i: int| 0 <= i < n - 1 && !ids_distinct(#[trigger] r[i].1) {
        lemma_first_bad_route_exists(r, (n - 1) as nat);
    } else {
        assert(is_first_bad_route(r, n - 1));
    }
}

/// A contract that loads has no two fields of a route sharing a token ID.
pub proof fn lemma_loaded_ids_distinct(r: RoutesModel)
    requires
        spec_build_routes(r) is Ok,
    ensures
        forall|i: int| 0 <= i < r.len() ==> ids_distinct(#[trigger] r[i].1),
{
    assert forall|i: int| 0 <= i < r.len() implies ids_distinct(#[trigger] r[i].1) by {
        if !ids_distinct(r[i].1) {
            lemma_first_bad_route_exists(r, r.len());
        }
    }
}

/// In a contract that loads (each route's field names unique), every
/// whitelisted key maps to an ID that maps back to it.
pub proof fn lemma_loaded_keys_map_back(r: RoutesModel, i: int, k: Seq<char>)
    requires
        spec_build_routes(r) is Ok,
        0 <= i < r.len(),
        names_distinct(r[i].1),
        spec_field_id(r[i].1, k) is Some,
    ensures
        key_ok(r[i].1, k),
{
    lemma_loaded_ids_distinct(r);
    lemma_field_map_bidirectional(r[i].1, k, spec_field_id(r[i].1, k)->Some_0);
}

/// Encoding is one-to-one on the payloads that read back: two such payloads
/// with the same bytes are the same payload.
pub proof fn lemma_encoding_injective(routes: RoutesModel, route: Seq<char>, v: JsonModel, w: JsonModel)
    requires
        spec_route_fields(routes, route) is Some,
        payload_encodable(v, spec_route_fields(routes, route)->Some_0),
        payload_encodable(w, spec_route_fields(routes, route)->Some_0),
        spec_encode_payload(routes, route, v) == spec_encode_payload(routes, route, w),
    ensures
        v == w,
{
    lemma_payload_round_trip(routes, route, v);
    lemma_payload_round_trip(routes, route, w);
}

/// Integers from -64 to 63 take a single varint byte.
pub proof fn lemma_small_varint_one_byte(n: i64)
    requires
        -64 <= n <= 63,
    ensures
        spec_encode_varint(n).len() == 1,
{
    assert(zigzag(n as int) < 128);
}

/// How many levels of arrays and objects a value nests.
pub open spec fn nesting(v: JsonModel) -> nat
    decreases v,
{
    match v {
        JsonModel::Array(items) => 1 + items_nesting(items),
        JsonModel::Object(m) => 1 + members_nesting(m),
        _ => 0,
    }
}

/// The deepest nesting among items.
pub open spec fn items_nesting(items: Seq<JsonModel>) -> nat
    decreases items,
{
    if items.len() == 0 {
        0
    } else {
        let a = nesting(items[0]);
        let b = items_nesting(items.drop_first());
        if a >= b {
            a
        } else {
            b
        }
    }
}

/// The deepest nesting among member values.
pub open spec fn members_nesting(m: Members) -> nat
    decreases m,
{
    if m.len() == 0 {
        0
    } else {
        let a = nesting(m[0].1);
        let b = members_nesting(m.drop_first());
        if a >= b {
            a
        } else {
            b
        }
    }
}

proof fn lemma_items_nesting_bound(items: Seq<JsonModel>, k: nat)
    requires
        forall|i: int| 0 <= i < items.len() ==> nesting(#[trigger] items[i]) <= k,
    ensures
        items_nesting(items) <= k,
    decreases items.len(),
{
    if items.len() > 0 {
        assert(nesting(items[0]) <= k);
        assert forall|i: int| 0 <= i < items.drop_first().len() implies nesting(
            #[trigger] items.drop_first()[i],
        ) <= k by {
            assert(items.drop_first()[i] == items[i + 1]);
        }
        lemma_items_nesting_bound(items.drop_first(), k);
    }
}

proof fn lemma_members_nesting_bound(m: Members, k: nat)
    requires
        forall|i: int| 0 <= i < m.len() ==> nesting(#[trigger] m[i].1) <= k,
    ensures
        members_nesting(m) <= k,
    decreases m.len(),
{
    if m.len() > 0 {
        assert(nesting(m[0].1) <= k);
        assert forall|i: int| 0 <= i < m.drop_first().len() implies nesting(
            #[trigger] m.drop_first()[i].1,
        ) <= k by {
            assert(m.drop_first()[i] == m[i + 1]);
        }
        lemma_members_nesting_bound(m.drop_first(), k);
    }
}

/// Every member value nests at most `k` levels.
pub open spec fn members_within(m: Members, k: nat) -> bool {
    forall|i: int| 0 <= i < m.len() ==> nesting(#[trigger] m[i].1) <= k
}

proof fn lemma_insert_within(m: Members, key: Seq<char>, v: JsonModel, k: nat)
    requires
        members_within(m, k),
        nesting(v) <= k,
    ensures
        members_within(members_insert(m, key, v), k),
{
    let r = members_insert(m, key, v);
    if exists|i: int| is_key_at(m, key, i) {
        let j = choose|i: int| is_key_at(m, key, i);
        assert forall|i: int| 0 <= i < r.len() implies nesting(#[trigger] r[i].1) <= k by {
            if i != j {
                assert(r[i] == m[i]);
            }
        }
    } else {
        assert forall|i: int| 0 <= i < r.len() implies nesting(#[trigger] r[i].1) <= k by {
            if i < m.len() {
                assert(r[i] == m[i]);
            }
        }
    }
}

/// A value read `depth` levels deep nests at most `MAX_NESTING_DEPTH - depth`
/// further levels.
proof fn lemma_value_nesting(s: Seq<u8>, pos: nat, fm: FieldModel, depth: nat)
    requires
        depth <= MAX_NESTING_DEPTH,
    ensures
        parse_value(s, pos, fm, depth) matches Ok((v, p)) ==> depth + nesting(v) <= MAX_NESTING_DEPTH,
    decreases 33 - depth, 0int, 0int,
{
    if depth + 1 <= MAX_NESTING_DEPTH {
        lemma_nested_nesting(s, pos + 1, fm, depth + 1);
    }
}

proof fn lemma_nested_nesting(s: Seq<u8>, pos: nat, fm: FieldModel, depth: nat)
    requires
        1 <= depth <= MAX_NESTING_DEPTH,
    ensures
        parse_nested(s, pos, fm, depth) matches Ok((v, p)) ==> depth - 1 + nesting(v)
            <= MAX_NESTING_DEPTH,
    decreases 33 - depth, 2int, 0int,
{
    if pos < s.len() {
        if let Ok((n, q)) = crate::wire::parse_compact(s, pos + 1) {
            let k = (MAX_NESTING_DEPTH - depth) as nat;
            if s[pos as int] == 0 {
                lemma_members_nesting(s, q, n, fm, depth, Seq::empty());
                if let Ok((m, r)) = parse_members(s, q, n, fm, depth, Seq::empty()) {
                    lemma_members_nesting_bound(m, k);
                }
            } else if s[pos as int] == 1 {
                lemma_items_nesting(s, q, n, fm, depth, Seq::empty());
                if let Ok((a, r)) = parse_items(s, q, n, fm, depth, Seq::empty()) {
                    lemma_items_nesting_bound(a, k);
                }
            }
        }
    }
}

proof fn lemma_members_nesting(
    s: Seq<u8>,
    pos: nat,
    count: nat,
    fm: FieldModel,
    depth: nat,
    acc: Members,
)
    requires
        depth <= MAX_NESTING_DEPTH,
        members_within(acc, (MAX_NESTING_DEPTH - depth) as nat),
    ensures
        parse_members(s, pos, count, fm, depth, acc) matches Ok((m, p)) ==> members_within(
            m,
            (MAX_NESTING_DEPTH - depth) as nat,
        ),
    decreases 33 - depth, 1int, count,
{
    if count > 0 && pos < s.len() {
        if let Some(name) = spec_field_name(fm, s[pos as int]) {
            lemma_value_nesting(s, pos + 1, fm, depth);
            if let Ok((v, p)) = parse_value(s, pos + 1, fm, depth) {
                lemma_insert_within(acc, name, v, (MAX_NESTING_DEPTH - depth) as nat);
                lemma_members_nesting(
                    s,
                    p,
                    (count - 1) as nat,
                    fm,
                    depth,
                    members_insert(acc, name, v),
                );
            }
        }
    }
}

proof fn lemma_items_nesting(
    s: Seq<u8>,
    pos: nat,
    count: nat,
    fm: FieldModel,
    depth: nat,
    acc: Seq<JsonModel>,
)
    requires
        depth <= MAX_NESTING_DEPTH,
        forall|i: int| 0 <= i < acc.len() ==> nesting(#[trigger] acc[i]) <= MAX_NESTING_DEPTH - depth,
    ensures
        parse_items(s, pos, count, fm, depth, acc) matches Ok((a, p)) ==> forall|i: int|
            0 <= i < a.len() ==> nesting(#[trigger] a[i]) <= MAX_NESTING_DEPTH - depth,
    decreases 33 - depth, 1int, count,
{
    if count > 0 {
        lemma_value_nesting(s, pos, fm, depth);
        if let Ok((v, p)) = parse_value(s, pos, fm, depth) {
            let acc2 = acc.push(v);
            assert forall|i: int| 0 <= i < acc2.len() implies nesting(#[trigger] acc2[i])
                <= MAX_NESTING_DEPTH - depth by {
                if i < acc.len() {
                    assert(acc2[i] == acc[i]);
                }
            }
            lemma_items_nesting(s, p, (count - 1) as nat, fm, depth, acc2);
        }
    }
}

proof fn lemma_fields_nesting(s: Seq<u8>, pos: nat, fm: FieldModel, acc: Members)
    requires
        members_within(acc, MAX_NESTING_DEPTH as nat),
    ensures
        parse_fields(s, pos, fm, acc) matches Ok(m) ==> members_within(m, MAX_NESTING_DEPTH as nat),
    decreases s.len() - pos,
{
    if pos < s.len() {
        if let Some(name) = spec_field_name(fm, s[pos as int]) {
            lemma_value_nesting(s, pos + 1, fm, 0);
            crate::wire::lemma_value_advances(s, pos + 1, fm, 0);
            if let Ok((v, p)) = parse_value(s, pos + 1, fm, 0) {
                lemma_insert_within(acc, name, v, MAX_NESTING_DEPTH as nat);
                lemma_fields_nesting(s, p, fm, members_insert(acc, name, v));
            }
        }
    }
}

/// Whatever decodes nests at most `MAX_NESTING_DEPTH` levels below the
/// top-level object: deeper binary is refused before it is read.
pub proof fn lemma_decoded_nesting_bounded(routes: RoutesModel, route: Seq<char>, s: Seq<u8>)
    ensures
        spec_decode_payload(routes, route, s) matches Ok(v) ==> nesting(v) <= MAX_NESTING_DEPTH
            + 1,
{
    if let Some(fm) = spec_route_fields(routes, route) {
        lemma_fields_nesting(s, 0, fm, Seq::empty());
        if let Ok(m) = parse_fields(s, 0, fm, Seq::empty()) {
            lemma_members_nesting_bound(m, MAX_NESTING_DEPTH as nat);
        }
    }
}


/// Routes whose keys are distinct, each with distinct field names.
pub open spec fn routes_well_named(r: RoutesModel) -> bool {
    &&& entry_names_distinct(r)
    &&& forall|i: int| 0 <= i < r.len() ==> entry_names_distinct(#[trigger] r[i].1)
}

/// Every route of `a` is in `b` under the same key, with the same fields
/// in some order.
pub open spec fn routes_covered(a: RoutesModel, b: RoutesModel) -> bool {
    forall|i: int|
        0 <= i < a.len() ==> exists|j: int|
            0 <= j < b.len() && #[trigger] b[j].0 == #[trigger] a[i].0 && same_entries(a[i].1, b[j].1)
}

proof fn lemma_rendered_covered(a: RoutesModel, b: RoutesModel, e: (Seq<char>, Seq<char>))
    requires
        routes_well_named(a),
        routes_well_named(b),
        routes_covered(a, b),
        rendered_routes(a).contains(e),
    ensures
        rendered_routes(b).contains(e),
{
    let ra = rendered_routes(a);
    let i = choose|i: int| 0 <= i < ra.len() && ra[i] == e;
    assert(a[i].0 == ra[i].0);
    let j = choose|j: int|
        0 <= j < b.len() && #[trigger] b[j].0 == #[trigger] a[i].0 && same_entries(a[i].1, b[j].1);
    assert(entry_names_distinct(a[i].1));
    assert(entry_names_distinct(b[j].1));
    lemma_fields_json_order_independent(a[i].1, b[j].1);
    assert(rendered_routes(b)[j] == e);
}

/// The canonical text, and so the hash, of a contract's routes does not
/// depend on the order its routes and fields were listed in.
pub proof fn lemma_hash_order_independent(a: RoutesModel, b: RoutesModel)
    requires
        routes_well_named(a),
        routes_well_named(b),
        routes_covered(a, b),
        routes_covered(b, a),
        a.len() <= usize::MAX,
        b.len() <= usize::MAX,
    ensures
        routes_json(a) == routes_json(b),
        hex_lower(sha256(encode_utf8(routes_json(a)))) == hex_lower(
            sha256(encode_utf8(routes_json(b))),
        ),
{
    let ra = rendered_routes(a);
    let rb = rendered_routes(b);
    assert forall|e: (Seq<char>, Seq<char>)| ra.contains(e) <==> rb.contains(e) by {
        if ra.contains(e) {
            lemma_rendered_covered(a, b, e);
        }
        if rb.contains(e) {
            lemma_rendered_covered(b, a, e);
        }
    }
    assert(entry_names_distinct(ra)) by {
        assert forall|x: int, y: int| 0 <= x < y < ra.len() implies ra[x].0 != ra[y].0 by {
            assert(a[x].0 != a[y].0);
        }
    }
    assert(entry_names_distinct(rb)) by {
        assert forall|x: int, y: int| 0 <= x < y < rb.len() implies rb[x].0 != rb[y].0 by {
            assert(b[x].0 != b[y].0);
        }
    }
    lemma_sort_order_independent(ra, rb);
    lemma_routes_json_rendered(a);
    lemma_routes_json_rendered(b);
}


/// A name sorts before every longer name it is a prefix of, and never
/// after it: `"user"` comes before `"user_id"` in the canonical text.
pub proof fn lemma_prefix_sorts_first(a: Seq<u8>, t: Seq<u8>)
    requires
        t.len() > 0,
    ensures
        bytes_lt(a, a + t),
        !bytes_lt(a + t, a),
    decreases a.len(),
{
    if a.len() > 0 {
        assert((a + t)[0] == a[0]);
        assert((a + t).drop_first() =~= a.drop_first() + t);
        lemma_prefix_sorts_first(a.drop_first(), t);
    } else {
        assert(a + t =~= t);
    }
}

/// Two names that agree up to position `i` and differ there are ordered
/// by their bytes at `i`.
pub proof fn lemma_first_difference_decides(a: Seq<u8>, b: Seq<u8>, i: int)
    requires
        0 <= i < a.len(),
        i < b.len(),
        a.take(i) == b.take(i),
        a[i] != b[i],
    ensures
        bytes_lt(a, b) == (a[i] < b[i]),
    decreases i,
{
    if i > 0 {
        assert(a[0] == a.take(i)[0]);
        assert(b[0] == b.take(i)[0]);
        assert(a.drop_first().take(i - 1) =~= b.drop_first().take(i - 1)) by {
            assert forall|j: int| 0 <= j < i - 1 implies a.drop_first()[j] == b.drop_first()[j] by {
                assert(a.take(i)[j + 1] == b.take(i)[j + 1]);
                assert(a.take(i)[j + 1] == a[j + 1]);
                assert(b.take(i)[j + 1] == b[j + 1]);
                assert(a.drop_first()[j] == a[j + 1]);
                assert(b.drop_first()[j] == b[j + 1]);
            }
        }
        lemma_first_difference_decides(a.drop_first(), b.drop_first(), i - 1);
    }
}

/// No name sorts before itself.
pub proof fn lemma_order_irreflexive(a: Seq<u8>)
    ensures
        !bytes_lt(a, a),
    decreases a.len(),
{
    if a.len() > 0 {
        lemma_order_irreflexive(a.drop_first());
    }
}

/// A contract loads exactly when no route has two fields sharing a token
/// ID, and then it keeps every route of the input as it was.
pub proof fn lemma_load_keeps_every_route(r: RoutesModel)
    ensures
        (spec_build_routes(r) is Ok) <==> (forall|i: int|
            0 <= i < r.len() ==> ids_distinct(#[trigger] r[i].1)),
        spec_build_routes(r) matches Ok(b) ==> b == r,
{
    if spec_build_routes(r) is Ok {
        lemma_loaded_ids_distinct(r);
    }
    if forall|i: int| 0 <= i < r.len() ==> ids_distinct(#[trigger] r[i].1) {
        assert(!exists|i: int| is_first_bad_route(r, i));
    }
}

/// In a contract that loads, every route key of the input looks up
/// exactly that route's (name, token ID) pairs.
pub proof fn lemma_loaded_route_found(r: RoutesModel, i: int)
    requires
        spec_build_routes(r) is Ok,
        0 <= i < r.len(),
        forall|j: int| 0 <= j < i ==> r[j].0 != r[i].0,
    ensures
        spec_route_fields(spec_build_routes(r)->Ok_0, r[i].0) == Some(r[i].1),
{
    lemma_load_keeps_every_route(r);
    lemma_route_fields_at(r, i);
}

/// The lower-case hexadecimal digits, in order.
pub open spec fn hex_digits() -> Seq<char> {
    seq!['0', '1', '2', '3', '4', '5', '6', '7', '8', '9', 'a', 'b', 'c', 'd', 'e', 'f']
}

/// The hexadecimal text of bytes has two digits per byte, high nibble
/// first, every byte included.
pub proof fn lemma_hex_text_digits(b: Seq<u8>)
    ensures
        hex_lower(b).len() == 2 * b.len(),
        forall|i: int|
            0 <= i < b.len() ==> hex_lower(b)[2 * i] == hex_digits()[(b[i] / 16) as int]
                && hex_lower(b)[2 * i + 1] == hex_digits()[(b[i] % 16) as int],
    decreases b.len(),
{
    assert forall|d: nat| d < 16 implies #[trigger] hex_digit_lower(d) == hex_digits()[d as int] by {
        if d < 10 {
            assert(hex_digit_lower(d) == ((48 + d) as u8) as char);
        }
    }
    if b.len() > 0 {
        lemma_hex_text_digits(b.drop_first());
        let h = hex_lower(b);
        let t = hex_lower(b.drop_first());
        assert(hex_digit_lower((b[0] / 16) as nat) == hex_digits()[(b[0] / 16) as int]);
        assert(hex_digit_lower((b[0] % 16) as nat) == hex_digits()[(b[0] % 16) as int]);
        assert forall|i: int| 0 <= i < b.len() implies h[2 * i] == hex_digits()[(b[i] / 16) as int]
            && h[2 * i + 1] == hex_digits()[(b[i] % 16) as int] by {
            if i > 0 {
                assert(b[i] == b.drop_first()[i - 1]);
                assert(h[2 * i] == t[2 * (i - 1)]);
                assert(h[2 * i + 1] == t[2 * (i - 1) + 1]);
            }
        }
    }
}

/// A packet holding one raw bytes value for a whitelisted token decodes to
/// that field with the hexadecimal text of all of its bytes, zero bytes
/// included.
pub proof fn lemma_bytes_value_decodes_to_hex(
    routes: RoutesModel,
    route: Seq<char>,
    id: u8,
    b: Seq<u8>,
)
    requires
        spec_route_fields(routes, route) is Some,
        spec_field_name(spec_route_fields(routes, route)->Some_0, id) is Some,
        b.len() <= MAX_COMPACT_VALUE,
    ensures
        spec_decode_payload(routes, route, seq![id, TYPE_BYTES] + compact(b.len()) + b) == Ok::<
            JsonModel,
            ErrorModel,
        >(
            JsonModel::Object(
                seq![
                    (
                        spec_field_name(spec_route_fields(routes, route)->Some_0, id)->Some_0,
                        JsonModel::Str(hex_lower(b)),
                    ),
                ],
            ),
        ),
{
    let fm = spec_route_fields(routes, route)->Some_0;
    let name = spec_field_name(fm, id)->Some_0;
    let c = compact(b.len());
    let s = seq![id, TYPE_BYTES] + c + b;
    let q = 2 + c.len();
    assert(s[0] == id);
    assert(s[1] == TYPE_BYTES);
    assert(s.subrange(2, q as int) =~= c);
    lemma_compact_round_trip(s, 2, b.len());
    assert(s.subrange(q as int, (q + b.len()) as int) =~= b);
    assert(parse_bytes(s, 2) == Ok::<(JsonModel, nat), ErrorModel>(
        (JsonModel::Str(hex_lower(b)), s.len()),
    ));
    assert(parse_value(s, 1, fm, 0) == Ok::<(JsonModel, nat), ErrorModel>(
        (JsonModel::Str(hex_lower(b)), s.len()),
    ));
    let e: Members = Seq::empty();
    assert(!exists|k: int| is_key_at(e, name, k));
    assert(members_insert(e, name, JsonModel::Str(hex_lower(b))) =~= seq![
        (name, JsonModel::Str(hex_lower(b))),
    ]);
    assert(parse_fields(s, s.len(), fm, seq![(name, JsonModel::Str(hex_lower(b)))]) == Ok::<
        Members,
        ErrorModel,
    >(seq![(name, JsonModel::Str(hex_lower(b)))]));
}

} // verus!
