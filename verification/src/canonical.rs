//! The canonical text of a contract's routes, which its hash is taken of:
//! routes and their fields as JSON objects with keys in sorted byte order,
//! so that the text does not depend on the order the contract listed them in.

use vstd::prelude::*;
use vstd::utf8::{encode_utf8, encode_utf8_decode_utf8};

use crate::contract::{names_model, FieldModel};
use crate::loader::RawRoute;
use crate::outside::{json_quote, json_string_literal};
use crate::text::{decimal, decimal_string};

verus! {

/// Byte-wise lexicographic order (as `str`'s `Ord` compares).
pub open spec fn bytes_lt(a: Seq<u8>, b: Seq<u8>) -> bool
    decreases a.len(),
{
    if b.len() == 0 {
        false
    } else if a.len() == 0 {
        true
    } else if a[0] != b[0] {
        a[0] < b[0]
    } else {
        bytes_lt(a.drop_first(), b.drop_first())
    }
}

/// Names ordered by their UTF-8 bytes.
pub open spec fn name_lt(a: Seq<char>, b: Seq<char>) -> bool {
    bytes_lt(encode_utf8(a), encode_utf8(b))
}

/// The position of the least name among the first `n` entries (the first
/// such position on ties).
pub open spec fn min_index<V>(s: Seq<(Seq<char>, V)>, n: nat) -> nat
    decreases n,
{
    if n <= 1 {
        0
    } else {
        let j = min_index(s, (n - 1) as nat);
        if name_lt(s[n - 1].0, s[j as int].0) {
            (n - 1) as nat
        } else {
            j
        }
    }
}

pub proof fn lemma_min_index_bound<V>(s: Seq<(Seq<char>, V)>, n: nat)
    requires
        n >= 1,
    ensures
        min_index(s, n) < n,
    decreases n,
{
    if n > 1 {
        lemma_min_index_bound(s, (n - 1) as nat);
    }
}

/// Entries ordered by name: repeatedly the least one first.
pub open spec fn sort_by_name<V>(s: Seq<(Seq<char>, V)>) -> Seq<(Seq<char>, V)>
    decreases s.len(),
    via sort_by_name_decreases::<V>
{
    if s.len() == 0 {
        s
    } else {
        let j = min_index(s, s.len());
        seq![s[j as int]] + sort_by_name(s.remove(j as int))
    }
}

#[via_fn]
proof fn sort_by_name_decreases<V>(s: Seq<(Seq<char>, V)>) {
    if s.len() > 0 {
        lemma_min_index_bound(s, s.len());
    }
}

/// Whether `a` comes before `b` in byte-wise lexicographic order.
pub fn bytes_less(a: &[u8], b: &[u8]) -> (r: bool)
    ensures
        r == bytes_lt(a@, b@),
{
    let mut i: usize = 0;
    assert(a@.skip(0) == a@ && b@.skip(0) == b@);
    while i < a.len() && i < b.len()
        invariant
            i <= a.len(),
            i <= b.len(),
            bytes_lt(a@, b@) == bytes_lt(a@.skip(i as int), b@.skip(i as int)),
        decreases a.len() - i,
    {
        assert(a@.skip(i as int)[0] == a@[i as int]);
        assert(b@.skip(i as int)[0] == b@[i as int]);
        if a[i] != b[i] {
            return a[i] < b[i];
        }
        assert(a@.skip(i as int).drop_first() == a@.skip(i + 1));
        assert(b@.skip(i as int).drop_first() == b@.skip(i + 1));
        i = i + 1;
    }
    i == a.len() && i < b.len()
}

fn min_name_index<V: Copy>(v: &Vec<(String, V)>) -> (j: usize)
    requires
        v.len() >= 1,
    ensures
        j == min_index(names_model(v@), v.len() as nat),
        j < v.len(),
{
    let ghost m = names_model(v@);
    let mut j: usize = 0;
    let mut n: usize = 1;
    while n < v.len()
        invariant
            1 <= n <= v.len(),
            m == names_model(v@),
            j == min_index(m, n as nat),
            j < n,
        decreases v.len() - n,
    {
        if bytes_less(v[n].0.as_str().as_bytes(), v[j].0.as_str().as_bytes()) {
            j = n;
        }
        n = n + 1;
    }
    j
}

/// Sorts entries by name, as `sort_by_name` states.
pub fn sort_entries_by_name<V: Copy>(v: Vec<(String, V)>) -> (r: Vec<(String, V)>)
    ensures
        names_model(r@) == sort_by_name(names_model(v@)),
{
    let ghost whole = sort_by_name(names_model(v@));
    let mut rest = v;
    let mut out: Vec<(String, V)> = Vec::new();
    assert(names_model(out@) + sort_by_name(names_model(rest@)) =~= whole);
    while rest.len() > 0
        invariant
            names_model(out@) + sort_by_name(names_model(rest@)) == whole,
        decreases rest.len(),
    {
        let ghost m = names_model(rest@);
        let ghost before = names_model(out@);
        let j = min_name_index(&rest);
        let e = rest.remove(j);
        assert(names_model(rest@) =~= m.remove(j as int));
        out.push(e);
        assert(names_model(out@) =~= before.push(m[j as int]));
        assert(sort_by_name(m) == seq![m[j as int]] + sort_by_name(m.remove(j as int)));
        assert(before.push(m[j as int]) + sort_by_name(m.remove(j as int)) =~= before + (seq![
            m[j as int],
        ] + sort_by_name(m.remove(j as int))));
    }
    assert(names_model(rest@) =~= Seq::<(Seq<char>, V)>::empty());
    assert(names_model(out@) + Seq::<(Seq<char>, V)>::empty() =~= names_model(out@));
    out
}

/// `"name":id` for one field.
pub open spec fn field_item(e: (Seq<char>, u8)) -> Seq<char> {
    json_string_literal(e.0) + ":"@ + decimal(e.1 as nat)
}

/// Field items separated by commas.
pub open spec fn join_fields(s: FieldModel) -> Seq<char>
    decreases s.len(),
{
    if s.len() == 0 {
        Seq::empty()
    } else if s.len() == 1 {
        field_item(s[0])
    } else {
        join_fields(s.drop_last()) + ","@ + field_item(s.last())
    }
}

/// A route's fields as a JSON object with sorted keys.
pub open spec fn fields_json(fields: FieldModel) -> Seq<char> {
    "{"@ + join_fields(sort_by_name(fields)) + "}"@
}

// ---------------------------------------------------------------------------
// The canonical order does not depend on the input order
// ---------------------------------------------------------------------------

proof fn lemma_bytes_lt_irreflexive(a: Seq<u8>)
    ensures
        !bytes_lt(a, a),
    decreases a.len(),
{
    if a.len() > 0 {
        lemma_bytes_lt_irreflexive(a.drop_first());
    }
}

proof fn lemma_bytes_lt_transitive(a: Seq<u8>, b: Seq<u8>, c: Seq<u8>)
    requires
        bytes_lt(a, b),
        bytes_lt(b, c),
    ensures
        bytes_lt(a, c),
    decreases a.len(),
{
    if a.len() > 0 && b.len() > 0 && c.len() > 0 && a[0] == b[0] && b[0] == c[0] {
        lemma_bytes_lt_transitive(a.drop_first(), b.drop_first(), c.drop_first());
    }
}

proof fn lemma_bytes_lt_total(a: Seq<u8>, b: Seq<u8>)
    requires
        a != b,
    ensures
        bytes_lt(a, b) || bytes_lt(b, a),
    decreases a.len(),
{
    if a.len() > 0 && b.len() > 0 && a[0] == b[0] {
        if a.drop_first() == b.drop_first() {
            assert(a =~= seq![a[0]] + a.drop_first());
            assert(b =~= seq![b[0]] + b.drop_first());
        }
        lemma_bytes_lt_total(a.drop_first(), b.drop_first());
    } else if a.len() == 0 && b.len() == 0 {
        assert(a =~= b);
    }
}

/// `name_lt` is a strict total order on names.
pub proof fn lemma_name_order(a: Seq<char>, b: Seq<char>, c: Seq<char>)
    ensures
        !name_lt(a, a),
        name_lt(a, b) && name_lt(b, c) ==> name_lt(a, c),
        a != b ==> name_lt(a, b) || name_lt(b, a),
{
    lemma_bytes_lt_irreflexive(encode_utf8(a));
    if name_lt(a, b) && name_lt(b, c) {
        lemma_bytes_lt_transitive(encode_utf8(a), encode_utf8(b), encode_utf8(c));
    }
    if a != b {
        encode_utf8_decode_utf8(a);
        encode_utf8_decode_utf8(b);
        lemma_bytes_lt_total(encode_utf8(a), encode_utf8(b));
    }
}

/// No name occurs twice.
pub open spec fn entry_names_distinct<V>(s: Seq<(Seq<char>, V)>) -> bool {
    forall|i: int, j: int| 0 <= i < j < s.len() ==> s[i].0 != s[j].0
}

/// Names strictly increase.
pub open spec fn strictly_sorted<V>(s: Seq<(Seq<char>, V)>) -> bool {
    forall|i: int, j: int| 0 <= i < j < s.len() ==> name_lt(s[i].0, s[j].0)
}

/// The same entries, whatever their order.
pub open spec fn same_entries<V>(a: Seq<(Seq<char>, V)>, b: Seq<(Seq<char>, V)>) -> bool {
    forall|e: (Seq<char>, V)| a.contains(e) <==> b.contains(e)
}

proof fn lemma_min_index_least<V>(s: Seq<(Seq<char>, V)>, n: nat)
    requires
        1 <= n <= s.len(),
    ensures
        forall|k: int| 0 <= k < n ==> !name_lt(s[k].0, #[trigger] s[min_index(s, n) as int].0),
    decreases n,
{
    if n > 1 {
        lemma_min_index_least(s, (n - 1) as nat);
        lemma_min_index_bound(s, (n - 1) as nat);
        let j = min_index(s, (n - 1) as nat);
        let m = min_index(s, n);
        assert forall|k: int| 0 <= k < n implies !name_lt(s[k].0, #[trigger] s[m as int].0) by {
            lemma_name_order(s[k].0, s[j as int].0, s[(n - 1) as int].0);
            lemma_name_order(s[k].0, s[(n - 1) as int].0, s[j as int].0);
            lemma_name_order(s[(n - 1) as int].0, s[k].0, s[j as int].0);
        }
    } else {
        lemma_name_order(s[0].0, s[0].0, s[0].0);
    }
}

/// Sorting keeps the entries and orders them strictly by name when names
/// are distinct.
pub proof fn lemma_sort_by_name_properties<V>(s: Seq<(Seq<char>, V)>)
    ensures
        sort_by_name(s).len() == s.len(),
        forall|e: (Seq<char>, V)| sort_by_name(s).contains(e) <==> s.contains(e),
        entry_names_distinct(s) ==> strictly_sorted(sort_by_name(s)),
    decreases s.len(),
{
    if s.len() > 0 {
        let j = min_index(s, s.len());
        lemma_min_index_bound(s, s.len());
        lemma_min_index_least(s, s.len());
        let rest = s.remove(j as int);
        s.remove_ensures(j as int);
        lemma_sort_by_name_properties(rest);
        let out = sort_by_name(s);
        let tail = sort_by_name(rest);
        assert(out == seq![s[j as int]] + tail);
        assert forall|e: (Seq<char>, V)| out.contains(e) <==> s.contains(e) by {
            if out.contains(e) {
                let i = choose|i: int| 0 <= i < out.len() && out[i] == e;
                if i > 0 {
                    assert(tail[i - 1] == e);
                    assert(tail.contains(e));
                    assert(rest.contains(e));
                    let k = choose|k: int| 0 <= k < rest.len() && rest[k] == e;
                    assert(0 <= k < rest.len());
                    assert(rest.len() == s.len() - 1);
                    if k < j {
                        assert(s.remove(j as int)[k] == s[k]);
                        assert(rest[k] == s[k]);
                        assert(s[k] == e);
                    } else {
                        assert(rest[k] == s[k + 1]);
                        assert(s[k + 1] == e);
                    }
                } else {
                    assert(s[j as int] == e);
                }
            }
            if s.contains(e) {
                let k = choose|k: int| 0 <= k < s.len() && s[k] == e;
                if k == j {
                    assert(out[0] == e);
                } else {
                    let r = if k < j {
                        k
                    } else {
                        k - 1
                    };
                    assert(rest[r] == e);
                    assert(rest.contains(e));
                    let t = choose|t: int| 0 <= t < tail.len() && tail[t] == e;
                    assert(out[t + 1] == e);
                }
            }
        }
        if entry_names_distinct(s) {
            assert(entry_names_distinct(rest)) by {
                assert forall|a: int, b: int| 0 <= a < b < rest.len() implies rest[a].0
                    != rest[b].0 by {
                    let a2 = if a < j {
                        a
                    } else {
                        a + 1
                    };
                    let b2 = if b < j {
                        b
                    } else {
                        b + 1
                    };
                    assert(rest[a] == s[a2] && rest[b] == s[b2]);
                }
            }
            assert forall|a: int, b: int| 0 <= a < b < out.len() implies name_lt(
                out[a].0,
                out[b].0,
            ) by {
                if a > 0 {
                    assert(out[a] == tail[a - 1] && out[b] == tail[b - 1]);
                } else {
                    assert(out[b] == tail[b - 1]);
                    assert(rest.contains(tail[b - 1]));
                    let k = choose|k: int| 0 <= k < rest.len() && rest[k] == tail[b - 1];
                    let k2 = if k < j {
                        k
                    } else {
                        k + 1
                    };
                    assert(s[k2] == out[b]);
                    assert(!name_lt(s[k2].0, s[j as int].0));
                    assert(s[k2].0 != s[j as int].0);
                    lemma_name_order(s[j as int].0, s[k2].0, s[j as int].0);
                }
            }
        }
    }
}

/// Two strictly sorted sequences of the same entries are the same sequence.
pub proof fn lemma_strictly_sorted_unique<V>(x: Seq<(Seq<char>, V)>, y: Seq<(Seq<char>, V)>)
    requires
        strictly_sorted(x),
        strictly_sorted(y),
        same_entries(x, y),
    ensures
        x == y,
    decreases x.len(),
{
    if x.len() == 0 {
        if y.len() > 0 {
            assert(y.contains(y[0]));
        }
        assert(x =~= y);
    } else if y.len() == 0 {
        assert(x.contains(x[0]));
    } else {
        assert(x.contains(x[0]));
        assert(y.contains(y[0]));
        let j = choose|j: int| 0 <= j < y.len() && y[j] == x[0];
        let i = choose|i: int| 0 <= i < x.len() && x[i] == y[0];
        lemma_name_order(x[0].0, y[0].0, x[0].0);
        if i > 0 && j > 0 {
            assert(name_lt(x[0].0, y[0].0));
            assert(name_lt(y[0].0, x[0].0));
        }
        if i > 0 && j == 0 {
            lemma_name_order(x[0].0, x[0].0, x[0].0);
        }
        assert(x[0] == y[0]);
        let xt = x.drop_first();
        let yt = y.drop_first();
        assert forall|e: (Seq<char>, V)| xt.contains(e) <==> yt.contains(e) by {
            if xt.contains(e) {
                let a = choose|a: int| 0 <= a < xt.len() && xt[a] == e;
                assert(x[a + 1] == e);
                assert(x.contains(e));
                let b = choose|b: int| 0 <= b < y.len() && y[b] == e;
                if b == 0 {
                    lemma_name_order(x[0].0, x[0].0, x[0].0);
                }
                assert(yt[b - 1] == e);
            }
            if yt.contains(e) {
                let a = choose|a: int| 0 <= a < yt.len() && yt[a] == e;
                assert(y[a + 1] == e);
                assert(y.contains(e));
                let b = choose|b: int| 0 <= b < x.len() && x[b] == e;
                if b == 0 {
                    lemma_name_order(y[0].0, y[0].0, y[0].0);
                }
                assert(xt[b - 1] == e);
            }
        }
        lemma_strictly_sorted_unique(xt, yt);
        assert(x =~= seq![x[0]] + xt);
        assert(y =~= seq![y[0]] + yt);
    }
}

/// Sorting the same entries in any order gives one result, when names are
/// distinct.
pub proof fn lemma_sort_order_independent<V>(a: Seq<(Seq<char>, V)>, b: Seq<(Seq<char>, V)>)
    requires
        entry_names_distinct(a),
        entry_names_distinct(b),
        same_entries(a, b),
    ensures
        sort_by_name(a) == sort_by_name(b),
{
    lemma_sort_by_name_properties(a);
    lemma_sort_by_name_properties(b);
    assert forall|e: (Seq<char>, V)| sort_by_name(a).contains(e) <==> sort_by_name(b).contains(
        e,
    ) by {
        assert(sort_by_name(a).contains(e) <==> a.contains(e));
        assert(sort_by_name(b).contains(e) <==> b.contains(e));
    }
    lemma_strictly_sorted_unique(sort_by_name(a), sort_by_name(b));
}

/// Changing the values of entries, keeping their names, commutes with
/// sorting.
pub open spec fn map_entry_values<V, W>(s: Seq<(Seq<char>, V)>, f: spec_fn(V) -> W) -> Seq<
    (Seq<char>, W),
> {
    Seq::new(s.len(), |i: int| (s[i].0, f(s[i].1)))
}

proof fn lemma_min_index_map<V, W>(s: Seq<(Seq<char>, V)>, f: spec_fn(V) -> W, n: nat)
    requires
        n <= s.len(),
    ensures
        min_index(map_entry_values(s, f), n) == min_index(s, n),
    decreases n,
{
    if n > 1 {
        lemma_min_index_map(s, f, (n - 1) as nat);
        lemma_min_index_bound(s, (n - 1) as nat);
    }
}

pub proof fn lemma_sort_map_commute<V, W>(s: Seq<(Seq<char>, V)>, f: spec_fn(V) -> W)
    ensures
        sort_by_name(map_entry_values(s, f)) == map_entry_values(sort_by_name(s), f),
    decreases s.len(),
{
    if s.len() > 0 {
        let t = map_entry_values(s, f);
        lemma_min_index_map(s, f, s.len());
        let j = min_index(s, s.len());
        lemma_min_index_bound(s, s.len());
        assert(t.remove(j as int) =~= map_entry_values(s.remove(j as int), f));
        lemma_sort_map_commute(s.remove(j as int), f);
        assert(sort_by_name(t) == seq![t[j as int]] + sort_by_name(t.remove(j as int)));
        assert(map_entry_values(sort_by_name(s), f) =~= seq![t[j as int]] + map_entry_values(
            sort_by_name(s.remove(j as int)),
            f,
        ));
    }
}

/// Routes as read from a contract, names and fields as character
/// sequences.
pub open spec fn raw_routes_model(routes: Seq<(String, RawRoute)>) -> Seq<(Seq<char>, FieldModel)> {
    routes.map_values(|e: (String, RawRoute)| (e.0@, names_model(e.1.fields@)))
}

/// The routes, each paired with its position.
pub open spec fn indexed_routes(routes: Seq<(Seq<char>, FieldModel)>) -> Seq<(Seq<char>, usize)> {
    Seq::new(routes.len(), |i: int| (routes[i].0, i as usize))
}

/// `"route":{...}` for the route at a position.
pub open spec fn route_item(routes: Seq<(Seq<char>, FieldModel)>, o: (Seq<char>, usize)) -> Seq<
    char,
> {
    json_string_literal(o.0) + ":"@ + fields_json(routes[o.1 as int].1)
}

/// Route items in the given order, separated by commas.
pub open spec fn join_routes(
    routes: Seq<(Seq<char>, FieldModel)>,
    order: Seq<(Seq<char>, usize)>,
) -> Seq<char>
    decreases order.len(),
{
    if order.len() == 0 {
        Seq::empty()
    } else if order.len() == 1 {
        route_item(routes, order[0])
    } else {
        join_routes(routes, order.drop_last()) + ","@ + route_item(routes, order.last())
    }
}

/// The canonical text of the routes: a JSON object of JSON objects, keys in
/// sorted byte order, no whitespace.
pub open spec fn routes_json(routes: Seq<(Seq<char>, FieldModel)>) -> Seq<char> {
    "{"@ + join_routes(routes, sort_by_name(indexed_routes(routes))) + "}"@
}

/// One route's fields as a JSON object with sorted keys.
pub fn fields_canonical_json(fields: &Vec<(String, u8)>) -> (s: String)
    ensures
        s@ == fields_json(names_model(fields@)),
{
    let mut copy: Vec<(String, u8)> = Vec::new();
    let mut i: usize = 0;
    while i < fields.len()
        invariant
            i <= fields.len(),
            names_model(copy@) == names_model(fields@).take(i as int),
        decreases fields.len() - i,
    {
        let ghost before = names_model(copy@);
        copy.push((fields[i].0.clone(), fields[i].1));
        assert(names_model(copy@) =~= before.push(names_model(fields@)[i as int]));
        assert(names_model(fields@).take(i + 1) =~= names_model(fields@).take(i as int).push(
            names_model(fields@)[i as int],
        ));
        i = i + 1;
    }
    assert(names_model(fields@).take(fields.len() as int) =~= names_model(fields@));
    let sorted = sort_entries_by_name(copy);
    let ghost order = names_model(sorted@);
    let mut out = "{".to_owned();
    let mut k: usize = 0;
    while k < sorted.len()
        invariant
            k <= sorted.len(),
            order == names_model(sorted@),
            out@ == "{"@ + join_fields(order.take(k as int)),
        decreases sorted.len() - k,
    {
        let ghost prev = out@;
        if k > 0 {
            out.append(",");
        }
        out.append(json_quote(sorted[k].0.as_str()).as_str());
        out.append(":");
        out.append(decimal_string(sorted[k].1 as u64).as_str());
        proof {
            let t = order.take(k + 1);
            assert(t.drop_last() =~= order.take(k as int));
            assert(t.last() == order[k as int]);
            if k == 0 {
                assert(t.len() == 1);
                assert(join_fields(order.take(0)) =~= Seq::<char>::empty());
            }
        }
        assert(out@ =~= "{"@ + join_fields(order.take(k + 1)));
        k = k + 1;
    }
    assert(order.take(k as int) =~= order);
    out.append("}");
    out
}

/// The canonical text of the routes, as `routes_json` states.
pub fn routes_canonical_json(routes: &Vec<(String, RawRoute)>) -> (s: String)
    ensures
        s@ == routes_json(raw_routes_model(routes@)),
{
    let ghost rm = raw_routes_model(routes@);
    let mut idx: Vec<(String, usize)> = Vec::new();
    let mut i: usize = 0;
    while i < routes.len()
        invariant
            i <= routes.len(),
            rm == raw_routes_model(routes@),
            names_model(idx@) == indexed_routes(rm).take(i as int),
        decreases routes.len() - i,
    {
        let ghost before = names_model(idx@);
        idx.push((routes[i].0.clone(), i));
        assert(names_model(idx@) =~= before.push(indexed_routes(rm)[i as int]));
        assert(indexed_routes(rm).take(i + 1) =~= indexed_routes(rm).take(i as int).push(
            indexed_routes(rm)[i as int],
        ));
        i = i + 1;
    }
    assert(indexed_routes(rm).take(routes.len() as int) =~= indexed_routes(rm));
    let sorted = sort_entries_by_name(idx);
    let ghost order = names_model(sorted@);
    assert(order == sort_by_name(indexed_routes(rm)));
    proof {
        lemma_sorted_indices_in_range(indexed_routes(rm), rm.len());
    }
    let mut out = "{".to_owned();
    let mut k: usize = 0;
    while k < sorted.len()
        invariant
            k <= sorted.len(),
            order == names_model(sorted@),
            order == sort_by_name(indexed_routes(rm)),
            rm == raw_routes_model(routes@),
            forall|t: int| 0 <= t < order.len() ==> (order[t].1 as int) < rm.len(),
            out@ == "{"@ + join_routes(rm, order.take(k as int)),
        decreases sorted.len() - k,
    {
        if k > 0 {
            out.append(",");
        }
        let r = sorted[k].1;
        assert(order[k as int].1 == r);
        out.append(json_quote(sorted[k].0.as_str()).as_str());
        out.append(":");
        out.append(fields_canonical_json(&routes[r].1.fields).as_str());
        proof {
            let t = order.take(k + 1);
            assert(t.drop_last() =~= order.take(k as int));
            assert(t.last() == order[k as int]);
            assert(rm[r as int].1 == names_model(routes@[r as int].1.fields@));
            if k == 0 {
                assert(t.len() == 1);
                assert(join_routes(rm, order.take(0)) =~= Seq::<char>::empty());
            }
        }
        assert(out@ =~= "{"@ + join_routes(rm, order.take(k + 1)));
        k = k + 1;
    }
    assert(order.take(k as int) =~= order);
    out.append("}");
    out
}

/// Sorting keeps every entry's position value among those of the input.
proof fn lemma_sorted_indices_in_range(s: Seq<(Seq<char>, usize)>, bound: nat)
    requires
        forall|t: int| 0 <= t < s.len() ==> (s[t].1 as int) < bound,
    ensures
        forall|t: int|
            0 <= t < sort_by_name(s).len() ==> (#[trigger] sort_by_name(s)[t].1 as int) < bound,
    decreases s.len(),
{
    if s.len() > 0 {
        let j = min_index(s, s.len());
        lemma_min_index_bound(s, s.len());
        let rest = s.remove(j as int);
        assert forall|t: int| 0 <= t < rest.len() implies (rest[t].1 as int) < bound by {
            if t < j {
                assert(rest[t] == s[t]);
            } else {
                assert(rest[t] == s[t + 1]);
            }
        }
        lemma_sorted_indices_in_range(rest, bound);
        let out = sort_by_name(s);
        assert(out == seq![s[j as int]] + sort_by_name(rest));
        assert forall|t: int| 0 <= t < out.len() implies (#[trigger] out[t].1 as int) < bound by {
            if t > 0 {
                assert(out[t] == sort_by_name(rest)[t - 1]);
            }
        }
    }
}


/// `"name":text` items separated by commas, for already rendered values.
pub open spec fn join_rendered(s: Seq<(Seq<char>, Seq<char>)>) -> Seq<char>
    decreases s.len(),
{
    if s.len() == 0 {
        Seq::empty()
    } else if s.len() == 1 {
        json_string_literal(s[0].0) + ":"@ + s[0].1
    } else {
        join_rendered(s.drop_last()) + ","@ + json_string_literal(s.last().0) + ":"@ + s.last().1
    }
}

/// Each route with its fields rendered as canonical text.
pub open spec fn rendered_routes(r: Seq<(Seq<char>, FieldModel)>) -> Seq<(Seq<char>, Seq<char>)> {
    Seq::new(r.len(), |i: int| (r[i].0, fields_json(r[i].1)))
}

/// The canonical field text of the route at a position.
pub open spec fn route_fields_text(r: Seq<(Seq<char>, FieldModel)>) -> spec_fn(usize) -> Seq<char> {
    |i: usize| fields_json(r[i as int].1)
}

proof fn lemma_join_routes_rendered(
    r: Seq<(Seq<char>, FieldModel)>,
    order: Seq<(Seq<char>, usize)>,
)
    requires
        forall|t: int| 0 <= t < order.len() ==> (order[t].1 as int) < r.len(),
    ensures
        join_routes(r, order) == join_rendered(map_entry_values(order, route_fields_text(r))),
    decreases order.len(),
{
    let f = route_fields_text(r);
    let m = map_entry_values(order, f);
    if order.len() > 1 {
        lemma_join_routes_rendered(r, order.drop_last());
        assert(map_entry_values(order.drop_last(), f) =~= m.drop_last());
    }
}

/// The canonical text of the routes, stated over the rendered routes in
/// sorted order.
pub proof fn lemma_routes_json_rendered(r: Seq<(Seq<char>, FieldModel)>)
    requires
        r.len() <= usize::MAX,
    ensures
        routes_json(r) == "{"@ + join_rendered(sort_by_name(rendered_routes(r))) + "}"@,
{
    let ix = indexed_routes(r);
    let f = route_fields_text(r);
    let order = sort_by_name(ix);
    assert forall|t: int| 0 <= t < ix.len() implies (ix[t].1 as int) < r.len() by {}
    lemma_sorted_indices_in_range(ix, r.len());
    lemma_join_routes_rendered(r, order);
    assert(join_routes(r, order) == join_rendered(map_entry_values(order, f)));
    lemma_sort_map_commute(ix, f);
    assert(sort_by_name(map_entry_values(ix, f)) == map_entry_values(order, f));
    assert forall|i: int| 0 <= i < r.len() implies #[trigger] map_entry_values(ix, f)[i]
        == rendered_routes(r)[i] by {
        assert(ix[i] == (r[i].0, i as usize));
        assert((i as usize) as int == i);
    }
    assert(map_entry_values(ix, f) =~= rendered_routes(r));
    assert(join_rendered(sort_by_name(rendered_routes(r))) == join_rendered(
        map_entry_values(order, f),
    ));
}

/// A route's canonical field text does not depend on the order its fields
/// were listed in.
pub proof fn lemma_fields_json_order_independent(a: FieldModel, b: FieldModel)
    requires
        entry_names_distinct(a),
        entry_names_distinct(b),
        same_entries(a, b),
    ensures
        fields_json(a) == fields_json(b),
{
    lemma_sort_order_independent(a, b);
}

} // verus!
