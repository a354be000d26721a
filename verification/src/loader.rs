//! Building contract data from a contract as read from
//! `hrest-contract.json`, and the contract's canonical hash.

use vstd::prelude::*;
use vstd::utf8::encode_utf8;

use crate::canonical::{raw_routes_model, routes_canonical_json, routes_json};
use crate::contract::{
    ids_distinct, route_keys_distinct, names_distinct, names_model, ContractData, FieldMap, FieldModel, RoutesModel,
};
use crate::error::{ErrorModel, HrestError};
use crate::outside::{hex_digit_lower, hex_encode, hex_lower, sha256, sha256_digest};
use crate::ports::ContractProvider;
use crate::text::{hex2_upper, hex2_upper_string};

verus! {

/// A route entry as `hrest-contract.json` holds it: field name to token ID.
pub struct RawRoute {
    /// Maps field name to token ID, one entry per name.
    pub fields: Vec<(String, u8)>,
}

/// `hrest-contract.json` as read: version, stored hash, and the routes.
pub struct RawContract {
    pub version: String,
    pub contract_hash: String,
    /// Route key to route entry, one entry per route key.
    pub routes: Vec<(String, RawRoute)>,
}

/// A contract as read has one entry per route and, within a route, one
/// entry per field name (as the JSON objects it was read from do).
pub open spec fn raw_wf(raw: RawContract) -> bool {
    let r = raw_routes_model(raw.routes@);
    &&& forall|i: int, j: int| 0 <= i < j < r.len() ==> r[i].0 != r[j].0
    &&& forall|i: int| 0 <= i < r.len() ==> names_distinct(#[trigger] r[i].1)
}

/// `j` is the first position whose token ID already occurred before it.
pub open spec fn is_first_dup(m: FieldModel, j: int) -> bool {
    &&& 0 <= j < m.len()
    &&& ids_distinct(m.take(j))
    &&& exists|k: int| 0 <= k < j && m[k].1 == m[j].1
}

/// The first token ID that occurs a second time, if any.
pub open spec fn first_dup_id(m: FieldModel) -> Option<u8> {
    if exists|j: int| is_first_dup(m, j) {
        Some(m[choose|j: int| is_first_dup(m, j)].1)
    } else {
        None
    }
}

/// The error for a route whose fields share a token ID.
pub open spec fn duplicate_id_error(route: Seq<char>, id: u8) -> ErrorModel {
    ErrorModel::MalformedPayload(
        "Contract error in route '"@ + route + "': duplicate field ID 0x"@ + hex2_upper(id)
            + " detected \u{2014} two fields cannot share the same token ID"@,
    )
}

/// Validate that no two field names map to the same token ID.
/// Duplicate IDs would corrupt bidirectional lookup in a `FieldMap`.
pub fn validate_no_duplicate_ids(route: &str, fields: &Vec<(String, u8)>) -> (r: Result<
    (),
    HrestError,
>)
    ensures
        r is Ok <==> ids_distinct(names_model(fields@)),
        match first_dup_id(names_model(fields@)) {
            None => r is Ok,
            Some(id) => r matches Err(e) && e@ == duplicate_id_error(route@, id),
        },
{
    let ghost m = names_model(fields@);
    let mut seen: Vec<bool> = Vec::new();
    while seen.len() < 256
        invariant
            seen.len() <= 256,
            forall|b: int| 0 <= b < seen.len() ==> !seen[b],
        decreases 256 - seen.len(),
    {
        seen.push(false);
    }
    let mut i: usize = 0;
    assert(m.take(0) =~= Seq::<(Seq<char>, u8)>::empty());
    while i < fields.len()
        invariant
            i <= fields.len(),
            seen.len() == 256,
            m == names_model(fields@),
            ids_distinct(m.take(i as int)),
            forall|b: u8|
                #![trigger seen[b as int]]
                seen[b as int] == exists|k: int| 0 <= k < i && m[k].1 == b,
        decreases fields.len() - i,
    {
        let id = fields[i].1;
        if seen[id as usize] {
            proof {
                assert(is_first_dup(m, i as int));
                let j = choose|j: int| is_first_dup(m, j);
                if j < i {
                    let k = choose|k: int| 0 <= k < j && m[k].1 == m[j].1;
                    assert(m.take(i as int)[k] == m[k] && m.take(i as int)[j] == m[j]);
                } else if j > i {
                    let k = choose|k: int| 0 <= k < i && m[k].1 == m[i as int].1;
                    assert(m.take(j)[k] == m[k] && m.take(j)[i as int] == m[i as int]);
                }
                assert(!ids_distinct(m)) by {
                    let k = choose|k: int| 0 <= k < i && m[k].1 == m[i as int].1;
                    assert(m[k].1 == m[i as int].1);
                }
            }
            let mut msg = "Contract error in route '".to_owned();
            msg.append(route);
            msg.append("': duplicate field ID 0x");
            msg.append(hex2_upper_string(id).as_str());
            msg.append(" detected \u{2014} two fields cannot share the same token ID");
            return Err(HrestError::MalformedPayload(msg));
        }
        seen.set(id as usize, true);
        proof {
            let t = m.take(i + 1);
            assert forall|a: int, b: int| 0 <= a < b < i + 1 implies #[trigger] t[a].1
                != #[trigger] t[b].1 by {
                if b < i {
                    assert(m.take(i as int)[a] == m[a] && m.take(i as int)[b] == m[b]);
                } else {
                    assert(m[a].1 != id);
                }
            }
            assert forall|b: u8|
                #![trigger seen[b as int]]
                seen[b as int] == exists|k: int| 0 <= k < i + 1 && m[k].1 == b by {
                if b == id {
                    assert(m[i as int].1 == b);
                } else {
                    if exists|k: int| 0 <= k < i + 1 && m[k].1 == b {
                        let k = choose|k: int| 0 <= k < i + 1 && m[k].1 == b;
                        assert(k < i);
                    }
                }
            }
        }
        i = i + 1;
    }
    proof {
        assert(m.take(i as int) =~= m);
        assert(!exists|j: int| is_first_dup(m, j)) by {
            if exists|j: int| is_first_dup(m, j) {
                let j = choose|j: int| is_first_dup(m, j);
                let k = choose|k: int| 0 <= k < j && m[k].1 == m[j].1;
            }
        }
    }
    Ok(())
}

/// `i` is the first route whose fields share a token ID.
pub open spec fn is_first_bad_route(r: RoutesModel, i: int) -> bool {
    &&& 0 <= i < r.len()
    &&& !ids_distinct(r[i].1)
    &&& forall|j: int| 0 <= j < i ==> ids_distinct(#[trigger] r[j].1)
}

/// Building contract data: the first route whose fields share a token ID is
/// refused; otherwise every route becomes a field map.
pub open spec fn spec_build_routes(r: RoutesModel) -> Result<RoutesModel, ErrorModel> {
    if exists|i: int| is_first_bad_route(r, i) {
        let i = choose|i: int| is_first_bad_route(r, i);
        Err(duplicate_id_error(r[i].0, first_dup_id(r[i].1)->Some_0))
    } else {
        Ok(r)
    }
}

proof fn lemma_first_dup_exists(m: FieldModel)
    requires
        !ids_distinct(m),
    ensures
        first_dup_id(m) is Some,
    decreases m.len(),
{
    let (a, b) = choose|a: int, b: int| 0 <= a < b < m.len() && m[a].1 == m[b].1;
    if ids_distinct(m.take(b)) {
        assert(is_first_dup(m, b));
    } else {
        lemma_first_dup_exists(m.take(b));
        let j = choose|j: int| is_first_dup(m.take(b), j);
        let k = choose|k: int| 0 <= k < j && m.take(b)[k].1 == m.take(b)[j].1;
        assert(m.take(b).take(j) =~= m.take(j));
        assert(is_first_dup(m, j));
    }
}

/// Converts a contract as read into contract data.
pub fn build_contract_data(raw: RawContract) -> (r: Result<ContractData, HrestError>)
    requires
        raw_wf(raw),
    ensures
        match spec_build_routes(raw_routes_model(raw.routes@)) {
            Ok(routes) => r matches Ok(c) && c.routes_model() == routes && c.version_view()
                == raw.version@ && c.hash_view() == raw.contract_hash@,
            Err(e) => r matches Err(x) && x@ == e,
        },
{
    let ghost all = raw_routes_model(raw.routes@);
    let RawContract { version, contract_hash, routes } = raw;
    let mut rest = routes;
    let mut built: Vec<(String, FieldMap)> = Vec::new();
    let ghost mut done: nat = 0;
    while rest.len() > 0
        invariant
            done + rest.len() == all.len(),
            raw_routes_model(rest@) == all.skip(done as int),
            built@.map_values(|e: (String, FieldMap)| (e.0@, e.1@)) == all.take(done as int),
            forall|j: int| 0 <= j < done ==> ids_distinct(#[trigger] all[j].1),
            forall|i: int| 0 <= i < all.len() ==> names_distinct(#[trigger] all[i].1),
            all == raw_routes_model(raw.routes@),
        decreases rest.len(),
    {
        let ghost old_rest = rest@;
        let (route_key, raw_route) = rest.remove(0);
        assert(all[done as int] == (route_key@, names_model(raw_route.fields@))) by {
            assert(all.skip(done as int)[0] == all[done as int]);
        }
        match validate_no_duplicate_ids(route_key.as_str(), &raw_route.fields) {
            Ok(()) => {},
            Err(e) => {
                proof {
                    assert(is_first_bad_route(all, done as int));
                    let i = choose|i: int| is_first_bad_route(all, i);
                    if i < done {
                    } else if i > done {
                        assert(ids_distinct(all[done as int].1));
                    }
                    assert(i == done);
                    lemma_first_dup_exists(all[done as int].1);
                }
                return Err(e);
            },
        }
        let ghost prev = built@.map_values(|e: (String, FieldMap)| (e.0@, e.1@));
        assert(names_distinct(all[done as int].1));
        let field_map = FieldMap::new(raw_route.fields);
        built.push((route_key, field_map));
        proof {
            assert(built@.map_values(|e: (String, FieldMap)| (e.0@, e.1@)) =~= prev.push(
                all[done as int],
            ));
            assert(all.take(done + 1int) =~= all.take(done as int).push(all[done as int]));
            assert forall|k: int| 0 <= k < rest@.len() implies raw_routes_model(rest@)[k]
                == all.skip(done + 1int)[k] by {
                assert(rest@[k] == old_rest[k + 1]);
                assert(raw_routes_model(old_rest)[k + 1] == all.skip(done as int)[k + 1]);
            }
            assert(raw_routes_model(rest@) =~= all.skip(done + 1int));
            done = done + 1;
        }
    }
    proof {
        assert(all.take(done as int) =~= all);
        assert(!exists|i: int| is_first_bad_route(all, i));
    }
    assert(route_keys_distinct(built@.map_values(|e: (String, FieldMap)| (e.0@, e.1@))));
    Ok(ContractData::new(version, contract_hash, built))
}

/// Loads an HRest contract and provides it to encoding and decoding.
pub struct JsonContractLoader {
    data: ContractData,
}

/// Hexadecimal text of a 32-byte digest has 64 lower-case hex digits.
proof fn lemma_hex_lower_shape(b: Seq<u8>)
    ensures
        hex_lower(b).len() == 2 * b.len(),
        forall|i: int|
            0 <= i < hex_lower(b).len() ==> (('0' <= #[trigger] hex_lower(b)[i] <= '9') || ('a'
                <= hex_lower(b)[i] <= 'f')),
    decreases b.len(),
{
    if b.len() > 0 {
        lemma_hex_lower_shape(b.drop_first());
        let h = seq![hex_digit_lower((b[0] / 16) as nat), hex_digit_lower((b[0] % 16) as nat)];
        assert forall|i: int| 0 <= i < hex_lower(b).len() implies (('0' <= #[trigger] hex_lower(
            b,
        )[i] <= '9') || ('a' <= hex_lower(b)[i] <= 'f')) by {
            if i >= 2 {
                assert(hex_lower(b)[i] == hex_lower(b.drop_first())[i - 2]);
            }
        }
    }
}

impl JsonContractLoader {
    /// The loaded contract.
    pub closed spec fn data_view(&self) -> ContractData {
        self.data
    }

    /// Load a contract as read from `hrest-contract.json`.
    ///
    /// # Errors
    /// Returns `HrestError::MalformedPayload` if two fields of a route share
    /// a token ID.
    pub fn from_raw(raw: RawContract) -> (r: Result<Self, HrestError>)
        requires
            raw_wf(raw),
        ensures
            match spec_build_routes(raw_routes_model(raw.routes@)) {
                Ok(routes) => r matches Ok(l) && l.data_view().routes_model() == routes
                    && l.data_view().version_view() == raw.version@
                    && l.data_view().hash_view() == raw.contract_hash@
                    && l.provided() == l.data_view(),
                Err(e) => r matches Err(x) && x@ == e,
            },
    {
        let data = build_contract_data(raw)?;
        Ok(JsonContractLoader { data })
    }

    /// Verify that a client-provided hash matches this contract's hash.
    ///
    /// Used to validate the `X-Hrest-Hash` HTTP header.
    /// Returns `true` only when hashes match exactly.
    pub fn verify_hash(&self, client_hash: &str) -> (b: bool)
        ensures
            b == (self.data_view().hash_view() == client_hash@),
    {
        self.data.verify_hash(client_hash)
    }

    /// Compute the SHA-256 hash of the contract's route structure, as
    /// lower-case hexadecimal.
    ///
    /// The hash is taken of the routes' canonical text, whose keys are
    /// sorted, so it does not depend on the order the routes and fields were
    /// listed in.
    pub fn compute_hash(raw: &RawContract) -> (h: String)
        ensures
            h@ == hex_lower(sha256(encode_utf8(routes_json(raw_routes_model(raw.routes@))))),
            h@.len() == 64,
            forall|i: int| 0 <= i < h@.len() ==> (('0' <= #[trigger] h@[i] <= '9') || ('a' <= h@[i] <= 'f')),
    {
        let canonical = routes_canonical_json(&raw.routes);
        let digest = sha256_digest(canonical.as_str().as_bytes());
        proof {
            lemma_hex_lower_shape(digest@);
        }
        hex_encode(digest.as_slice())
    }

    /// Returns the protocol version string from the loaded contract.
    pub fn version(&self) -> (s: &str)
        ensures
            s@ == self.data_view().version_view(),
    {
        proof {
            self.data.lemma_text_views();
        }
        self.data.version.as_str()
    }

    /// Returns the stored contract hash string.
    pub fn contract_hash(&self) -> (s: &str)
        ensures
            s@ == self.data_view().hash_view(),
    {
        proof {
            self.data.lemma_text_views();
        }
        self.data.contract_hash.as_str()
    }
}

impl ContractProvider for JsonContractLoader {
    /// What the loader provides is the contract it loaded.
    open spec fn provided(&self) -> ContractData {
        self.data_view()
    }

    fn contract(&self) -> (c: &ContractData) {
        &self.data
    }
}

} // verus!
