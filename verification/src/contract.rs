//! In-memory contract data: the per-route field whitelist and the contract
//! as a whole.

use vstd::prelude::*;

use crate::error::{ErrorModel, HrestError};
use crate::text::str_eq;

verus! {

/// A route's fields as (name, token ID) pairs.
pub type FieldModel = Seq<(Seq<char>, u8)>;

/// No name occurs twice.
pub open spec fn names_distinct(m: FieldModel) -> bool {
    forall|i: int, j: int| 0 <= i < j < m.len() ==> m[i].0 != m[j].0
}

/// No token ID occurs twice.
pub open spec fn ids_distinct(m: FieldModel) -> bool {
    forall|i: int, j: int| 0 <= i < j < m.len() ==> m[i].1 != m[j].1
}

/// `i` is the first position holding `name`.
pub open spec fn is_first_name(m: FieldModel, name: Seq<char>, i: int) -> bool {
    &&& 0 <= i < m.len()
    &&& m[i].0 == name
    &&& forall|j: int| 0 <= j < i ==> m[j].0 != name
}

/// `i` is the first position holding `id`.
pub open spec fn is_first_id(m: FieldModel, id: u8, i: int) -> bool {
    &&& 0 <= i < m.len()
    &&& m[i].1 == id
    &&& forall|j: int| 0 <= j < i ==> m[j].1 != id
}

/// A name at position `i`, with none of the same name before it, maps to
/// the token ID at `i`.
pub proof fn lemma_field_id_at(m: FieldModel, i: int)
    requires
        0 <= i < m.len(),
        forall|j: int| 0 <= j < i ==> m[j].0 != m[i].0,
    ensures
        spec_field_id(m, m[i].0) == Some(m[i].1),
{
    assert(is_first_name(m, m[i].0, i));
    let k = choose|k: int| is_first_name(m, m[i].0, k);
    assert(k == i);
}

/// A token ID at position `i`, with none of the same ID before it, maps to
/// the name at `i`.
pub proof fn lemma_field_name_at(m: FieldModel, i: int)
    requires
        0 <= i < m.len(),
        forall|j: int| 0 <= j < i ==> m[j].1 != m[i].1,
    ensures
        spec_field_name(m, m[i].1) == Some(m[i].0),
{
    assert(is_first_id(m, m[i].1, i));
    let k = choose|k: int| is_first_id(m, m[i].1, k);
    assert(k == i);
}

/// The token ID of a field name, if the name is whitelisted.
pub open spec fn spec_field_id(m: FieldModel, name: Seq<char>) -> Option<u8> {
    if exists|i: int| is_first_name(m, name, i) {
        Some(m[choose|i: int| is_first_name(m, name, i)].1)
    } else {
        None
    }
}

/// The field name of a token ID, if the ID is registered (the first name
/// registered under it).
pub open spec fn spec_field_name(m: FieldModel, id: u8) -> Option<Seq<char>> {
    if exists|i: int| is_first_id(m, id, i) {
        Some(m[choose|i: int| is_first_id(m, id, i)].0)
    } else {
        None
    }
}

/// Entries with names as character sequences.
pub open spec fn names_model<V>(v: Seq<(String, V)>) -> Seq<(Seq<char>, V)> {
    v.map_values(|e: (String, V)| (e.0@, e.1))
}

/// Bidirectional mapping between field names and their binary token IDs,
/// scoped to a single route.
pub struct FieldMap {
    entries: Vec<(String, u8)>,
}

impl View for FieldMap {
    type V = FieldModel;

    closed spec fn view(&self) -> FieldModel {
        names_model(self.entries@)
    }
}

impl FieldMap {
    /// Build a `FieldMap` from (name, token ID) pairs, one per name.
    /// The reverse lookup (ID to name) works on the same pairs.
    pub fn new(name_to_id: Vec<(String, u8)>) -> (m: Self)
        requires
            names_distinct(names_model(name_to_id@)),
        ensures
            m@ == names_model(name_to_id@),
    {
        FieldMap { entries: name_to_id }
    }

    /// Look up the token ID for a given field name.
    ///
    /// Returns `None` if the field is not in the contract whitelist.
    pub fn field_id(&self, name: &str) -> (r: Option<u8>)
        ensures
            r == spec_field_id(self@, name@),
    {
        let mut i: usize = 0;
        while i < self.entries.len()
            invariant
                i <= self.entries.len(),
                forall|j: int| 0 <= j < i ==> self@[j].0 != name@,
            decreases self.entries.len() - i,
        {
            if str_eq(self.entries[i].0.as_str(), name) {
                proof {
                    assert(is_first_name(self@, name@, i as int));
                    let k = choose|k: int| is_first_name(self@, name@, k);
                    assert(k == i as int);
                }
                return Some(self.entries[i].1);
            }
            i = i + 1;
        }
        proof {
            assert(!exists|k: int| is_first_name(self@, name@, k));
        }
        None
    }

    /// Look up the field name for a given token ID.
    ///
    /// Returns `None` if the token ID is not registered.
    pub fn field_name(&self, id: u8) -> (r: Option<&str>)
        ensures
            match spec_field_name(self@, id) {
                Some(n) => r matches Some(s) && s@ == n,
                None => r is None,
            },
    {
        let mut i: usize = 0;
        while i < self.entries.len()
            invariant
                i <= self.entries.len(),
                forall|j: int| 0 <= j < i ==> self@[j].1 != id,
            decreases self.entries.len() - i,
        {
            if self.entries[i].1 == id {
                proof {
                    assert(is_first_id(self@, id, i as int));
                    let k = choose|k: int| is_first_id(self@, id, k);
                    assert(k == i as int);
                }
                return Some(self.entries[i].0.as_str());
            }
            i = i + 1;
        }
        proof {
            assert(!exists|k: int| is_first_id(self@, id, k));
        }
        None
    }

    /// Returns the number of fields in this route's contract.
    pub fn len(&self) -> (n: usize)
        ensures
            n == self@.len(),
    {
        self.entries.len()
    }

    /// Returns `true` if this route has no fields defined.
    pub fn is_empty(&self) -> (b: bool)
        ensures
            b == (self@.len() == 0),
    {
        self.entries.len() == 0
    }
}

/// Routes with their field maps, as the contract holds them.
pub type RoutesModel = Seq<(Seq<char>, FieldModel)>;

/// `i` is the first position holding route `route`.
pub open spec fn is_first_route(r: RoutesModel, route: Seq<char>, i: int) -> bool {
    &&& 0 <= i < r.len()
    &&& r[i].0 == route
    &&& forall|j: int| 0 <= j < i ==> r[j].0 != route
}

/// The field map of a route, if the route is in the contract.
pub open spec fn spec_route_fields(r: RoutesModel, route: Seq<char>) -> Option<FieldModel> {
    if exists|i: int| is_first_route(r, route, i) {
        Some(r[choose|i: int| is_first_route(r, route, i)].1)
    } else {
        None
    }
}

/// A route key at position `i`, with none of the same key before it, looks
/// up the field map at `i`.
pub proof fn lemma_route_fields_at(r: RoutesModel, i: int)
    requires
        0 <= i < r.len(),
        forall|j: int| 0 <= j < i ==> r[j].0 != r[i].0,
    ensures
        spec_route_fields(r, r[i].0) == Some(r[i].1),
{
    assert(is_first_route(r, r[i].0, i));
    let k = choose|k: int| is_first_route(r, r[i].0, k);
    assert(k == i);
}

/// No route key occurs twice.
pub open spec fn route_keys_distinct(r: RoutesModel) -> bool {
    forall|i: int, j: int| 0 <= i < j < r.len() ==> r[i].0 != r[j].0
}

/// The complete HRest contract — the single source of truth for all field
/// token mappings across all API routes.
pub struct ContractData {
    /// Protocol version string (e.g. `"1.0.0"`).
    pub version: String,
    /// SHA-256 hash of the canonical route structure.
    /// Used for `X-Hrest-Hash` header validation.
    pub contract_hash: String,
    /// Route -> FieldMap lookup table.
    pub(crate) routes: Vec<(String, FieldMap)>,
}

impl ContractData {
    /// The routes of this contract with their field maps.
    pub closed spec fn routes_model(&self) -> RoutesModel {
        self.routes@.map_values(|e: (String, FieldMap)| (e.0@, e.1@))
    }

    /// The protocol version text.
    pub closed spec fn version_view(&self) -> Seq<char> {
        self.version@
    }

    /// The stored contract hash text.
    pub closed spec fn hash_view(&self) -> Seq<char> {
        self.contract_hash@
    }

    /// The text views are those of the fields.
    pub(crate) proof fn lemma_text_views(&self)
        ensures
            self.version_view() == self.version@,
            self.hash_view() == self.contract_hash@,
    {
    }

    /// Create a `ContractData` instance from routes, one entry per route key.
    pub fn new(version: String, contract_hash: String, routes: Vec<(String, FieldMap)>) -> (c: Self)
        requires
            route_keys_distinct(routes@.map_values(|e: (String, FieldMap)| (e.0@, e.1@))),
        ensures
            c.version_view() == version@,
            c.hash_view() == contract_hash@,
            c.routes_model() == routes@.map_values(|e: (String, FieldMap)| (e.0@, e.1@)),
    {
        ContractData { version, contract_hash, routes }
    }

    /// Get the `FieldMap` for a given route key.
    ///
    /// # Errors
    /// Returns `HrestError::UnknownRoute` if the route is not in the contract.
    pub fn field_map(&self, route: &str) -> (r: Result<&FieldMap, HrestError>)
        ensures
            match spec_route_fields(self.routes_model(), route@) {
                Some(m) => r matches Ok(fm) && fm@ == m,
                None => r matches Err(e) && e@ == ErrorModel::UnknownRoute(route@),
            },
    {
        let mut i: usize = 0;
        while i < self.routes.len()
            invariant
                i <= self.routes.len(),
                forall|j: int| 0 <= j < i ==> self.routes_model()[j].0 != route@,
            decreases self.routes.len() - i,
        {
            if str_eq(self.routes[i].0.as_str(), route) {
                proof {
                    assert(is_first_route(self.routes_model(), route@, i as int));
                    let k = choose|k: int| is_first_route(self.routes_model(), route@, k);
                    assert(k == i as int);
                }
                return Ok(&self.routes[i].1);
            }
            i = i + 1;
        }
        proof {
            assert(!exists|k: int| is_first_route(self.routes_model(), route@, k));
        }
        Err(HrestError::UnknownRoute(route.to_owned()))
    }

    /// Returns `true` if the given hash matches the stored contract hash.
    /// Used to validate the `X-Hrest-Hash` request header.
    pub fn verify_hash(&self, client_hash: &str) -> (b: bool)
        ensures
            b == (self.hash_view() == client_hash@),
    {
        str_eq(self.contract_hash.as_str(), client_hash)
    }

    /// Returns all registered route keys, in the contract's order.
    pub fn routes(&self) -> (keys: Vec<&str>)
        ensures
            keys@.len() == self.routes_model().len(),
            forall|i: int| 0 <= i < keys@.len() ==> keys@[i]@ == self.routes_model()[i].0,
    {
        let mut keys: Vec<&str> = Vec::new();
        let mut i: usize = 0;
        while i < self.routes.len()
            invariant
                i <= self.routes.len(),
                keys@.len() == i,
                forall|j: int| 0 <= j < i ==> keys@[j]@ == self.routes_model()[j].0,
            decreases self.routes.len() - i,
        {
            keys.push(self.routes[i].0.as_str());
            i = i + 1;
        }
        keys
    }
}

} // verus!
