//! The edge collection.  The engine keeps its validated edges in a
//! persistent hash map from the `im` crate, as cloning one into every
//! published snapshot is cheap; the map itself is trusted, with its
//! contents named by `edge_map_of` and each operation's effect stated
//! over that name from what `im`'s source shows.
use crate::network_protocol::Edge;
use vstd::prelude::*;

verus! {

#[verifier::external_type_specification]
#[verifier::external_body]
#[verifier::reject_recursive_types(K)]
#[verifier::reject_recursive_types(V)]
#[verifier::reject_recursive_types(S)]
pub struct ExImHashMap<K, V, S>(im::HashMap<K, V, S>);

/// What an edge map holds, keyed by canonical edge key.
pub uninterp spec fn edge_map_of(m: im::HashMap<(u64, u64), Edge>) -> Map<(u64, u64), Edge>;

/// Relies on `im::HashMap::new`: constructs an empty map.
#[verifier::external_body]
pub fn em_new() -> (r: im::HashMap<(u64, u64), Edge>)
    ensures
        forall|k: (u64, u64)| !(#[trigger] edge_map_of(r).contains_key(k)),
{
    im::HashMap::new()
}

/// Relies on `im::HashMap::get`: returns the value bound to the key.
#[verifier::external_body]
pub fn em_get(m: &im::HashMap<(u64, u64), Edge>, k: (u64, u64)) -> (r: Option<&Edge>)
    ensures
        match r {
            Some(e) => edge_map_of(*m).contains_key(k) && *e == edge_map_of(*m)[k],
            None => !edge_map_of(*m).contains_key(k),
        },
{
    m.get(&k)
}

/// Relies on `im::HashMap::insert`: binds the key to the value,
/// replacing any previous binding.
#[verifier::external_body]
pub fn em_insert(m: &mut im::HashMap<(u64, u64), Edge>, k: (u64, u64), v: Edge)
    ensures
        edge_map_of(*final(m)) == edge_map_of(*old(m)).insert(k, v),
{
    m.insert(k, v);
}

/// Relies on `im::HashMap::remove`: unbinds the key and returns what it
/// was bound to.
#[verifier::external_body]
pub fn em_remove(m: &mut im::HashMap<(u64, u64), Edge>, k: (u64, u64)) -> (r: Option<Edge>)
    ensures
        edge_map_of(*final(m)) == edge_map_of(*old(m)).remove(k),
        match r {
            Some(e) => edge_map_of(*old(m)).contains_key(k) && e == edge_map_of(*old(m))[k],
            None => !edge_map_of(*old(m)).contains_key(k),
        },
{
    m.remove(&k)
}

/// Relies on `im::HashMap::len`: the number of bindings.
#[verifier::external_body]
pub fn em_len(m: &im::HashMap<(u64, u64), Edge>) -> (r: usize)
    ensures
        r == edge_map_of(*m).dom().len(),
{
    m.len()
}

/// Relies on `im::HashMap::clone`: a clone holds the same bindings.
#[verifier::external_body]
pub fn em_clone(m: &im::HashMap<(u64, u64), Edge>) -> (r: im::HashMap<(u64, u64), Edge>)
    ensures
        edge_map_of(r) == edge_map_of(*m),
{
    m.clone()
}

/// Relies on `im::HashMap::iter`: yields each binding exactly once, in
/// unspecified order.
#[verifier::external_body]
pub fn em_entries(m: &im::HashMap<(u64, u64), Edge>) -> (r: Vec<((u64, u64), Edge)>)
    ensures
        r@.len() == edge_map_of(*m).dom().len(),
        forall|i: int|
            0 <= i < r@.len() ==> edge_map_of(*m).contains_key((#[trigger] r@[i]).0)
                && edge_map_of(*m)[r@[i].0] == r@[i].1,
        forall|k: (u64, u64)| #[trigger]
            edge_map_of(*m).contains_key(k) ==> exists|i: int|
                0 <= i < r@.len() && (#[trigger] r@[i]).0 == k,
        forall|i: int, j: int| 0 <= i < j < r@.len() ==> (#[trigger] r@[i]).0 != (#[trigger] r@[j]).0,
{
    m.iter().map(|(k, v)| (*k, *v)).collect()
}

} // verus!
