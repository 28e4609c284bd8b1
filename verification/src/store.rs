//! The sharded adjacency table that the graph is kept in, and the few
//! operations on it that the library relies on without proof.

use dashmap::DashMap;
use vstd::prelude::*;

verus! {

/// dashmap's `DashMap`, declared so that it can stand in fields and
/// signatures. Nothing is known of what a value of it holds but through
/// `rows` and the operations below.
#[verifier::external_type_specification]
#[verifier::external_body]
#[verifier::reject_recursive_types(K)]
#[verifier::reject_recursive_types(V)]
#[verifier::reject_recursive_types(S)]
pub struct ExDashMap<K, V, S>(DashMap<K, V, S>);

/// What a table holds: for each key its row, in the order the row was stored.
pub uninterp spec fn rows(m: DashMap<u32, Vec<u32>>) -> Map<u32, Seq<u32>>;

/// `DashMap::new`: a table that holds nothing.
#[verifier::external_body]
pub(crate) fn table_new() -> (m: DashMap<u32, Vec<u32>>)
    ensures
        forall|k: u32| !rows(m).contains_key(k),
{
    DashMap::new()
}

/// `DashMap::len`: the number of keys.
#[verifier::external_body]
pub(crate) fn table_len(m: &DashMap<u32, Vec<u32>>) -> (count: usize)
    ensures
        count == rows(*m).dom().len(),
{
    m.len()
}

/// `DashMap::contains_key`: whether the key has a row.
#[verifier::external_body]
pub(crate) fn table_has(m: &DashMap<u32, Vec<u32>>, key: u32) -> (b: bool)
    ensures
        b == rows(*m).contains_key(key),
{
    m.contains_key(&key)
}

/// `DashMap::get`: a copy of the key's row, or `None` where it has none.
#[verifier::external_body]
pub(crate) fn table_row(m: &DashMap<u32, Vec<u32>>, key: u32) -> (row: Option<Vec<u32>>)
    ensures
        match row {
            Some(r) => rows(*m).contains_key(key) && r@ == rows(*m)[key],
            None => !rows(*m).contains_key(key),
        },
{
    m.get(&key).map(|r| r.value().clone())
}

/// `DashMap::insert`: the key's row becomes the given one, the other rows stay.
#[verifier::external_body]
pub(crate) fn table_put(m: &mut DashMap<u32, Vec<u32>>, key: u32, row: Vec<u32>)
    ensures
        rows(*final(m)) == rows(*old(m)).insert(key, row@),
{
    m.insert(key, row);
}

/// `DashMap::remove`: the key and its row leave, the other rows stay.
#[verifier::external_body]
pub(crate) fn table_drop(m: &mut DashMap<u32, Vec<u32>>, key: u32)
    ensures
        rows(*final(m)) == rows(*old(m)).remove(key),
{
    m.remove(&key);
}

/// `DashMap::iter`: every key once, in an order that the table does not fix.
#[verifier::external_body]
pub(crate) fn table_keys(m: &DashMap<u32, Vec<u32>>) -> (keys: Vec<u32>)
    ensures
        keys@.no_duplicates(),
        forall|k: u32| keys@.contains(k) <==> rows(*m).contains_key(k),
{
    m.iter().map(|e| *e.key()).collect()
}

} // verus!
