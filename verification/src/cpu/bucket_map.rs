//! The hash table of distinguished points, kept in a `dashmap::DashMap`.
//!
//! A `DashMap` can change behind a shared reference. Every function here that
//! changes one takes it by `&mut`, and nothing else in the crate touches one,
//! so that what a table holds is a function of the table.

use crate::cpu::dp_table::StoredDP;
use dashmap::DashMap;
use vstd::prelude::*;

verus! {

/// `dashmap::DashMap`, as an opaque type.
#[verifier::external_type_specification]
#[verifier::external_body]
#[verifier::reject_recursive_types(K)]
#[verifier::reject_recursive_types(V)]
#[verifier::reject_recursive_types(S)]
pub struct ExDashMap<K, V, S>(dashmap::DashMap<K, V, S>);

/// What a table holds: the bucket of each key.
pub uninterp spec fn buckets(m: DashMap<u64, Vec<StoredDP>>) -> Map<u64, Seq<StoredDP>>;

/// `DashMap::new`: a table that holds nothing.
#[verifier::external_body]
pub(crate) fn new_map() -> (r: DashMap<u64, Vec<StoredDP>>)
    ensures
        buckets(r).dom() == Set::<u64>::empty(),
{
    DashMap::new()
}

/// `DashMap::get`: a copy of the bucket of `key`, or nothing where the table
/// holds none.
#[verifier::external_body]
pub(crate) fn get(m: &DashMap<u64, Vec<StoredDP>>, key: u64) -> (r: Option<Vec<StoredDP>>)
    ensures
        match r {
            Some(b) => buckets(*m).contains_key(key) && b@ == buckets(*m)[key],
            None => !buckets(*m).contains_key(key),
        },
{
    m.get(&key).map(|b| b.value().clone())
}

/// `DashMap::get_mut`: the bucket of `key`, which the table must hold, gets
/// `dp` at its end; every other bucket stays.
#[verifier::external_body]
pub(crate) fn push(m: &mut DashMap<u64, Vec<StoredDP>>, key: u64, dp: StoredDP)
    requires
        buckets(*old(m)).contains_key(key),
    ensures
        buckets(*final(m)) == buckets(*old(m)).insert(key, buckets(*old(m))[key].push(dp)),
{
    m.get_mut(&key).unwrap().value_mut().push(dp)
}

/// `DashMap::insert`: `bucket` becomes the bucket of `key`; every other bucket
/// stays.
#[verifier::external_body]
pub(crate) fn insert(m: &mut DashMap<u64, Vec<StoredDP>>, key: u64, bucket: Vec<StoredDP>)
    ensures
        buckets(*final(m)) == buckets(*old(m)).insert(key, bucket@),
{
    m.insert(key, bucket);
}

/// `DashMap::iter`: the keys of the table, each once. The order is left open.
#[verifier::external_body]
pub(crate) fn keys(m: &DashMap<u64, Vec<StoredDP>>) -> (r: Vec<u64>)
    ensures
        r@.no_duplicates(),
        r@.to_set() == buckets(*m).dom(),
{
    m.iter().map(|e| *e.key()).collect()
}

/// `DashMap::len`: how many buckets the table holds.
#[verifier::external_body]
pub(crate) fn len(m: &DashMap<u64, Vec<StoredDP>>) -> (r: usize)
    ensures
        r == buckets(*m).dom().len(),
{
    m.len()
}

/// `DashMap::is_empty`: whether the table holds no bucket.
#[verifier::external_body]
pub(crate) fn is_empty(m: &DashMap<u64, Vec<StoredDP>>) -> (r: bool)
    ensures
        r == (buckets(*m).dom() == Set::<u64>::empty()),
{
    m.is_empty()
}

} // verus!
