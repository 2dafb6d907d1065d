//! Trusted interface to the `indexmap` crate: the insertion-ordered map that
//! holds a transaction's pending writes and the append-only in-memory key
//! index, and the insertion-ordered set that holds the values of the
//! one-to-many index. Each wrapper states, over the named contents of the
//! collection, what the crate's documentation promises of one method.

use vstd::prelude::*;
use indexmap::IndexMap;
use indexmap::IndexSet;
use std::collections::hash_map::RandomState;
use crate::assoc::assoc_contains;

verus! {

#[verifier::external_type_specification]
#[verifier::external_body]
#[verifier::reject_recursive_types(K)]
#[verifier::reject_recursive_types(V)]
#[verifier::reject_recursive_types(S)]
pub struct ExIndexMap<K, V, S>(IndexMap<K, V, S>);

#[verifier::external_type_specification]
#[verifier::external_body]
#[verifier::reject_recursive_types(T)]
#[verifier::reject_recursive_types(S)]
pub struct ExIndexSet<T, S>(IndexSet<T, S>);

/// The key/value pairs held by an insertion-ordered map, oldest first.
pub uninterp spec fn map_entries(m: IndexMap<u64, u64, RandomState>) -> Seq<(u64, u64)>;

/// The values held by an insertion-ordered set, oldest first.
pub uninterp spec fn set_entries(s: IndexSet<u64, RandomState>) -> Seq<u64>;

/// Relies on `IndexMap::new`: the new map is empty.
#[verifier::external_body]
pub(crate) fn imap_new() -> (m: IndexMap<u64, u64, RandomState>)
    ensures
        map_entries(m) == Seq::<(u64, u64)>::empty(),
{
    IndexMap::new()
}

/// Relies on `IndexMap::len`: the number of key/value pairs.
#[verifier::external_body]
pub(crate) fn imap_len(m: &IndexMap<u64, u64, RandomState>) -> (n: usize)
    ensures
        n == map_entries(*m).len(),
{
    m.len()
}

/// Relies on `IndexMap::get`: the value stored under the key, if the key is
/// present.
#[verifier::external_body]
pub(crate) fn imap_get(m: &IndexMap<u64, u64, RandomState>, key: u64) -> (r: Option<u64>)
    ensures
        match r {
            Some(v) => exists|i: int|
                0 <= i < map_entries(*m).len() && #[trigger] map_entries(*m)[i] == (key, v),
            None => !assoc_contains(map_entries(*m), key),
        },
{
    m.get(&key).copied()
}

/// Relies on `IndexMap::insert`: an existing key keeps its place in the order
/// and gets the new value, and the old value is returned; a fresh key/value
/// pair is appended last and `None` is returned.
#[verifier::external_body]
pub(crate) fn imap_insert(m: &mut IndexMap<u64, u64, RandomState>, key: u64, val: u64) -> (r:
    Option<u64>)
    ensures
        match r {
            Some(v) => exists|i: int|
                0 <= i < map_entries(*old(m)).len() && #[trigger] map_entries(*old(m))[i] == (
                key,
                v,
                ) && map_entries(*final(m)) == map_entries(*old(m)).update(i, (key, val)),
            None => !assoc_contains(map_entries(*old(m)), key) && map_entries(*final(m))
                == map_entries(*old(m)).push((key, val)),
        },
{
    m.insert(key, val)
}

/// Relies on `IndexMap::clear`: every pair is removed.
#[verifier::external_body]
pub(crate) fn imap_clear(m: &mut IndexMap<u64, u64, RandomState>)
    ensures
        map_entries(*final(m)) == Seq::<(u64, u64)>::empty(),
{
    m.clear()
}

/// Relies on `IndexMap::iter`: the pairs come out in order, oldest first.
#[verifier::external_body]
pub(crate) fn imap_entries_vec(m: &IndexMap<u64, u64, RandomState>) -> (r: Vec<(u64, u64)>)
    ensures
        r@ == map_entries(*m),
{
    m.iter().map(|(k, v)| (*k, *v)).collect()
}

/// Relies on `IndexSet::new`: the new set is empty.
#[verifier::external_body]
pub(crate) fn iset_new() -> (s: IndexSet<u64, RandomState>)
    ensures
        set_entries(s) == Seq::<u64>::empty(),
{
    IndexSet::new()
}

/// Relies on `IndexSet::len`: the number of values.
#[verifier::external_body]
pub(crate) fn iset_len(s: &IndexSet<u64, RandomState>) -> (n: usize)
    ensures
        n == set_entries(*s).len(),
{
    s.len()
}

/// Relies on `IndexSet::insert`: a value already present leaves the set
/// unchanged and yields `false`; a fresh value is appended last and yields
/// `true`.
#[verifier::external_body]
pub(crate) fn iset_insert(s: &mut IndexSet<u64, RandomState>, val: u64) -> (fresh: bool)
    ensures
        fresh ==> !set_entries(*old(s)).contains(val) && set_entries(*final(s)) == set_entries(
            *old(s),
        ).push(val),
        !fresh ==> set_entries(*old(s)).contains(val) && set_entries(*final(s)) == set_entries(
            *old(s),
        ),
{
    s.insert(val)
}

/// Relies on `IndexSet::iter`: the values come out in order, oldest first.
#[verifier::external_body]
pub(crate) fn iset_values_vec(s: &IndexSet<u64, RandomState>) -> (r: Vec<u64>)
    ensures
        r@ == set_entries(*s),
{
    s.iter().copied().collect()
}

} // verus!
