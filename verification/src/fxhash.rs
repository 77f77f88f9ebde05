//! Sets and maps keyed by raw vertex indices, hashed with `rustc_hash`'s
//! `FxBuildHasher`.
use vstd::prelude::*;

use rustc_hash::{FxHashMap, FxHashSet};

verus! {

/// `rustc_hash::FxBuildHasher`, the hasher builder of `FxHashSet` and
/// `FxHashMap`.
#[verifier::external_type_specification]
#[verifier::external_body]
pub struct ExFxBuildHasher(rustc_hash::FxBuildHasher);

/// `FxHashSet::default()`: an empty set.
#[verifier::external_body]
pub(crate) fn fx_set_new() -> (s: FxHashSet<u32>)
    ensures
        s@ == Set::<u32>::empty(),
{
    FxHashSet::default()
}

/// `HashSet::insert` on an `FxHashSet`: adds `v`; returns whether it was new.
#[verifier::external_body]
pub(crate) fn fx_set_insert(s: &mut FxHashSet<u32>, v: u32) -> (added: bool)
    ensures
        final(s)@ == old(s)@.insert(v),
        added == !old(s)@.contains(v),
{
    s.insert(v)
}

/// `HashSet::intersection` of two `FxHashSet`s, collected into a vector in
/// the set's iteration order (which the crate does not specify): every
/// common element exactly once.
#[verifier::external_body]
pub(crate) fn fx_set_intersection(a: &FxHashSet<u32>, b: &FxHashSet<u32>) -> (r: Vec<u32>)
    ensures
        r@.no_duplicates(),
        r@.to_set() == a@.intersect(b@),
{
    a.intersection(b).copied().collect()
}

/// A map between raw vertex indices.
pub type VertMap = FxHashMap<u32, u32>;

/// The empty map between raw vertex indices.
pub open spec fn empty_vert_map() -> Map<u32, u32> {
    Map::empty()
}

/// `FxHashMap::default()`: an empty map.
#[verifier::external_body]
pub(crate) fn fx_map_new() -> (m: VertMap)
    ensures
        m@ == empty_vert_map(),
{
    FxHashMap::default()
}

/// `HashMap::insert` on an `FxHashMap`: maps `k` to `v`.
#[verifier::external_body]
pub(crate) fn fx_map_insert(m: &mut VertMap, k: u32, v: u32)
    ensures
        final(m)@ == old(m)@.insert(k, v),
{
    m.insert(k, v);
}

/// `HashMap::get` on an `FxHashMap`, copied out.
#[verifier::external_body]
pub(crate) fn fx_map_get(m: &VertMap, k: u32) -> (r: Option<u32>)
    ensures
        r == if m@.contains_key(k) { Some(m@[k]) } else { None::<u32> },
{
    m.get(&k).copied()
}

/// `HashMap::len` on an `FxHashMap`.
#[verifier::external_body]
pub(crate) fn fx_map_len(m: &VertMap) -> (n: usize)
    ensures
        n == m@.len(),
{
    m.len()
}

} // verus!
