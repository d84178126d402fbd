//! Trusted contracts for the std ordered-collection operations that vstd
//! leaves unspecified: range scans and splits of `BTreeMap` / `BTreeSet`.

use std::collections::{BTreeMap, BTreeSet};
use vstd::prelude::*;

verus! {

/// The seqs of `set` inside `[lo, hi]`, ascending (std `BTreeSet::range`).
#[verifier::external_body]
pub(crate) fn btree_set_range(set: &BTreeSet<u64>, lo: u64, hi: u64) -> (v: Vec<u64>)
    requires
        lo <= hi,
    ensures
        forall|i: int, j: int| 0 <= i < j < v.len() ==> v[i] < v[j],
        forall|x: u64| #[trigger] v@.contains(x) <==> (set@.contains(x) && lo <= x <= hi),
{
    set.range(lo..=hi).copied().collect()
}

/// Split a map at `key`: the returned map holds the keys `>= key`, the
/// argument keeps the rest (std `BTreeMap::split_off`).
#[verifier::external_body]
pub(crate) fn btree_map_split_off<V>(m: &mut BTreeMap<u64, V>, key: u64) -> (hi: BTreeMap<u64, V>)
    ensures
        hi@ == old(m)@.restrict(Set::new(|k: u64| k >= key)),
        final(m)@ == old(m)@.restrict(Set::new(|k: u64| k < key)),
{
    m.split_off(&key)
}

/// The keys of `m` inside `[lo, hi]`, ascending (std `BTreeMap::range`).
#[verifier::external_body]
pub(crate) fn btree_map_range_keys<V>(m: &BTreeMap<u64, V>, lo: u64, hi: u64) -> (v: Vec<u64>)
    requires
        lo <= hi,
    ensures
        forall|i: int, j: int| 0 <= i < j < v.len() ==> v[i] < v[j],
        forall|x: u64| #[trigger] v@.contains(x) <==> (m@.contains_key(x) && lo <= x <= hi),
{
    m.range(lo..=hi).map(|(k, _)| *k).collect()
}

/// Split a set at `key`: the returned set holds the seqs `>= key`
/// (std `BTreeSet::split_off`).
#[verifier::external_body]
pub(crate) fn btree_set_split_off(s: &mut BTreeSet<u64>, key: u64) -> (hi: BTreeSet<u64>)
    ensures
        hi@ == old(s)@.filter(|k: u64| k >= key),
        final(s)@ == old(s)@.filter(|k: u64| k < key),
{
    s.split_off(&key)
}

} // verus!
