//! SACK-clocked store release: SACKed seqs leave the flow-control count
//! while their payload stays retained until the cumulative frontier passes.

use crate::collections::{btree_map_range_keys, btree_set_split_off};
use std::collections::{BTreeMap, BTreeSet};
use vstd::prelude::*;

verus! {

broadcast use vstd::std_specs::btree::group_btree_axioms;

/// The retained seqs of `store_keys` inside `[start, end]`.
pub open spec fn retained_in(store_keys: Set<u64>, start: u64, end: u64) -> Set<u64> {
    store_keys.filter(|s: u64| start <= s <= end)
}

/// Mark every retained seq of the SACK range `[start, end]` as released and
/// return the seqs newly released by this call, ascending; already-released
/// seqs are skipped. Nothing leaves the store.
pub fn sack_release_mark<V>(sent_store: &BTreeMap<u64, V>, released: &mut BTreeSet<u64>, start: u64, end: u64) -> (newly: Vec<u64>)
    requires
        start <= end,
    ensures
        final(released)@ == old(released)@.union(retained_in(sent_store@.dom(), start, end)),
        newly@.to_set() == retained_in(sent_store@.dom(), start, end).difference(old(released)@),
        forall|i: int, j: int| 0 <= i < j < newly.len() ==> newly[i] < newly[j],
{
    let ghost window = retained_in(sent_store@.dom(), start, end);
    let ghost old_released = released@;
    let keys = btree_map_range_keys(sent_store, start, end);
    let mut newly: Vec<u64> = Vec::new();
    let mut i: usize = 0;
    while i < keys.len()
        invariant
            0 <= i <= keys.len(),
            forall|a: int, b: int| 0 <= a < b < keys.len() ==> keys[a] < keys[b],
            forall|x: u64| #[trigger] keys@.contains(x) <==> (sent_store@.contains_key(x) && start <= x <= end),
            released@ == old_released.union(keys@.take(i as int).to_set()),
            newly@.to_set() == keys@.take(i as int).to_set().difference(old_released),
            forall|a: int, b: int| 0 <= a < b < newly.len() ==> newly[a] < newly[b],
            forall|a: int| 0 <= a < newly.len() ==> keys@.take(i as int).contains(#[trigger] newly[a]),
        decreases keys.len() - i,
    {
        let seq = keys[i];
        let ghost prefix = keys@.take(i as int);
        assert(keys@.take(i as int + 1) =~= prefix.push(seq));
        proof {
            prefix.lemma_push_to_set_commute(seq);
        }
        assert(!prefix.contains(seq)) by {
            if prefix.contains(seq) {
                let j = choose|j: int| 0 <= j < prefix.len() && prefix[j] == seq;
                assert(keys[j] < keys[i as int]);
            }
        }
        if released.insert(seq) {
            let ghost old_newly = newly@;
            newly.push(seq);
            proof {
                old_newly.lemma_push_to_set_commute(seq);
                assert forall|a: int, b: int| 0 <= a < b < newly.len() implies newly[a] < newly[b] by {
                    if b == newly.len() - 1 {
                        assert(prefix.contains(old_newly[a]));
                        let j = choose|j: int| 0 <= j < prefix.len() && prefix[j] == old_newly[a];
                        assert(keys[j] < keys[i as int]);
                    }
                }
            }
            assert(newly@.to_set() =~= keys@.take(i as int + 1).to_set().difference(old_released));
        } else {
            assert(newly@.to_set() =~= keys@.take(i as int + 1).to_set().difference(old_released));
        }
        assert(released@ =~= old_released.union(keys@.take(i as int + 1).to_set()));
        assert forall|a: int| 0 <= a < newly.len() implies keys@.take(i as int + 1).contains(#[trigger] newly[a]) by {
            if a < newly.len() - 1 || !prefix.contains(newly[a]) {
                if prefix.contains(newly[a]) {
                    let j = choose|j: int| 0 <= j < prefix.len() && prefix[j] == newly[a];
                    assert(keys@.take(i as int + 1)[j] == newly[a]);
                } else {
                    assert(keys@.take(i as int + 1)[i as int] == newly[a]);
                }
            } else {
                let j = choose|j: int| 0 <= j < prefix.len() && prefix[j] == newly[a];
                assert(keys@.take(i as int + 1)[j] == newly[a]);
            }
        }
        i += 1;
    }
    assert(keys@.take(keys.len() as int) =~= keys@);
    assert(keys@.to_set() =~= window);
    newly
}

/// Drop released marks at or below the cumulative ack: those slots are freed.
pub fn sack_release_prune(released: &mut BTreeSet<u64>, ack: u64)
    requires
        ack < u64::MAX,
    ensures
        final(released)@ == old(released)@.filter(|s: u64| s > ack),
{
    let hi = btree_set_split_off(released, ack + 1);
    assert(hi@ =~= old(released)@.filter(|s: u64| s > ack));
    *released = hi;
}

/// Effective outstanding under the release law: retained minus released.
pub fn sack_release_outstanding(store_len: usize, released: usize) -> (r: usize)
    ensures
        r == (if store_len >= released { store_len - released } else { 0 }),
{
    store_len.saturating_sub(released)
}

/// The release marks only ever name retained seqs: marking a SACK range,
/// and pruning the store and the marks at the same cumulative ack, keep the
/// released set a subset of the store's keys.
pub proof fn released_stays_within_store(store_keys: Set<u64>, released: Set<u64>, start: u64, end: u64, ack: u64)
    requires
        released.subset_of(store_keys),
    ensures
        released.union(retained_in(store_keys, start, end)).subset_of(store_keys),
        released.filter(|s: u64| s > ack).subset_of(store_keys.filter(|s: u64| s > ack)),
{
}

/// Marking is idempotent: re-marking the same SACK range releases nothing
/// new and leaves the released set unchanged.
pub proof fn release_mark_idempotent(store_keys: Set<u64>, released: Set<u64>, start: u64, end: u64)
    ensures
        ({
            let once = released.union(retained_in(store_keys, start, end));
            &&& once.union(retained_in(store_keys, start, end)) == once
            &&& retained_in(store_keys, start, end).difference(once).is_empty()
        }),
{
    let once = released.union(retained_in(store_keys, start, end));
    assert(once.union(retained_in(store_keys, start, end)) =~= once);
    assert(retained_in(store_keys, start, end).difference(once) =~= Set::empty());
}

/// With the released set inside the store, the effective outstanding is
/// exactly the number of retained seqs not yet released.
pub proof fn outstanding_counts_unreleased(store_keys: Set<u64>, released: Set<u64>)
    requires
        store_keys.finite(),
        released.subset_of(store_keys),
    ensures
        store_keys.len() >= released.len(),
        store_keys.len() - released.len() == store_keys.difference(released).len(),
{
    vstd::set_lib::lemma_len_subset(released, store_keys);
    assert(released.finite()) by {
        vstd::set_lib::lemma_len_subset(released, store_keys);
    }
    vstd::set_lib::lemma_set_difference_len(store_keys, released);
    assert(store_keys.intersect(released) =~= released);
}

} // verus!
