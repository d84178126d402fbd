//! Per-path outstanding accounts of the retention store and the loan ledger
//! of bounded borrowing: charge on retention, release by ack only (SACK or
//! cumulative), idempotently.

use crate::collections::btree_map_split_off;
use std::collections::{BTreeMap, HashMap};
use vstd::prelude::*;
use vstd::std_specs::btree::spec_keys_iter;
use vstd::std_specs::iter::IteratorSpec;

verus! {

broadcast use {vstd::std_specs::btree::group_btree_axioms, vstd::std_specs::hash::group_hash_axioms};

/// The count a per-path counter map holds for `p` (absent reads as zero).
pub open spec fn map_count(m: Map<u32, usize>, p: u32) -> nat {
    if m.contains_key(p) { m[p] as nat } else { 0 }
}

/// `a - b` saturated at zero.
pub open spec fn sat_sub_nat(a: nat, b: nat) -> nat {
    if a >= b { (a - b) as nat } else { 0 }
}

/// Seqs at or below the cumulative ack.
pub open spec fn at_or_below(ack: u64) -> Set<u64> {
    Set::new(|s: u64| s <= ack)
}

/// Seqs strictly above the cumulative ack.
pub open spec fn above(ack: u64) -> Set<u64> {
    Set::new(|s: u64| s > ack)
}

/// Every counter, decremented (saturating) by `dec(p)`.
pub open spec fn counts_released(m: Map<u32, usize>, dec: spec_fn(u32) -> nat) -> Map<u32, usize> {
    Map::new(|p: u32| m.contains_key(p), |p: u32| sat_sub_nat(m[p] as nat, dec(p)) as usize)
}

/// Increment the counter of `p`, inserting it at one when absent.
fn count_inc(out: &mut HashMap<u32, usize>, p: u32)
    requires
        map_count(old(out)@, p) < usize::MAX,
    ensures
        final(out)@ == old(out)@.insert(p, (map_count(old(out)@, p) + 1) as usize),
{
    let cur: usize = match out.get(&p) {
        Some(v) => *v,
        None => 0,
    };
    out.insert(p, cur + 1);
}

/// Decrement the counter of `p` (saturating); an absent counter stays absent.
fn count_dec(out: &mut HashMap<u32, usize>, p: u32)
    ensures
        old(out)@.contains_key(p) ==> final(out)@ == old(out)@.insert(p, sat_sub_nat(old(out)@[p] as nat, 1) as usize),
        !old(out)@.contains_key(p) ==> final(out)@ == old(out)@,
{
    match out.get(&p) {
        Some(v) => {
            let nv = v.saturating_sub(1);
            out.insert(p, nv);
        },
        None => {},
    }
}

/// The number of seqs of `keys` that account map `acct` charges to `p`.
pub open spec fn charged_in(keys: Set<u64>, acct: Map<u64, u32>, p: u32) -> nat {
    keys.filter(|s: u64| acct[s] == p).len()
}

/// The number of seqs that `acct` charges to path `p`.
pub open spec fn path_count(acct: Map<u64, u32>, p: u32) -> nat {
    charged_in(acct.dom(), acct, p)
}

proof fn lemma_filter_insert_len(keys: Set<u64>, k: u64, pred: spec_fn(u64) -> bool)
    requires
        keys.finite(),
        !keys.contains(k),
    ensures
        keys.insert(k).filter(pred).len() == keys.filter(pred).len() + (if pred(k) { 1int } else { 0int }),
{
    if pred(k) {
        assert(keys.insert(k).filter(pred) =~= keys.filter(pred).insert(k));
    } else {
        assert(keys.insert(k).filter(pred) =~= keys.filter(pred));
    }
}

/// Charge one retained seq to its placement path's outstanding account.
/// A seq already charged is re-pointed at `path` without counting twice.
pub fn percap_charge(acct: &mut BTreeMap<u64, u32>, out: &mut HashMap<u32, usize>, seq: u64, path: u32)
    requires
        !old(acct)@.contains_key(seq) ==> map_count(old(out)@, path) < usize::MAX,
    ensures
        final(acct)@ == old(acct)@.insert(seq, path),
        old(acct)@.contains_key(seq) ==> final(out)@ == old(out)@,
        !old(acct)@.contains_key(seq) ==> final(out)@ == old(out)@.insert(path, (map_count(old(out)@, path) + 1) as usize),
{
    if acct.insert(seq, path).is_none() {
        count_inc(out, path);
    }
}

/// Release one seq from its account on out-of-order (SACK) removal.
/// Idempotent: a seq not in the account map releases nothing.
pub fn percap_release_seq(acct: &mut BTreeMap<u64, u32>, out: &mut HashMap<u32, usize>, seq: u64)
    ensures
        final(acct)@ == old(acct)@.remove(seq),
        old(acct)@.contains_key(seq) && old(out)@.contains_key(old(acct)@[seq]) ==> final(out)@ == old(out)@.insert(
            old(acct)@[seq],
            sat_sub_nat(old(out)@[old(acct)@[seq]] as nat, 1) as usize,
        ),
        !(old(acct)@.contains_key(seq) && old(out)@.contains_key(old(acct)@[seq])) ==> final(out)@ == old(out)@,
{
    match acct.remove(&seq) {
        Some(pid) => count_dec(out, pid),
        None => {},
    }
}

/// Release every account entry at or below the cumulative ack.
pub fn percap_release_cumulative(acct: &mut BTreeMap<u64, u32>, out: &mut HashMap<u32, usize>, ack: u64)
    requires
        ack < u64::MAX,
    ensures
        final(acct)@ == old(acct)@.restrict(above(ack)),
        final(out)@ == counts_released(
            old(out)@,
            |p: u32| path_count(old(acct)@.restrict(at_or_below(ack)), p),
        ),
{
    let ghost old_out = out@;
    let ghost old_acct = acct@;
    let keep = btree_map_split_off(acct, ack + 1);
    let ghost low = acct@;
    assert(low =~= old_acct.restrict(at_or_below(ack)));
    assert(keep@ =~= old_acct.restrict(above(ack)));
    let ghost ks = IteratorSpec::remaining(&spec_keys_iter(acct)).unref();
    proof {
        assert(ks.take(0).to_set() =~= Set::<u64>::empty());
        assert forall|p: u32| #[trigger] charged_in(Set::<u64>::empty(), low, p) == 0 by {
            assert(Set::<u64>::empty().filter(|s: u64| low[s] == p) =~= Set::<u64>::empty());
        }
        assert(out@ =~= counts_released(old_out, |p: u32| charged_in(ks.take(0).to_set(), low, p)));
    }
    for k in it: acct.keys()
        invariant
            IteratorSpec::remaining(&spec_keys_iter(acct)).unref() == ks,
            it.seq().unref() == ks,
            ks.no_duplicates(),
            ks.to_set() == low.dom(),
            acct@ == low,
            out@ == counts_released(old_out, |p: u32| charged_in(ks.take(it.index() as int).to_set(), low, p)),
    {
        let ghost i = it.index() as int;
        let ghost done = ks.take(i).to_set();
        assert(ks[i] == *k);
        assert(low.dom().contains(*k)) by {
            assert(ks.to_set().contains(ks[i]));
        }
        let pid = *acct.get(k).unwrap();
        count_dec(out, pid);
        proof {
            assert(ks.take(i + 1) =~= ks.take(i).push(*k));
            ks.take(i).lemma_push_to_set_commute(*k);
            assert(!done.contains(*k)) by {
                if done.contains(*k) {
                    let j = choose|j: int| 0 <= j < ks.take(i).len() && ks.take(i)[j] == *k;
                    assert(ks[j] == ks[i]);
                }
            }
            assert(done.finite()) by {
                ks.take(i).lemma_cardinality_of_set();
            }
            assert forall|p: u32| #[trigger] charged_in(done.insert(*k), low, p) == charged_in(done, low, p) + (if low[*k] == p { 1int } else { 0int }) by {
                lemma_filter_insert_len(done, *k, |s: u64| low[s] == p);
            }
            let f = |p: u32| charged_in(ks.take(i + 1).to_set(), low, p);
            assert(out@ =~= counts_released(old_out, f));
        }
    }
    proof {
        assert(ks.take(ks.len() as int) =~= ks);
        let f = |p: u32| charged_in(ks.take(ks.len() as int).to_set(), low, p);
        let g = |p: u32| path_count(old_acct.restrict(at_or_below(ack)), p);
        assert(counts_released(old_out, f) =~= counts_released(old_out, g));
    }
    *acct = keep;
}

} // verus!

verus! {

/// Every path's counter equals the number of seqs charged to it.
pub open spec fn ledger_consistent(acct: Map<u64, u32>, out: Map<u32, usize>) -> bool {
    forall|p: u32| #[trigger] map_count(out, p) == path_count(acct, p)
}

/// Charging a new seq (or re-charging a seq to the path it is already on)
/// keeps every per-path counter equal to the number of seqs charged to it.
pub proof fn charge_keeps_ledger(acct: Map<u64, u32>, out: Map<u32, usize>, seq: u64, path: u32)
    requires
        ledger_consistent(acct, out),
        acct.dom().finite(),
        !acct.contains_key(seq) || acct[seq] == path,
        map_count(out, path) < usize::MAX,
    ensures
        ledger_consistent(
            acct.insert(seq, path),
            if acct.contains_key(seq) { out } else { out.insert(path, (map_count(out, path) + 1) as usize) },
        ),
{
    let acct2 = acct.insert(seq, path);
    if acct.contains_key(seq) {
        assert(acct2 =~= acct);
    } else {
        let out2 = out.insert(path, (map_count(out, path) + 1) as usize);
        assert(acct2.dom() =~= acct.dom().insert(seq));
        assert forall|p: u32| #[trigger] map_count(out2, p) == path_count(acct2, p) by {
            let f2 = |s: u64| acct2[s] == p;
            lemma_filter_insert_len(acct.dom(), seq, f2);
            assert(acct.dom().filter(f2) =~= acct.dom().filter(|s: u64| acct[s] == p));
            assert(path_count(acct2, p) == acct.dom().insert(seq).filter(f2).len());
            assert(map_count(out, p) == path_count(acct, p));
        }
    }
}

/// Releasing one seq by SACK keeps the ledger consistent, whether or not
/// the seq is still charged; a charged seq's counter is at least one, so
/// its release decrements it exactly.
pub proof fn release_seq_keeps_ledger(acct: Map<u64, u32>, out: Map<u32, usize>, seq: u64)
    requires
        ledger_consistent(acct, out),
        acct.dom().finite(),
    ensures
        acct.contains_key(seq) ==> out.contains_key(acct[seq]) && out[acct[seq]] >= 1,
        ledger_consistent(
            acct.remove(seq),
            if acct.contains_key(seq) && out.contains_key(acct[seq]) {
                out.insert(acct[seq], sat_sub_nat(out[acct[seq]] as nat, 1) as usize)
            } else {
                out
            },
        ),
{
    let acct2 = acct.remove(seq);
    if acct.contains_key(seq) {
        let q = acct[seq];
        let rest = acct.dom().remove(seq);
        assert(acct.dom() =~= rest.insert(seq));
        assert(acct2.dom() =~= rest);
        assert forall|p: u32| #[trigger] path_count(acct2, p) + (if q == p { 1int } else { 0int }) == path_count(acct, p) by {
            let f = |s: u64| acct[s] == p;
            lemma_filter_insert_len(rest, seq, f);
            assert(rest.filter(f) =~= rest.filter(|s: u64| acct2[s] == p));
            assert(path_count(acct, p) == rest.insert(seq).filter(f).len());
        }
        assert(path_count(acct2, q) + 1 == path_count(acct, q));
        assert(map_count(out, q) == path_count(acct, q));
        assert(out.contains_key(q));
        let out2 = out.insert(q, sat_sub_nat(out[q] as nat, 1) as usize);
        assert forall|p: u32| #[trigger] map_count(out2, p) == path_count(acct2, p) by {
            assert(map_count(out, p) == path_count(acct, p));
        }
    } else {
        assert(acct2 =~= acct);
    }
}

/// Releasing every seq at or below the cumulative ack keeps the ledger
/// consistent: each counter drops by exactly the seqs it had charged there.
pub proof fn release_cumulative_keeps_ledger(acct: Map<u64, u32>, out: Map<u32, usize>, ack: u64)
    requires
        ledger_consistent(acct, out),
        acct.dom().finite(),
    ensures
        ledger_consistent(
            acct.restrict(above(ack)),
            counts_released(out, |p: u32| path_count(acct.restrict(at_or_below(ack)), p)),
        ),
{
    let hi = acct.restrict(above(ack));
    let lo = acct.restrict(at_or_below(ack));
    let out2 = counts_released(out, |p: u32| path_count(lo, p));
    assert forall|p: u32| #[trigger] map_count(out2, p) == path_count(hi, p) by {
        let all = acct.dom().filter(|s: u64| acct[s] == p);
        let a = hi.dom().filter(|s: u64| hi[s] == p);
        let b = lo.dom().filter(|s: u64| lo[s] == p);
        assert(all =~= a.union(b));
        assert(a.disjoint(b));
        assert(a.finite() && b.finite()) by {
            assert(a.subset_of(acct.dom()));
            assert(b.subset_of(acct.dom()));
            vstd::set_lib::lemma_len_subset(a, acct.dom());
            vstd::set_lib::lemma_len_subset(b, acct.dom());
        }
        vstd::set_lib::lemma_set_disjoint_lens(a, b);
        assert(map_count(out, p) == path_count(acct, p));
    }
}

} // verus!

verus! {

/// Loan ledger projected to lenders: seq -> the path whose account it is charged to.
pub open spec fn lenders(loans: Map<u64, (u32, u32)>) -> Map<u64, u32> {
    Map::new(|s: u64| loans.contains_key(s), |s: u64| loans[s].0)
}

/// Loan ledger projected to flyers: seq -> the path whose pipe it flies on.
pub open spec fn flyers(loans: Map<u64, (u32, u32)>) -> Map<u64, u32> {
    Map::new(|s: u64| loans.contains_key(s), |s: u64| loans[s].1)
}

/// Record one loan: `seq` flies on `flyer` and is charged to `lender`.
/// A seq already on loan is re-recorded without moving the gauges.
pub fn percap_loan_charge(
    loans: &mut BTreeMap<u64, (u32, u32)>,
    lent: &mut HashMap<u32, usize>,
    borrowed: &mut HashMap<u32, usize>,
    seq: u64,
    lender: u32,
    flyer: u32,
)
    requires
        !old(loans)@.contains_key(seq) ==> map_count(old(lent)@, lender) < usize::MAX
            && map_count(old(borrowed)@, flyer) < usize::MAX,
    ensures
        final(loans)@ == old(loans)@.insert(seq, (lender, flyer)),
        old(loans)@.contains_key(seq) ==> final(lent)@ == old(lent)@ && final(borrowed)@ == old(borrowed)@,
        !old(loans)@.contains_key(seq) ==> final(lent)@ == old(lent)@.insert(lender, (map_count(old(lent)@, lender) + 1) as usize)
            && final(borrowed)@ == old(borrowed)@.insert(flyer, (map_count(old(borrowed)@, flyer) + 1) as usize),
{
    if loans.insert(seq, (lender, flyer)).is_none() {
        count_inc(lent, lender);
        count_inc(borrowed, flyer);
    }
}

/// Repay one loan on the ack that releases `seq`; idempotent.
pub fn percap_loan_release(
    loans: &mut BTreeMap<u64, (u32, u32)>,
    lent: &mut HashMap<u32, usize>,
    borrowed: &mut HashMap<u32, usize>,
    seq: u64,
)
    ensures
        final(loans)@ == old(loans)@.remove(seq),
        old(loans)@.contains_key(seq) && old(lent)@.contains_key(old(loans)@[seq].0) ==> final(lent)@ == old(lent)@.insert(
            old(loans)@[seq].0,
            sat_sub_nat(old(lent)@[old(loans)@[seq].0] as nat, 1) as usize,
        ),
        !(old(loans)@.contains_key(seq) && old(lent)@.contains_key(old(loans)@[seq].0)) ==> final(lent)@ == old(lent)@,
        old(loans)@.contains_key(seq) && old(borrowed)@.contains_key(old(loans)@[seq].1) ==> final(borrowed)@ == old(borrowed)@.insert(
            old(loans)@[seq].1,
            sat_sub_nat(old(borrowed)@[old(loans)@[seq].1] as nat, 1) as usize,
        ),
        !(old(loans)@.contains_key(seq) && old(borrowed)@.contains_key(old(loans)@[seq].1)) ==> final(borrowed)@ == old(borrowed)@,
{
    match loans.remove(&seq) {
        Some((lender, flyer)) => {
            count_dec(lent, lender);
            count_dec(borrowed, flyer);
        },
        None => {},
    }
}

/// Repay every loan at or below the cumulative ack.
pub fn percap_loan_release_cumulative(
    loans: &mut BTreeMap<u64, (u32, u32)>,
    lent: &mut HashMap<u32, usize>,
    borrowed: &mut HashMap<u32, usize>,
    ack: u64,
)
    requires
        ack < u64::MAX,
    ensures
        final(loans)@ == old(loans)@.restrict(above(ack)),
        final(lent)@ == counts_released(
            old(lent)@,
            |p: u32| path_count(lenders(old(loans)@.restrict(at_or_below(ack))), p),
        ),
        final(borrowed)@ == counts_released(
            old(borrowed)@,
            |p: u32| path_count(flyers(old(loans)@.restrict(at_or_below(ack))), p),
        ),
{
    let ghost old_lent = lent@;
    let ghost old_borrowed = borrowed@;
    let ghost old_loans = loans@;
    let keep = btree_map_split_off(loans, ack + 1);
    let ghost low = loans@;
    let ghost low_l = lenders(low);
    let ghost low_f = flyers(low);
    assert(low =~= old_loans.restrict(at_or_below(ack)));
    assert(keep@ =~= old_loans.restrict(above(ack)));
    let ghost ks = IteratorSpec::remaining(&spec_keys_iter(loans)).unref();
    proof {
        assert(ks.take(0).to_set() =~= Set::<u64>::empty());
        assert forall|p: u32| #[trigger] charged_in(Set::<u64>::empty(), low_l, p) == 0 by {
            assert(Set::<u64>::empty().filter(|s: u64| low_l[s] == p) =~= Set::<u64>::empty());
        }
        assert forall|p: u32| #[trigger] charged_in(Set::<u64>::empty(), low_f, p) == 0 by {
            assert(Set::<u64>::empty().filter(|s: u64| low_f[s] == p) =~= Set::<u64>::empty());
        }
        assert(lent@ =~= counts_released(old_lent, |p: u32| charged_in(ks.take(0).to_set(), low_l, p)));
        assert(borrowed@ =~= counts_released(old_borrowed, |p: u32| charged_in(ks.take(0).to_set(), low_f, p)));
    }
    for k in it: loans.keys()
        invariant
            IteratorSpec::remaining(&spec_keys_iter(loans)).unref() == ks,
            it.seq().unref() == ks,
            ks.no_duplicates(),
            ks.to_set() == low.dom(),
            loans@ == low,
            low_l == lenders(low),
            low_f == flyers(low),
            lent@ == counts_released(old_lent, |p: u32| charged_in(ks.take(it.index() as int).to_set(), low_l, p)),
            borrowed@ == counts_released(old_borrowed, |p: u32| charged_in(ks.take(it.index() as int).to_set(), low_f, p)),
    {
        let ghost i = it.index() as int;
        let ghost done = ks.take(i).to_set();
        assert(ks[i] == *k);
        assert(low.dom().contains(*k)) by {
            assert(ks.to_set().contains(ks[i]));
        }
        let (lender, flyer) = *loans.get(k).unwrap();
        count_dec(lent, lender);
        count_dec(borrowed, flyer);
        proof {
            assert(ks.take(i + 1) =~= ks.take(i).push(*k));
            ks.take(i).lemma_push_to_set_commute(*k);
            assert(!done.contains(*k)) by {
                if done.contains(*k) {
                    let j = choose|j: int| 0 <= j < ks.take(i).len() && ks.take(i)[j] == *k;
                    assert(ks[j] == ks[i]);
                }
            }
            assert(done.finite()) by {
                ks.take(i).lemma_cardinality_of_set();
            }
            assert(low_l[*k] == lender && low_f[*k] == flyer);
            assert forall|p: u32| #[trigger] charged_in(done.insert(*k), low_l, p) == charged_in(done, low_l, p) + (if low_l[*k] == p { 1int } else { 0int }) by {
                lemma_filter_insert_len(done, *k, |s: u64| low_l[s] == p);
            }
            assert forall|p: u32| #[trigger] charged_in(done.insert(*k), low_f, p) == charged_in(done, low_f, p) + (if low_f[*k] == p { 1int } else { 0int }) by {
                lemma_filter_insert_len(done, *k, |s: u64| low_f[s] == p);
            }
            assert(lent@ =~= counts_released(old_lent, |p: u32| charged_in(ks.take(i + 1).to_set(), low_l, p)));
            assert(borrowed@ =~= counts_released(old_borrowed, |p: u32| charged_in(ks.take(i + 1).to_set(), low_f, p)));
        }
    }
    proof {
        assert(ks.take(ks.len() as int) =~= ks);
        assert(low_l.dom() =~= low.dom());
        assert(low_f.dom() =~= low.dom());
        assert(counts_released(old_lent, |p: u32| charged_in(ks.take(ks.len() as int).to_set(), low_l, p))
            =~= counts_released(old_lent, |p: u32| path_count(lenders(old_loans.restrict(at_or_below(ack))), p)));
        assert(counts_released(old_borrowed, |p: u32| charged_in(ks.take(ks.len() as int).to_set(), low_f, p))
            =~= counts_released(old_borrowed, |p: u32| path_count(flyers(old_loans.restrict(at_or_below(ack))), p)));
    }
    *loans = keep;
}

/// Both loan gauges count exactly the outstanding loans.
pub open spec fn loans_consistent(loans: Map<u64, (u32, u32)>, lent: Map<u32, usize>, borrowed: Map<u32, usize>) -> bool {
    ledger_consistent(lenders(loans), lent) && ledger_consistent(flyers(loans), borrowed)
}

/// Recording a new loan keeps both gauges equal to the outstanding loans.
pub proof fn loan_charge_keeps_gauges(
    loans: Map<u64, (u32, u32)>,
    lent: Map<u32, usize>,
    borrowed: Map<u32, usize>,
    seq: u64,
    lender: u32,
    flyer: u32,
)
    requires
        loans_consistent(loans, lent, borrowed),
        loans.dom().finite(),
        !loans.contains_key(seq) || loans[seq] == (lender, flyer),
        map_count(lent, lender) < usize::MAX,
        map_count(borrowed, flyer) < usize::MAX,
    ensures
        loans_consistent(
            loans.insert(seq, (lender, flyer)),
            if loans.contains_key(seq) { lent } else { lent.insert(lender, (map_count(lent, lender) + 1) as usize) },
            if loans.contains_key(seq) { borrowed } else { borrowed.insert(flyer, (map_count(borrowed, flyer) + 1) as usize) },
        ),
{
    let l2 = loans.insert(seq, (lender, flyer));
    assert(lenders(l2) =~= lenders(loans).insert(seq, lender));
    assert(flyers(l2) =~= flyers(loans).insert(seq, flyer));
    assert(lenders(loans).dom() =~= loans.dom());
    assert(flyers(loans).dom() =~= loans.dom());
    charge_keeps_ledger(lenders(loans), lent, seq, lender);
    charge_keeps_ledger(flyers(loans), borrowed, seq, flyer);
}

/// Repaying one loan keeps both gauges equal to the outstanding loans, and
/// decrements each of its gauges exactly.
pub proof fn loan_release_keeps_gauges(loans: Map<u64, (u32, u32)>, lent: Map<u32, usize>, borrowed: Map<u32, usize>, seq: u64)
    requires
        loans_consistent(loans, lent, borrowed),
        loans.dom().finite(),
    ensures
        loans.contains_key(seq) ==> lent.contains_key(loans[seq].0) && lent[loans[seq].0] >= 1
            && borrowed.contains_key(loans[seq].1) && borrowed[loans[seq].1] >= 1,
        loans_consistent(
            loans.remove(seq),
            if loans.contains_key(seq) && lent.contains_key(loans[seq].0) {
                lent.insert(loans[seq].0, sat_sub_nat(lent[loans[seq].0] as nat, 1) as usize)
            } else {
                lent
            },
            if loans.contains_key(seq) && borrowed.contains_key(loans[seq].1) {
                borrowed.insert(loans[seq].1, sat_sub_nat(borrowed[loans[seq].1] as nat, 1) as usize)
            } else {
                borrowed
            },
        ),
{
    let l2 = loans.remove(seq);
    assert(lenders(l2) =~= lenders(loans).remove(seq));
    assert(flyers(l2) =~= flyers(loans).remove(seq));
    assert(lenders(loans).dom() =~= loans.dom());
    assert(flyers(loans).dom() =~= loans.dom());
    release_seq_keeps_ledger(lenders(loans), lent, seq);
    release_seq_keeps_ledger(flyers(loans), borrowed, seq);
}

/// Repaying every loan at or below the cumulative ack keeps both gauges
/// equal to the outstanding loans.
pub proof fn loan_release_cumulative_keeps_gauges(
    loans: Map<u64, (u32, u32)>,
    lent: Map<u32, usize>,
    borrowed: Map<u32, usize>,
    ack: u64,
)
    requires
        loans_consistent(loans, lent, borrowed),
        loans.dom().finite(),
    ensures
        loans_consistent(
            loans.restrict(above(ack)),
            counts_released(lent, |p: u32| path_count(lenders(loans.restrict(at_or_below(ack))), p)),
            counts_released(borrowed, |p: u32| path_count(flyers(loans.restrict(at_or_below(ack))), p)),
        ),
{
    assert(lenders(loans).dom() =~= loans.dom());
    assert(flyers(loans).dom() =~= loans.dom());
    release_cumulative_keeps_ledger(lenders(loans), lent, ack);
    release_cumulative_keeps_ledger(flyers(loans), borrowed, ack);
    assert(lenders(loans.restrict(above(ack))) =~= lenders(loans).restrict(above(ack)));
    assert(flyers(loans.restrict(above(ack))) =~= flyers(loans).restrict(above(ack)));
    assert(lenders(loans.restrict(at_or_below(ack))) =~= lenders(loans).restrict(at_or_below(ack)));
    assert(flyers(loans.restrict(at_or_below(ack))) =~= flyers(loans).restrict(at_or_below(ack)));
}

} // verus!
