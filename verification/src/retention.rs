//! The sender's retention store as one state machine over its two ack
//! events: SACK evidence releases slots from the flow-control count (the
//! payload stays), and the cumulative ack drains the store. The per-path
//! accounts and the loan ledger follow both events.

use crate::collections::btree_map_split_off;
use crate::ledger::{
    charged_in, map_count, above, at_or_below, counts_released, ledger_consistent, lenders, flyers, loans_consistent, path_count,
    percap_loan_release, percap_loan_release_cumulative, percap_release_cumulative, percap_release_seq,
    release_cumulative_keeps_ledger, release_seq_keeps_ledger, loan_release_keeps_gauges,
    loan_release_cumulative_keeps_gauges,
};
use crate::release::{retained_in, sack_release_mark, sack_release_prune};
use std::collections::{BTreeMap, BTreeSet, HashMap};
use vstd::prelude::*;

verus! {

broadcast use {vstd::std_specs::btree::group_btree_axioms, vstd::std_specs::hash::group_hash_axioms};

/// Which of the release laws run.
#[derive(Clone, Copy, Debug, PartialEq, Eq)]
pub struct ReleasePolicy {
    /// SACK-clocked release of store slots.
    pub sack_release: bool,
    /// Per-path outstanding accounts.
    pub percap_track: bool,
    /// The loan ledger of bounded borrowing.
    pub borrow: bool,
}

/// The retained payloads, the released marks, the per-path accounts and the
/// loan ledger of one sender.
pub struct RetentionStore<V> {
    pub sent_store: BTreeMap<u64, V>,
    pub released: BTreeSet<u64>,
    pub acct: BTreeMap<u64, u32>,
    pub out: HashMap<u32, usize>,
    pub loans: BTreeMap<u64, (u32, u32)>,
    pub lent: HashMap<u32, usize>,
    pub borrowed: HashMap<u32, usize>,
}

/// The retained seqs that some SACK range covers.
pub open spec fn sacked_retained(keys: Set<u64>, ranges: Seq<(u64, u64)>) -> Set<u64> {
    Set::new(|s: u64| keys.contains(s) && exists|i: int| 0 <= i < ranges.len() && #[trigger] ranges[i].0 <= s <= ranges[i].1)
}

/// The sequences laid end to end.
pub open spec fn concat_seqs(pieces: Seq<Seq<u64>>) -> Seq<u64>
    decreases pieces.len(),
{
    if pieces.len() == 0 { Seq::empty() } else { concat_seqs(pieces.drop_last()) + pieces.last() }
}

/// The seqs range `k` of a SACK batch newly releases: the retained seqs it
/// covers that neither an earlier range of the batch nor an earlier batch
/// released.
pub open spec fn released_by_range(keys: Set<u64>, released: Set<u64>, ranges: Seq<(u64, u64)>, k: int) -> Set<u64> {
    retained_in(keys, ranges[k].0, ranges[k].1).difference(released.union(sacked_retained(keys, ranges.take(k))))
}

/// `pieces` holds, for each range of the batch in order, the seqs it newly
/// releases, ascending.
pub open spec fn release_pieces(keys: Set<u64>, released: Set<u64>, ranges: Seq<(u64, u64)>, pieces: Seq<Seq<u64>>) -> bool {
    &&& pieces.len() == ranges.len()
    &&& forall|k: int|
        0 <= k < pieces.len() ==> (#[trigger] pieces[k]).to_set() == released_by_range(keys, released, ranges, k)
    &&& forall|k: int, a: int, b: int| 0 <= k < pieces.len() && 0 <= a < b < pieces[k].len() ==> (#[trigger] pieces[k][a])
        < #[trigger] pieces[k][b]
}

/// Taking the seqs `n` out of a consistent ledger lowers each counter by the
/// number of those seqs charged to it.
pub proof fn lemma_counts_after_remove(acct: Map<u64, u32>, out: Map<u32, usize>, out2: Map<u32, usize>, n: Set<u64>)
    requires
        ledger_consistent(acct, out),
        ledger_consistent(acct.remove_keys(n), out2),
        acct.dom().finite(),
    ensures
        forall|p: u32| #[trigger] map_count(out2, p) + charged_in(n.intersect(acct.dom()), acct, p) == map_count(out, p),
{
    let acct2 = acct.remove_keys(n);
    assert forall|p: u32| #[trigger] map_count(out2, p) + charged_in(n.intersect(acct.dom()), acct, p) == map_count(out, p) by {
        let all = acct.dom().filter(|s: u64| acct[s] == p);
        let kept = acct2.dom().filter(|s: u64| acct2[s] == p);
        let gone = n.intersect(acct.dom()).filter(|s: u64| acct[s] == p);
        assert(all =~= kept.union(gone));
        assert(kept.disjoint(gone));
        assert(kept.subset_of(acct.dom()));
        assert(gone.subset_of(acct.dom()));
        vstd::set_lib::lemma_len_subset(kept, acct.dom());
        vstd::set_lib::lemma_len_subset(gone, acct.dom());
        vstd::set_lib::lemma_set_disjoint_lens(kept, gone);
        assert(map_count(out, p) == path_count(acct, p));
        assert(map_count(out2, p) == path_count(acct2, p));
    }
}

impl<V> RetentionStore<V> {
    /// Released marks name retained seqs only, and both ledgers count
    /// exactly what they hold.
    pub open spec fn wf(&self) -> bool {
        &&& self.released@.subset_of(self.sent_store@.dom())
        &&& ledger_consistent(self.acct@, self.out@)
        &&& loans_consistent(self.loans@, self.lent@, self.borrowed@)
    }

    /// An empty store.
    pub fn new() -> (s: Self)
        ensures
            s.wf(),
            s.sent_store@.dom() == Set::<u64>::empty(),
            s.released@ == Set::<u64>::empty(),
            s.acct@.dom() == Set::<u64>::empty(),
            s.loans@.dom() == Set::<u64>::empty(),
    {
        let s = RetentionStore {
            sent_store: BTreeMap::new(),
            released: BTreeSet::new(),
            acct: BTreeMap::new(),
            out: HashMap::new(),
            loans: BTreeMap::new(),
            lent: HashMap::new(),
            borrowed: HashMap::new(),
        };
        proof {
            assert forall|p: u32| #[trigger] crate::ledger::map_count(s.out@, p) == path_count(s.acct@, p) by {
                assert(s.acct@.dom().filter(|x: u64| s.acct@[x] == p) =~= Set::<u64>::empty());
            }
            assert(lenders(s.loans@) =~= Map::<u64, u32>::empty());
            assert(flyers(s.loans@) =~= Map::<u64, u32>::empty());
            assert forall|p: u32| #[trigger] crate::ledger::map_count(s.lent@, p) == path_count(lenders(s.loans@), p) by {
                assert(lenders(s.loans@).dom().filter(|x: u64| lenders(s.loans@)[x] == p) =~= Set::<u64>::empty());
            }
            assert forall|p: u32| #[trigger] crate::ledger::map_count(s.borrowed@, p) == path_count(flyers(s.loans@), p) by {
                assert(flyers(s.loans@).dom().filter(|x: u64| flyers(s.loans@)[x] == p) =~= Set::<u64>::empty());
            }
        }
        s
    }

    /// Apply one batch of SACK ranges: with SACK release on, every retained
    /// seq a range covers is marked released and, once, leaves its per-path
    /// account and repays its loan; the payloads all stay. Returns the seqs
    /// newly released, each once. Ranges with `end < start` are skipped.
    pub fn on_sack_ranges(&mut self, ranges: &[(u64, u64)], pol: ReleasePolicy) -> (newly: Vec<u64>)
        requires
            old(self).wf(),
        ensures
            final(self).wf(),
            final(self).sent_store@ == old(self).sent_store@,
            newly@.no_duplicates(),
            newly@.to_set() == final(self).released@.difference(old(self).released@),
            final(self).released@ == (if pol.sack_release {
                old(self).released@.union(sacked_retained(old(self).sent_store@.dom(), ranges@))
            } else {
                old(self).released@
            }),
            final(self).acct@ == (if pol.percap_track {
                old(self).acct@.remove_keys(newly@.to_set())
            } else {
                old(self).acct@
            }),
            !pol.percap_track ==> final(self).out@ == old(self).out@,
            final(self).loans@ == (if pol.percap_track && pol.borrow {
                old(self).loans@.remove_keys(newly@.to_set())
            } else {
                old(self).loans@
            }),
            !(pol.percap_track && pol.borrow) ==> final(self).lent@ == old(self).lent@ && final(self).borrowed@
                == old(self).borrowed@,
            !pol.sack_release ==> newly@.len() == 0,
            pol.sack_release ==> exists|pieces: Seq<Seq<u64>>|
                #[trigger] release_pieces(old(self).sent_store@.dom(), old(self).released@, ranges@, pieces)
                    && newly@ == concat_seqs(pieces),
            pol.percap_track ==> forall|p: u32|
                #[trigger] map_count(final(self).out@, p) + charged_in(
                    newly@.to_set().intersect(old(self).acct@.dom()),
                    old(self).acct@,
                    p,
                ) == map_count(old(self).out@, p),
            pol.percap_track && pol.borrow ==> forall|p: u32|
                #[trigger] map_count(final(self).lent@, p) + charged_in(
                    newly@.to_set().intersect(old(self).loans@.dom()),
                    lenders(old(self).loans@),
                    p,
                ) == map_count(old(self).lent@, p),
            pol.percap_track && pol.borrow ==> forall|p: u32|
                #[trigger] map_count(final(self).borrowed@, p) + charged_in(
                    newly@.to_set().intersect(old(self).loans@.dom()),
                    flyers(old(self).loans@),
                    p,
                ) == map_count(old(self).borrowed@, p),
    {
        let ghost keys = self.sent_store@.dom();
        let ghost mut pieces: Seq<Seq<u64>> = Seq::empty();
        let ghost old_released = self.released@;
        let ghost old_acct = self.acct@;
        let ghost old_loans = self.loans@;
        let mut all: Vec<u64> = Vec::new();
        if !pol.sack_release {
            proof {
                assert(all@.to_set() =~= self.released@.difference(old_released));
                assert(old_acct.remove_keys(all@.to_set()) =~= old_acct);
                assert(old_loans.remove_keys(all@.to_set()) =~= old_loans);
                assert(all@.to_set() =~= Set::<u64>::empty());
                assert forall|p: u32| #[trigger] charged_in(Set::<u64>::empty().intersect(old_acct.dom()), old_acct, p) == 0 by {
                    assert(Set::<u64>::empty().intersect(old_acct.dom()).filter(|x: u64| old_acct[x] == p) =~= Set::<u64>::empty());
                }
                assert forall|p: u32| #[trigger] charged_in(Set::<u64>::empty().intersect(old_loans.dom()), lenders(old_loans), p) == 0 by {
                    assert(Set::<u64>::empty().intersect(old_loans.dom()).filter(|x: u64| lenders(old_loans)[x] == p) =~= Set::<u64>::empty());
                }
                assert forall|p: u32| #[trigger] charged_in(Set::<u64>::empty().intersect(old_loans.dom()), flyers(old_loans), p) == 0 by {
                    assert(Set::<u64>::empty().intersect(old_loans.dom()).filter(|x: u64| flyers(old_loans)[x] == p) =~= Set::<u64>::empty());
                }
            }
            return all;
        }
        let mut i: usize = 0;
        while i < ranges.len()
            invariant
                0 <= i <= ranges.len(),
                pol.sack_release,
                self.wf(),
                self.sent_store@.dom() == keys,
                self.sent_store@ == old(self).sent_store@,
                old_released.subset_of(keys),
                self.released@ == old_released.union(sacked_retained(keys, ranges@.take(i as int))),
                all@.no_duplicates(),
                all@.to_set() == self.released@.difference(old_released),
                self.acct@ == (if pol.percap_track { old_acct.remove_keys(all@.to_set()) } else { old_acct }),
                !pol.percap_track ==> self.out@ == old(self).out@,
                self.loans@ == (if pol.percap_track && pol.borrow { old_loans.remove_keys(all@.to_set()) } else { old_loans }),
                !(pol.percap_track && pol.borrow) ==> self.lent@ == old(self).lent@ && self.borrowed@ == old(self).borrowed@,
                pieces.len() == i,
                forall|k: int| 0 <= k < i ==> (#[trigger] pieces[k]).to_set() == released_by_range(keys, old_released, ranges@, k),
                forall|k: int, a: int, b: int| 0 <= k < i && 0 <= a < b < pieces[k].len() ==> (#[trigger] pieces[k][a])
                    < #[trigger] pieces[k][b],
                all@ == concat_seqs(pieces),
            decreases ranges.len() - i,
        {
            let (start, end) = ranges[i];
            let ghost pre = ranges@.take(i as int);
            let ghost cur = ranges@.take(i as int + 1);
            proof {
                assert(cur =~= pre.push((start, end)));
            }
            if end < start {
                proof {
                    assert(sacked_retained(keys, cur) =~= sacked_retained(keys, pre)) by {
                        assert forall|s: u64| #[trigger] sacked_retained(keys, cur).contains(s) implies sacked_retained(keys, pre).contains(s) by {
                            let j = choose|j: int| 0 <= j < cur.len() && #[trigger] cur[j].0 <= s <= cur[j].1;
                            assert(j < i);
                            assert(pre[j] == cur[j]);
                        }
                        assert forall|s: u64| #[trigger] sacked_retained(keys, pre).contains(s) implies sacked_retained(keys, cur).contains(s) by {
                            let j = choose|j: int| 0 <= j < pre.len() && #[trigger] pre[j].0 <= s <= pre[j].1;
                            assert(cur[j] == pre[j]);
                        }
                    }
                    let old_pieces = pieces;
                    pieces = pieces.push(Seq::empty());
                    assert(retained_in(keys, start, end) =~= Set::<u64>::empty());
                    assert(Seq::<u64>::empty().to_set() =~= Set::<u64>::empty());
                    assert(pieces.drop_last() =~= old_pieces);
                    assert(concat_seqs(pieces) =~= concat_seqs(old_pieces));
                    assert forall|t: int| 0 <= t < i + 1 implies (#[trigger] pieces[t]).to_set() == released_by_range(
                        keys,
                        old_released,
                        ranges@,
                        t,
                    ) by {
                        if t < i {
                            assert(pieces[t] == old_pieces[t]);
                        }
                    }
                }
                i += 1;
                continue;
            }
            let ghost released_before = self.released@;
            let newly = sack_release_mark(&self.sent_store, &mut self.released, start, end);
            proof {
                assert(sacked_retained(keys, cur) =~= sacked_retained(keys, pre).union(retained_in(keys, start, end))) by {
                    assert forall|s: u64| #[trigger] sacked_retained(keys, cur).contains(s) implies sacked_retained(keys, pre).union(retained_in(keys, start, end)).contains(s) by {
                        let j = choose|j: int| 0 <= j < cur.len() && #[trigger] cur[j].0 <= s <= cur[j].1;
                        if j < i {
                            assert(pre[j] == cur[j]);
                        }
                    }
                    assert forall|s: u64| #[trigger] sacked_retained(keys, pre).union(retained_in(keys, start, end)).contains(s) implies sacked_retained(keys, cur).contains(s) by {
                        if sacked_retained(keys, pre).contains(s) {
                            let j = choose|j: int| 0 <= j < pre.len() && #[trigger] pre[j].0 <= s <= pre[j].1;
                            assert(cur[j] == pre[j]);
                        } else {
                            assert(cur[i as int].0 <= s <= cur[i as int].1);
                        }
                    }
                }
                assert(self.released@ =~= old_released.union(sacked_retained(keys, cur)));
            }
            let mut j: usize = 0;
            while j < newly.len()
                invariant
                    0 <= j <= newly.len(),
                    pol.sack_release,
                    ledger_consistent(self.acct@, self.out@),
                    loans_consistent(self.loans@, self.lent@, self.borrowed@),
                    self.released@.subset_of(keys),
                    self.sent_store@ == old(self).sent_store@,
                    self.sent_store@.dom() == keys,
                    self.released@ == old_released.union(sacked_retained(keys, cur)),
                    newly@.to_set() == retained_in(keys, start, end).difference(released_before),
                    released_before == old_released.union(sacked_retained(keys, pre)),
                    all@.no_duplicates(),
                    all@.to_set() == released_before.difference(old_released).union(newly@.take(j as int).to_set()),
                    forall|a: int, b: int| 0 <= a < b < newly.len() ==> newly[a] < newly[b],
                    self.acct@ == (if pol.percap_track { old_acct.remove_keys(all@.to_set()) } else { old_acct }),
                    !pol.percap_track ==> self.out@ == old(self).out@,
                    self.loans@ == (if pol.percap_track && pol.borrow { old_loans.remove_keys(all@.to_set()) } else { old_loans }),
                    !(pol.percap_track && pol.borrow) ==> self.lent@ == old(self).lent@ && self.borrowed@ == old(self).borrowed@,
                    pieces.len() == i,
                    forall|k: int| 0 <= k < i ==> (#[trigger] pieces[k]).to_set() == released_by_range(keys, old_released, ranges@, k),
                    forall|k: int, a: int, b: int| 0 <= k < i && 0 <= a < b < pieces[k].len() ==> (#[trigger] pieces[k][a])
                        < #[trigger] pieces[k][b],
                    all@ == concat_seqs(pieces) + newly@.take(j as int),
                decreases newly.len() - j,
            {
                let k = newly[j];
                let ghost pre_all = all@;
                proof {
                    assert(newly@.take(j as int + 1) =~= newly@.take(j as int).push(k));
                    newly@.take(j as int).lemma_push_to_set_commute(k);
                    assert(newly@.to_set().contains(k));
                    assert(!pre_all.contains(k)) by {
                        if pre_all.contains(k) {
                            assert(pre_all.to_set().contains(k));
                            if released_before.difference(old_released).contains(k) {
                            } else {
                                let t = choose|t: int| 0 <= t < j && newly@.take(j as int)[t] == k;
                                assert(newly[t] < newly[j as int]);
                            }
                        }
                    }
                }
                if pol.percap_track {
                    proof {
                        release_seq_keeps_ledger(self.acct@, self.out@, k);
                    }
                    percap_release_seq(&mut self.acct, &mut self.out, k);
                    if pol.borrow {
                        proof {
                            loan_release_keeps_gauges(self.loans@, self.lent@, self.borrowed@, k);
                        }
                        percap_loan_release(&mut self.loans, &mut self.lent, &mut self.borrowed, k);
                    }
                }
                all.push(k);
                proof {
                    assert(all@ =~= concat_seqs(pieces) + newly@.take(j as int + 1));
                    pre_all.lemma_push_to_set_commute(k);
                    assert(all@.to_set() =~= released_before.difference(old_released).union(newly@.take(j as int + 1).to_set()));
                    if pol.percap_track {
                        assert(self.acct@ =~= old_acct.remove_keys(all@.to_set()));
                        if pol.borrow {
                            assert(self.loans@ =~= old_loans.remove_keys(all@.to_set()));
                        }
                    }
                }
                j += 1;
            }
            proof {
                assert(newly@.take(newly.len() as int) =~= newly@);
                assert(all@.to_set() =~= self.released@.difference(old_released));
                let old_pieces = pieces;
                pieces = pieces.push(newly@);
                assert(pieces.drop_last() =~= old_pieces);
                assert(concat_seqs(pieces) =~= concat_seqs(old_pieces) + newly@);
                assert(released_by_range(keys, old_released, ranges@, i as int) =~= newly@.to_set());
                assert forall|t: int| 0 <= t < i + 1 implies (#[trigger] pieces[t]).to_set() == released_by_range(
                    keys,
                    old_released,
                    ranges@,
                    t,
                ) by {
                    if t < i {
                        assert(pieces[t] == old_pieces[t]);
                    }
                }
                assert forall|t: int, a: int, b: int| 0 <= t < i + 1 && 0 <= a < b < pieces[t].len() implies (#[trigger] pieces[t][a])
                    < #[trigger] pieces[t][b] by {
                    if t < i {
                        assert(pieces[t] == old_pieces[t]);
                    }
                }
            }
            i += 1;
        }
        proof {
            assert(ranges@.take(ranges.len() as int) =~= ranges@);
            assert(release_pieces(keys, old_released, ranges@, pieces));
            if pol.percap_track {
                lemma_counts_after_remove(old_acct, old(self).out@, self.out@, all@.to_set());
                if pol.borrow {
                    assert(lenders(old_loans.remove_keys(all@.to_set())) =~= lenders(old_loans).remove_keys(all@.to_set()));
                    assert(flyers(old_loans.remove_keys(all@.to_set())) =~= flyers(old_loans).remove_keys(all@.to_set()));
                    assert(lenders(old_loans).dom() =~= old_loans.dom());
                    assert(flyers(old_loans).dom() =~= old_loans.dom());
                    lemma_counts_after_remove(lenders(old_loans), old(self).lent@, self.lent@, all@.to_set());
                    lemma_counts_after_remove(flyers(old_loans), old(self).borrowed@, self.borrowed@, all@.to_set());
                }
            }
        }
        all
    }

    /// Apply a cumulative ack: the store drains every seq at or below it, the
    /// released marks there are freed with it, and (as the policy says) the
    /// accounts release and the loans repay every seq at or below it. Every
    /// seq above the ack stays retained.
    pub fn on_cumulative_ack(&mut self, ack: u64, pol: ReleasePolicy)
        requires
            old(self).wf(),
            ack < u64::MAX,
        ensures
            final(self).wf(),
            final(self).sent_store@ == old(self).sent_store@.restrict(above(ack)),
            final(self).released@ == old(self).released@.filter(|s: u64| s > ack),
            final(self).acct@ == (if pol.percap_track {
                old(self).acct@.restrict(above(ack))
            } else {
                old(self).acct@
            }),
            final(self).out@ == (if pol.percap_track {
                counts_released(old(self).out@, |p: u32| path_count(old(self).acct@.restrict(at_or_below(ack)), p))
            } else {
                old(self).out@
            }),
            final(self).loans@ == (if pol.percap_track && pol.borrow {
                old(self).loans@.restrict(above(ack))
            } else {
                old(self).loans@
            }),
            final(self).lent@ == (if pol.percap_track && pol.borrow {
                counts_released(
                    old(self).lent@,
                    |p: u32| path_count(lenders(old(self).loans@.restrict(at_or_below(ack))), p),
                )
            } else {
                old(self).lent@
            }),
            final(self).borrowed@ == (if pol.percap_track && pol.borrow {
                counts_released(
                    old(self).borrowed@,
                    |p: u32| path_count(flyers(old(self).loans@.restrict(at_or_below(ack))), p),
                )
            } else {
                old(self).borrowed@
            }),
    {
        let kept = btree_map_split_off(&mut self.sent_store, ack + 1);
        self.sent_store = kept;
        proof {
            assert(self.sent_store@ =~= old(self).sent_store@.restrict(above(ack)));
        }
        if !self.released.is_empty() {
            sack_release_prune(&mut self.released, ack);
        } else {
            assert(self.released@ =~= old(self).released@.filter(|s: u64| s > ack));
        }
        if pol.percap_track {
            proof {
                release_cumulative_keeps_ledger(self.acct@, self.out@, ack);
            }
            percap_release_cumulative(&mut self.acct, &mut self.out, ack);
            if pol.borrow {
                proof {
                    loan_release_cumulative_keeps_gauges(self.loans@, self.lent@, self.borrowed@, ack);
                }
                percap_loan_release_cumulative(&mut self.loans, &mut self.lent, &mut self.borrowed, ack);
            }
        }
    }
}

} // verus!
