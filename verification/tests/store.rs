use raptorpath::ledger::{
    percap_charge, percap_loan_charge, percap_loan_release, percap_loan_release_cumulative, percap_release_cumulative,
    percap_release_seq,
};
use raptorpath::placement::{
    best_lender, infl_percap_full, percap_place_path, percap_store_full, percap_store_full_guarded, window_source_paths,
};
use raptorpath::release::{sack_release_mark, sack_release_outstanding, sack_release_prune};
use std::collections::{BTreeMap, BTreeSet, HashMap};

const MAX_WINDOW_SIZE: usize = 200;

/// A sent symbol as the store keeps it.
#[derive(Clone, Debug)]
struct WireSymbol {
    block_id: u64,
    is_repair: bool,
    data: Vec<u8>,
}

/// The coding window's span `[oldest, next)`: sources enter at `next`, the
/// cap eviction slides `oldest`.
struct WindowSpan {
    oldest: u64,
    next: u64,
}

impl WindowSpan {
    fn new() -> Self {
        WindowSpan { oldest: 0, next: 0 }
    }
    fn add_source(&mut self, data: &[u8]) -> WireSymbol {
        let sym = WireSymbol { block_id: self.next, is_repair: false, data: data.to_vec() };
        self.next += 1;
        sym
    }
    fn window_size(&self) -> usize {
        (self.next - self.oldest) as usize
    }
    fn advance(&mut self, to: u64) {
        self.oldest = self.oldest.max(to);
    }
    fn holds(&self, seq: u64) -> bool {
        self.oldest <= seq && seq < self.next
    }
}

#[test]
fn percap_store_full_pauses_only_when_no_account_has_headroom() {
    assert!(!percap_store_full(&[(240, 240), (100, 1664)]));
    assert!(percap_store_full(&[(240, 240), (1664, 1664)]));
    assert!(percap_store_full(&[(300, 240), (1700, 1664)]));
    assert!(!percap_store_full(&[(0, 0)]));
    assert!(percap_store_full(&[(1, 0)]));
}

#[test]
fn percap_place_redirects_capfull_pick_to_headroom_path() {
    let accounts = [(0u32, 240usize, 240usize, 240usize), (1u32, 100usize, 1664usize, 1664usize)];
    assert_eq!(percap_place_path(0, &accounts), 1);
    assert_eq!(percap_place_path(1, &accounts), 1);
    assert_eq!(percap_place_path(0, &[(0, 240, 240, 240), (1, 1664, 1664, 1664)]), 0);
    assert_eq!(percap_place_path(2, &[(0, 200, 240, 240), (1, 100, 1664, 1664), (2, 50, 50, 50)]), 1);
}

#[test]
fn percap_place_keeps_an_unknown_pick_when_nothing_is_eligible() {
    assert_eq!(percap_place_path(9, &[]), 9);
    assert_eq!(percap_place_path(9, &[(0, 5, 10, 3)]), 9, "past its dwell bound: no redirect target");
    assert_eq!(percap_place_path(9, &[(0, 2, 10, 3)]), 0);
    assert_eq!(
        percap_place_path(9, &[(0, 5, 10, 10), (1, 5, 10, 10)]),
        1,
        "equal headroom: the later account wins, as a max-by scan keeps the last maximum"
    );
}

#[test]
fn percap_store_full_guarded_backpressures_instead_of_parking() {
    assert!(!percap_store_full_guarded(&[(100, 240, 93), (500, 1664, 800)]));
    assert!(!percap_store_full_guarded(&[(50, 240, 93), (1664, 1664, 800)]));
    assert!(percap_store_full_guarded(&[(120, 240, 93), (1664, 1664, 800)]));
    assert!(percap_store_full_guarded(&[(240, 240, 93), (1664, 1664, 800)]));
    assert_eq!(
        percap_store_full_guarded(&[(120, 240, 240), (1664, 1664, 1664)]),
        percap_store_full(&[(120, 240), (1664, 1664)])
    );
    assert_eq!(
        percap_store_full_guarded(&[(240, 240, 240), (1664, 1664, 1664)]),
        percap_store_full(&[(240, 240), (1664, 1664)])
    );
}

#[test]
fn borrow_loans_charge_lender_fly_on_borrower_and_repay_on_ack() {
    let mut acct: BTreeMap<u64, u32> = BTreeMap::new();
    let mut out: HashMap<u32, usize> = Default::default();
    let mut loans: BTreeMap<u64, (u32, u32)> = BTreeMap::new();
    let mut lent: HashMap<u32, usize> = Default::default();
    let mut borrowed: HashMap<u32, usize> = Default::default();
    for seq in [100u64, 101, 102] {
        percap_charge(&mut acct, &mut out, seq, 1);
        percap_loan_charge(&mut loans, &mut lent, &mut borrowed, seq, 1, 0);
    }
    assert_eq!(out.get(&1), Some(&3), "loans charge the LENDER's account");
    assert_eq!(out.get(&0), None, "the borrower's account is untouched");
    assert_eq!(lent.get(&1), Some(&3));
    assert_eq!(borrowed.get(&0), Some(&3));
    assert_eq!(0 + borrowed.get(&0).copied().unwrap_or(0), 3);
    assert_eq!(out.get(&1).copied().unwrap_or(0) - lent.get(&1).copied().unwrap_or(0), 0);
    percap_release_seq(&mut acct, &mut out, 101);
    percap_loan_release(&mut loans, &mut lent, &mut borrowed, 101);
    assert_eq!(out.get(&1), Some(&2));
    assert_eq!(lent.get(&1), Some(&2));
    assert_eq!(borrowed.get(&0), Some(&2));
    percap_loan_release(&mut loans, &mut lent, &mut borrowed, 101);
    assert_eq!(lent.get(&1), Some(&2));
    percap_release_cumulative(&mut acct, &mut out, 102);
    percap_loan_release_cumulative(&mut loans, &mut lent, &mut borrowed, 102);
    assert_eq!(out.get(&1), Some(&0));
    assert_eq!(lent.get(&1), Some(&0));
    assert_eq!(borrowed.get(&0), Some(&0));
    assert!(loans.is_empty(), "every loan self-liquidated on ack");
}

#[test]
fn percap_charge_repoints_a_recharged_seq_without_counting_twice() {
    let mut acct: BTreeMap<u64, u32> = BTreeMap::new();
    let mut out: HashMap<u32, usize> = HashMap::new();
    percap_charge(&mut acct, &mut out, 7, 0);
    percap_charge(&mut acct, &mut out, 7, 0);
    assert_eq!(out.get(&0), Some(&1), "a recharge counts once");
    percap_charge(&mut acct, &mut out, 7, 1);
    assert_eq!(out.get(&0), Some(&1), "the first charge stays on its account");
    assert_eq!(out.get(&1), None);
    assert_eq!(acct.get(&7), Some(&1), "the seq now points at the new path");
    percap_release_seq(&mut acct, &mut out, 8);
    assert_eq!(out.get(&0), Some(&1), "releasing an uncharged seq changes nothing");
    percap_release_cumulative(&mut acct, &mut out, 6);
    assert_eq!(acct.len(), 1, "a frontier below the seq keeps it charged");
    percap_release_cumulative(&mut acct, &mut out, 7);
    assert!(acct.is_empty());
    assert_eq!(out.get(&1), None, "an account with no gauge is left alone");
    percap_charge(&mut acct, &mut out, 3, 0);
    percap_release_seq(&mut acct, &mut out, 3);
    assert_eq!(out.get(&0), Some(&1));
}

#[test]
fn infl_percap_bounds_each_path_independently() {
    assert!(!infl_percap_full(&[(40, 100), (60, 60)]));
    assert!(infl_percap_full(&[(100, 100), (60, 60)]));
    assert!(infl_percap_full(&[(120, 100), (80, 60)]));
    assert!(!infl_percap_full(&[(0, 0), (10, 100)]));
    assert!(!infl_percap_full(&[(50, 145)]));
}

#[test]
fn window_source_paths_lists_the_recorded_path_of_every_window_seq() {
    let mut map: BTreeMap<u64, u32> = BTreeMap::new();
    for (seq, path) in [(1u64, 2u32), (2, 0), (3, 2), (4, 1), (9, 0)] {
        map.insert(seq, path);
    }
    assert_eq!(window_source_paths(1, 4, &map), vec![2, 0, 2, 1]);
    assert_eq!(window_source_paths(0, 9, &map), vec![2, 0, 2, 1, 0]);
    assert_eq!(window_source_paths(3, 3, &map), vec![2]);
    assert!(window_source_paths(5, 8, &map).is_empty());
}

#[test]
fn test_sent_store_retention_survives_window_eviction() {
    let mut encoder = WindowSpan::new();
    let mut sent_store: BTreeMap<u64, WireSymbol> = BTreeMap::new();

    for i in 0..(MAX_WINDOW_SIZE as u64 + 100) {
        let framed = vec![i as u8; 32];
        let sym = encoder.add_source(&framed);
        sent_store.insert(sym.block_id, sym.clone());
        if encoder.window_size() > MAX_WINDOW_SIZE {
            let oldest = encoder.oldest;
            encoder.advance(oldest + (encoder.window_size() - MAX_WINDOW_SIZE) as u64);
        }
    }

    assert!(!encoder.holds(10), "seq 10 must be past the FEC horizon");
    let held = sent_store.get(&10).expect("store retains un-acked symbol bytes");
    assert_eq!(held.block_id, 10);
    assert!(!held.is_repair);
    assert_eq!(&held.data[..32], &[10u8; 32]);

    let ack = 49u64;
    sent_store = sent_store.split_off(&(ack + 1));
    assert!(sent_store.get(&ack).is_none());
    assert!(sent_store.get(&(ack + 1)).is_some());
    assert_eq!(sent_store.len(), (MAX_WINDOW_SIZE + 100) - 50);
}

#[test]
fn test_sack_release_every_unacked_symbol_stays_recoverable() {
    let n = 100u64;
    let mut encoder = WindowSpan::new();
    let mut sent_store: BTreeMap<u64, WireSymbol> = BTreeMap::new();
    let mut released: BTreeSet<u64> = BTreeSet::new();
    for i in 0..n {
        let sym = encoder.add_source(&vec![i as u8; 32]);
        sent_store.insert(sym.block_id, sym);
    }
    let ack = 9u64;
    sent_store = sent_store.split_off(&(ack + 1));
    sack_release_prune(&mut released, ack);
    let newly = sack_release_mark(&sent_store, &mut released, 11, 99);
    assert_eq!(newly.len(), 89, "11..=99 newly released");
    assert_eq!(sent_store.len(), 90, "nothing was removed from the store");
    assert_eq!(sack_release_outstanding(sent_store.len(), released.len()), 1);
    let held = sent_store.get(&50).expect("released symbol still retransmittable");
    assert_eq!(&held.data[..32], &[50u8; 32]);
    assert!(!released.contains(&10));
    let ack2 = 99u64;
    sent_store = sent_store.split_off(&(ack2 + 1));
    sack_release_prune(&mut released, ack2);
    assert!(sent_store.is_empty());
    assert!(released.is_empty(), "released marks freed with the store (subset invariant)");
}

#[test]
fn test_sack_release_opens_window_and_returns_slots_to_pool() {
    let mut sent_store: BTreeMap<u64, u8> = BTreeMap::new();
    let mut released: BTreeSet<u64> = BTreeSet::new();
    for i in 0..1024u64 {
        sent_store.insert(i, 0);
    }
    let cap = 1024usize;
    assert!(sack_release_outstanding(sent_store.len(), released.len()) >= cap);
    let newly = sack_release_mark(&sent_store, &mut released, 1, 1023);
    assert_eq!(newly.len(), 1023);
    let outstanding = sack_release_outstanding(sent_store.len(), released.len());
    assert_eq!(outstanding, 1, "window opens: only the hole still counts");
    assert!(outstanding < cap);
    assert_eq!(sent_store.len(), 1024);
}

#[test]
fn test_sack_release_no_double_release_and_percap_composes() {
    let mut sent_store: BTreeMap<u64, u8> = BTreeMap::new();
    let mut released: BTreeSet<u64> = BTreeSet::new();
    let mut acct: BTreeMap<u64, u32> = BTreeMap::new();
    let mut out: HashMap<u32, usize> = HashMap::new();
    for i in 0..10u64 {
        sent_store.insert(i, 0);
        percap_charge(&mut acct, &mut out, i, (i % 2) as u32);
    }
    assert_eq!(out[&0], 5);
    assert_eq!(out[&1], 5);
    let newly = sack_release_mark(&sent_store, &mut released, 2, 5);
    assert_eq!(newly, vec![2, 3, 4, 5]);
    for &k in &newly {
        percap_release_seq(&mut acct, &mut out, k);
    }
    assert_eq!(out[&0], 3);
    assert_eq!(out[&1], 3);
    let again = sack_release_mark(&mut sent_store, &mut released, 2, 5);
    assert!(again.is_empty(), "idempotent under re-advertised snapshots");
    assert_eq!(released.len(), 4);
    percap_release_cumulative(&mut acct, &mut out, 9);
    assert_eq!(out[&0], 0);
    assert_eq!(out[&1], 0);
}

#[test]
fn test_sack_release_keeps_arq_state_and_flight_clocks() {
    let mut sent_store: BTreeMap<u64, u8> = BTreeMap::new();
    let mut released: BTreeSet<u64> = BTreeSet::new();
    let mut nack_retx_at: HashMap<u64, (u64, u32)> = HashMap::new();
    let mut retransmit_buffer: BTreeMap<u64, (u64, f64, u32)> = BTreeMap::new();
    let mut source_path_map: BTreeMap<u64, u32> = BTreeMap::new();
    for i in 0..20u64 {
        sent_store.insert(i, 0);
        nack_retx_at.insert(i, (1_000 + i, (i % 2) as u32));
        retransmit_buffer.insert(i, (2_000 + i, 0.01, (i % 2) as u32));
        source_path_map.insert(i, (i % 2) as u32);
    }
    let newly = sack_release_mark(&sent_store, &mut released, 5, 19);
    assert_eq!(newly.len(), 15);
    assert_eq!(nack_retx_at.len(), 20);
    assert_eq!(nack_retx_at[&10], (1_010, 0));
    assert_eq!(retransmit_buffer.len(), 20);
    assert_eq!(source_path_map.len(), 20);
    assert_eq!(sent_store.len(), 20);
}

#[test]
fn test_sack_release_mark_skips_seqs_not_retained() {
    let mut sent_store: BTreeMap<u64, u8> = BTreeMap::new();
    let mut released: BTreeSet<u64> = BTreeSet::new();
    for i in 50..60u64 {
        sent_store.insert(i, 0);
    }
    let newly = sack_release_mark(&sent_store, &mut released, 0, 100);
    assert_eq!(newly.len(), 10, "only retained seqs are markable");
    assert!(released.iter().all(|k| sent_store.contains_key(k)));
    assert_eq!(sack_release_outstanding(sent_store.len(), released.len()), 0);
}

#[test]
fn sack_release_outstanding_saturates_at_zero() {
    assert_eq!(sack_release_outstanding(3, 5), 0);
    assert_eq!(sack_release_outstanding(5, 3), 2);
    let mut released: BTreeSet<u64> = [1u64, 5, 9].into_iter().collect();
    sack_release_prune(&mut released, 5);
    assert_eq!(released.into_iter().collect::<Vec<_>>(), vec![9]);
}

#[test]
fn the_lender_is_the_largest_positive_room_last_on_ties() {
    assert_eq!(best_lender(&[]), None);
    assert_eq!(best_lender(&[(0, 0), (1, 0)]), None);
    assert_eq!(best_lender(&[(0, 47), (2, 0)]), Some(0));
    assert_eq!(best_lender(&[(0, 5), (1, 9), (2, 3)]), Some(1));
    assert_eq!(best_lender(&[(0, 9), (1, 9), (2, 3)]), Some(1));
}

/// The guard law in miniature with the caps and dwell bounds the store-cap
/// laws give a slow (rate 2000, echo 60 ms, RTprop 30 ms) and a fast (rate
/// 10 000, echo 80 ms, RTprop 40 ms) path at gain 2.
#[test]
fn percap_redirect_guard_stops_at_dwell_bound_and_pauses_admission() {
    const SLOW: u32 = 0;
    const FAST: u32 = 1;
    let (slow_cap, fast_cap) = (240usize, 1600usize);
    let (slow_bound, fast_bound) = (60usize, 400usize);

    let mut acct: BTreeMap<u64, u32> = BTreeMap::new();
    let mut out: HashMap<u32, usize> = HashMap::new();
    let accounts4 = |out: &HashMap<u32, usize>| {
        [
            (SLOW, out.get(&SLOW).copied().unwrap_or(0), slow_cap, slow_bound),
            (FAST, out.get(&FAST).copied().unwrap_or(0), fast_cap, fast_bound),
        ]
    };
    let accounts3 = |out: &HashMap<u32, usize>| accounts4(out).map(|(_, o, c, b)| (o, c, b));
    let mut seq = 0u64;
    while !percap_store_full_guarded(&accounts3(&out)) {
        let placed = percap_place_path(FAST, &accounts4(&out));
        percap_charge(&mut acct, &mut out, seq, placed);
        seq += 1;
        assert!(seq < 10_000, "guarded gate must close");
    }
    assert_eq!(out[&FAST], fast_cap, "fast account pegs at its own cap");
    assert_eq!(out[&SLOW], slow_bound, "redirect STOPS at the floor-clock dwell bound, far below the cap");
    assert!(!percap_store_full(&accounts3(&out).map(|(o, c, _)| (o, c))));
    assert!(percap_store_full_guarded(&accounts3(&out)));
    assert_eq!(percap_place_path(FAST, &accounts4(&out)), FAST);
    let fast_seqs: Vec<u64> = acct.iter().filter(|&(_, &p)| p == FAST).map(|(&s, _)| s).take(200).collect();
    for s in &fast_seqs {
        percap_release_seq(&mut acct, &mut out, *s);
    }
    assert!(!percap_store_full_guarded(&accounts3(&out)), "gate reopens on drain");
    assert_eq!(percap_place_path(SLOW, &accounts4(&out)), SLOW, "own-pick placement is never guard-gated below the cap");
    assert_eq!(percap_place_path(FAST, &accounts4(&out)), FAST);
    assert_eq!(out.values().sum::<usize>(), acct.len());
}

/// A deep and a shallow account side by side, with the caps the store-cap
/// law gives them (240 and 1600) and the guard off (bound = cap).
#[test]
fn percap_deep_and_shallow_accounts_coexist_without_coupling() {
    let mut acct: BTreeMap<u64, u32> = BTreeMap::new();
    let mut out: HashMap<u32, usize> = HashMap::new();
    const SLOW: u32 = 0;
    const FAST: u32 = 1;
    let caps = |out: &HashMap<u32, usize>| {
        [
            (SLOW, out.get(&SLOW).copied().unwrap_or(0), 240usize, 240usize),
            (FAST, out.get(&FAST).copied().unwrap_or(0), 1600usize, 1600usize),
        ]
    };
    let mut seq = 0u64;
    loop {
        let accounts: Vec<(usize, usize)> = caps(&out).iter().map(|&(_, o, c, _)| (o, c)).collect();
        if percap_store_full(&accounts) {
            break;
        }
        let pick = if seq % 2 == 0 { SLOW } else { FAST };
        let placed = percap_place_path(pick, &caps(&out));
        percap_charge(&mut acct, &mut out, seq, placed);
        seq += 1;
    }
    assert_eq!(out[&SLOW], 240, "slow outstanding pinned at its own cap");
    assert_eq!(out[&FAST], 1600, "fast account absorbed the redirect");
    assert_eq!(acct.len(), 240 + 1600);

    let fast_seqs: Vec<u64> = acct.iter().filter(|&(_, &p)| p == FAST).map(|(&s, _)| s).take(600).collect();
    for s in &fast_seqs {
        percap_release_seq(&mut acct, &mut out, *s);
    }
    assert_eq!(out[&FAST], 1000);
    assert_eq!(out[&SLOW], 240, "OOO fast acks must not drain the slow account");
    percap_release_seq(&mut acct, &mut out, fast_seqs[0]);
    assert_eq!(out[&FAST], 1000);

    let below: (usize, usize) =
        acct.range(..=299u64).fold((0, 0), |m, (_, &p)| if p == SLOW { (m.0 + 1, m.1) } else { (m.0, m.1 + 1) });
    percap_release_cumulative(&mut acct, &mut out, 299);
    assert_eq!(out[&SLOW], 240 - below.0);
    assert_eq!(out[&FAST], 1000 - below.1);
    assert_eq!(out.values().sum::<usize>(), acct.len());
    let accounts: Vec<(usize, usize)> = caps(&out).iter().map(|&(_, o, c, _)| (o, c)).collect();
    assert!(!percap_store_full(&accounts));
}
