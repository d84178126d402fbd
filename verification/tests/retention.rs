use raptorpath::ledger::{percap_charge, percap_loan_charge};
use raptorpath::release::sack_release_outstanding;
use raptorpath::retention::{ReleasePolicy, RetentionStore};

const ALL_ON: ReleasePolicy = ReleasePolicy { sack_release: true, percap_track: true, borrow: true };

fn filled(n: u64) -> RetentionStore<Vec<u8>> {
    let mut st: RetentionStore<Vec<u8>> = RetentionStore::new();
    for seq in 0..n {
        st.sent_store.insert(seq, vec![seq as u8; 4]);
        percap_charge(&mut st.acct, &mut st.out, seq, (seq % 2) as u32);
    }
    st
}

#[test]
fn sack_evidence_releases_slots_but_keeps_every_payload() {
    let mut st = filled(20);
    let newly = st.on_sack_ranges(&[(11, 14), (9, 8), (16, 30)], ALL_ON);
    assert_eq!(newly, vec![11, 12, 13, 14, 16, 17, 18, 19]);
    assert_eq!(st.sent_store.len(), 20, "payloads stay until the frontier passes");
    assert_eq!(sack_release_outstanding(st.sent_store.len(), st.released.len()), 12);
    assert_eq!(st.out.get(&0), Some(&6));
    assert_eq!(st.out.get(&1), Some(&6));
    assert!(!st.acct.contains_key(&12));
    let again = st.on_sack_ranges(&[(11, 19)], ALL_ON);
    assert_eq!(again, vec![15], "only the seq not yet released is new");
    assert_eq!(st.out.get(&1), Some(&5));
}

#[test]
fn the_cumulative_ack_drains_the_store_and_frees_the_marks() {
    let mut st = filled(20);
    st.on_sack_ranges(&[(15, 19)], ALL_ON);
    st.on_cumulative_ack(16, ALL_ON);
    assert_eq!(st.sent_store.keys().copied().collect::<Vec<_>>(), vec![17, 18, 19]);
    assert_eq!(st.released.iter().copied().collect::<Vec<_>>(), vec![17, 18, 19]);
    assert!(st.acct.is_empty(), "SACK and cumulative releases never double-count");
    assert_eq!(st.out.get(&0), Some(&0));
    assert_eq!(st.out.get(&1), Some(&0));
    assert_eq!(sack_release_outstanding(st.sent_store.len(), st.released.len()), 0);
}

#[test]
fn release_off_leaves_everything_counted() {
    let mut st = filled(8);
    let off = ReleasePolicy { sack_release: false, percap_track: true, borrow: false };
    assert!(st.on_sack_ranges(&[(0, 7)], off).is_empty());
    assert!(st.released.is_empty());
    assert_eq!(st.out.get(&0), Some(&4));
    let untracked = ReleasePolicy { sack_release: true, percap_track: false, borrow: false };
    assert_eq!(st.on_sack_ranges(&[(2, 3)], untracked), vec![2, 3]);
    assert_eq!(st.out.get(&0), Some(&4), "accounts untouched without tracking");
    st.on_cumulative_ack(5, untracked);
    assert_eq!(st.acct.len(), 8, "accounts untouched without tracking");
    assert_eq!(st.sent_store.len(), 2);
}

#[test]
fn loans_repay_on_sack_and_on_the_frontier() {
    let mut st: RetentionStore<u8> = RetentionStore::new();
    for seq in [100u64, 101, 102] {
        st.sent_store.insert(seq, 0);
        percap_charge(&mut st.acct, &mut st.out, seq, 1);
        percap_loan_charge(&mut st.loans, &mut st.lent, &mut st.borrowed, seq, 1, 0);
    }
    assert_eq!(st.on_sack_ranges(&[(101, 101)], ALL_ON), vec![101]);
    assert_eq!(st.lent.get(&1), Some(&2));
    assert_eq!(st.borrowed.get(&0), Some(&2));
    st.on_cumulative_ack(102, ALL_ON);
    assert!(st.loans.is_empty());
    assert_eq!(st.lent.get(&1), Some(&0));
    assert_eq!(st.borrowed.get(&0), Some(&0));
    assert_eq!(st.out.get(&1), Some(&0));
    assert!(st.sent_store.is_empty());
}

#[test]
fn released_seqs_come_range_by_range_each_ascending() {
    let mut st = filled(20);
    let newly = st.on_sack_ranges(&[(15, 17), (2, 4), (16, 19), (0, 1)], ALL_ON);
    assert_eq!(newly, vec![15, 16, 17, 2, 3, 4, 18, 19, 0, 1]);
    assert_eq!(st.out.get(&0), Some(&5));
    assert_eq!(st.out.get(&1), Some(&5));
}
