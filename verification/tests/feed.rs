use raptorpath::feed::{
    copa_feed_attribute, copa_feed_attribute_at, flight_witness, resolve_flight_path, CopaFeed, SendCommit,
    MAX_PER_ACK,
};

#[test]
fn copa_feed_n1_pause_is_fully_inert() {
    let mut feed = CopaFeed::new_sampling_only(true);
    assert!(!feed.owns_cc());
    feed.set_n1_paused(true);
    feed.on_sent(10, 0);
    assert!(feed.seq_path.is_empty(), "paused on_sent must record nothing");
    feed.set_n1_paused(false);
    feed.on_sent(11, 0);
    feed.set_n1_paused(true);
    feed.fast_forward(20);
    assert!(feed.seq_path.is_empty());
    feed.set_n1_paused(false);
    assert!(feed.newly_delivered(15, &[]).is_empty());
}

#[test]
fn copa_feed_frontier_attributes_once() {
    let mut feed = CopaFeed::new();
    assert_eq!(feed.newly_delivered(2, &[]), vec![0, 1, 2]);
    assert!(feed.newly_delivered(2, &[]).is_empty());
    assert!(feed.newly_delivered(1, &[]).is_empty());
    assert_eq!(feed.newly_delivered(4, &[]), vec![3, 4]);
}

#[test]
fn copa_feed_sack_dedupes_against_frontier() {
    let mut feed = CopaFeed::new();
    assert_eq!(feed.newly_delivered(1, &[(5, 6)]), vec![0, 1, 5, 6]);
    assert!(feed.newly_delivered(1, &[(5, 6)]).is_empty());
    assert_eq!(feed.newly_delivered(7, &[]), vec![2, 3, 4, 7]);
}

#[test]
fn copa_feed_seq_path_last_send_wins() {
    let mut feed = CopaFeed::new();
    feed.on_sent(10, 0);
    feed.on_sent(10, 1);
    let commit = feed.seq_path.remove(&10).map(|(_, c)| c).unwrap();
    assert_eq!(commit.last.0, 1);
    assert_eq!(commit.prev.map(|(p, _)| p), Some(0));
    assert!(feed.seq_path.remove(&10).is_none());
}

#[test]
fn flight_witness_credits_original_path_for_spurious_retransmit() {
    let commit = SendCommit { last: (1, 1_000_000), prev: Some((0, 0)) };
    let rtprop = |pid: u32| if pid == 1 { Some(60_000u64) } else { Some(8_000u64) };
    assert_eq!(resolve_flight_path(&commit, 1_005_000, rtprop), 0);
    assert_eq!(resolve_flight_path(&commit, 1_080_000, rtprop), 1);
    assert_eq!(resolve_flight_path(&commit, 1_060_000, rtprop), 1);
    assert_eq!(resolve_flight_path(&commit, 1_005_000, |_| None), 1);
    let single = SendCommit { last: (1, 1_000_000), prev: None };
    assert_eq!(resolve_flight_path(&single, 1_000_001, rtprop), 1);
    let mut feed = CopaFeed::new();
    feed.on_sent(7, 0);
    feed.on_sent(7, 1);
    feed.on_sent(7, 0);
    let c = feed.seq_path.remove(&7).map(|(_, c)| c).unwrap();
    assert_eq!(c.last.0, 0);
    assert_eq!(c.prev.map(|(p, _)| p), Some(1));
}

#[test]
fn copa_feed_per_ack_work_is_bounded() {
    let mut feed = CopaFeed::new();
    let newly = feed.newly_delivered(u64::MAX - 1, &[]);
    assert!(newly.len() <= 65_536);
}

#[test]
fn sampling_only_feed_does_not_own_cc() {
    assert!(CopaFeed::new().owns_cc());
    assert!(!CopaFeed::new_sampling_only(true).owns_cc());
}

#[test]
fn a_truncated_frontier_walk_resumes_where_it_stopped() {
    let mut feed = CopaFeed::new();
    let first = feed.newly_delivered(100_000, &[(200_000, 200_005)]);
    assert_eq!(first.len(), MAX_PER_ACK);
    assert_eq!(first[0], 0);
    assert_eq!(first[MAX_PER_ACK - 1], MAX_PER_ACK as u64 - 1);
    assert_eq!(feed.cursor.next, MAX_PER_ACK as u64);
    let second = feed.newly_delivered(100_000, &[(200_000, 200_005)]);
    assert_eq!(second.len(), 100_001 - MAX_PER_ACK + 6);
    assert_eq!(second[0], MAX_PER_ACK as u64);
    assert_eq!(*second.last().unwrap(), 200_005);
    assert!(feed.newly_delivered(100_000, &[(200_000, 200_005)]).is_empty());
}

#[test]
fn a_sack_range_is_scanned_at_most_one_bound_past_its_start() {
    let mut feed = CopaFeed::new();
    let newly = feed.newly_delivered(0, &[(10, u64::MAX)]);
    assert_eq!(newly.len(), MAX_PER_ACK);
    assert_eq!(newly[0], 0);
    assert_eq!(newly[1], 10);
    assert_eq!(*newly.last().unwrap(), 10 + MAX_PER_ACK as u64 - 2);
}

#[test]
fn sack_ranges_below_the_frontier_are_clipped_to_it() {
    let mut feed = CopaFeed::new();
    assert_eq!(feed.newly_delivered(5, &[]), vec![0, 1, 2, 3, 4, 5]);
    assert_eq!(feed.newly_delivered(5, &[(3, 8), (7, 9)]), vec![6, 7, 8, 9]);
    assert!(feed.cursor.sacked.contains(&6));
    assert_eq!(feed.newly_delivered(9, &[]), Vec::<u64>::new());
    assert!(feed.cursor.sacked.is_empty());
    assert_eq!(feed.cursor.next, 10);
}

#[test]
fn flight_witness_reads_a_future_send_stamp_as_zero_age() {
    let commit = SendCommit { last: (3, 2_000), prev: Some((4, 0)) };
    assert_eq!(flight_witness(&commit, 1_000, Some(1)), 4);
    assert_eq!(flight_witness(&commit, 1_000, Some(0)), 3);
    assert_eq!(flight_witness(&commit, 2_500, Some(500)), 3);
    assert_eq!(flight_witness(&commit, 2_499, Some(500)), 4);
}

#[test]
fn on_sent_at_keeps_the_previous_distinct_path() {
    let mut feed = CopaFeed::new();
    feed.on_sent_at(5, 0, 100);
    assert_eq!(feed.seq_path.get(&5).map(|c| *c), Some(SendCommit { last: (0, 100), prev: None }));
    feed.on_sent_at(5, 0, 150);
    assert_eq!(feed.seq_path.get(&5).map(|c| *c), Some(SendCommit { last: (0, 150), prev: None }));
    feed.on_sent_at(5, 1, 200);
    assert_eq!(feed.seq_path.get(&5).map(|c| *c), Some(SendCommit { last: (1, 200), prev: Some((0, 150)) }));
    feed.on_sent_at(5, 1, 250);
    assert_eq!(
        feed.seq_path.get(&5).map(|c| *c),
        Some(SendCommit { last: (1, 250), prev: Some((0, 150)) }),
        "a same-path resend keeps the older distinct commitment"
    );
}

#[test]
fn attribution_credits_the_flight_that_delivered() {
    let mut feed = CopaFeed::new_sampling_only(true);
    feed.on_sent_at(0, 0, 1_000);
    feed.on_sent_at(1, 0, 1_000);
    feed.on_sent_at(1, 1, 50_000);
    feed.on_sent_at(2, 0, 1_000);
    feed.on_sent_at(2, 1, 2_000);
    let rtprop = |pid: u32| if pid == 1 { Some(60_000u64) } else { None };
    let out = copa_feed_attribute_at(&mut feed, 7, 3, &[], 70_000, rtprop);
    assert_eq!(out, vec![(0, 0), (1, 0), (2, 1), (3, 7)]);
    assert_eq!(feed.attr_diag(), (2, 1));
    assert!(feed.seq_path.is_empty());

    let mut legacy = CopaFeed::new_sampling_only(false);
    legacy.on_sent_at(1, 0, 1_000);
    legacy.on_sent_at(1, 1, 50_000);
    let out = copa_feed_attribute_at(&mut legacy, 7, 1, &[], 70_000, rtprop);
    assert_eq!(out, vec![(0, 7), (1, 1)], "the witness off credits the last-sent path");
    assert_eq!(legacy.attr_diag(), (1, 1), "the diagnostics still count what the witness would do");
}

#[test]
fn paused_attribution_only_fast_forwards() {
    let mut feed = CopaFeed::new_sampling_only(true);
    feed.on_sent_at(3, 0, 10);
    feed.on_sent_at(9, 0, 10);
    assert_eq!(feed.newly_delivered(0, &[(8, 8)]), vec![0, 8]);
    feed.set_n1_paused(true);
    let out = copa_feed_attribute(&mut feed, 0, 5, &[(9, 9)], |_| None);
    assert!(out.is_empty());
    assert_eq!(feed.cursor.next, 6);
    assert!(feed.cursor.sacked.contains(&8));
    assert!(feed.seq_path.get(&3).is_none());
    assert!(feed.seq_path.get(&9).is_some());
    let out = copa_feed_attribute(&mut feed, 0, 2, &[], |_| None);
    assert!(out.is_empty());
    assert_eq!(feed.cursor.next, 6, "a stale ack never moves the cursor back");
    feed.set_n1_paused(false);
    let out = copa_feed_attribute(&mut feed, 4, 9, &[], |_| None);
    assert_eq!(out, vec![(6, 4), (7, 4), (9, 0)]);
}

#[test]
fn diagnostic_counters_wrap_like_relaxed_atomics() {
    let mut feed = CopaFeed::new_sampling_only(true);
    feed.attr_cross = u64::MAX;
    feed.attr_witness_prev = u64::MAX;
    feed.on_sent_at(0, 0, 0);
    feed.on_sent_at(0, 1, 10);
    let out = copa_feed_attribute_at(&mut feed, 0, 0, &[], 20, |_| Some(1_000));
    assert_eq!(out, vec![(0, 0)]);
    assert_eq!(feed.attr_diag(), (0, 0));
}

#[test]
fn a_capped_diff_keeps_the_frontier_run_then_the_sack_scan_in_order() {
    let mut feed = CopaFeed::new();
    let newly = feed.newly_delivered(MAX_PER_ACK as u64 - 3, &[(200_000, 200_004), (100_000, 100_002)]);
    assert_eq!(newly.len(), MAX_PER_ACK);
    assert_eq!(&newly[MAX_PER_ACK - 4..], &[MAX_PER_ACK as u64 - 4, MAX_PER_ACK as u64 - 3, 200_000, 200_001]);
    let rest = feed.newly_delivered(MAX_PER_ACK as u64 - 3, &[(200_000, 200_004), (100_000, 100_002)]);
    assert_eq!(rest, vec![200_002, 200_003, 200_004, 100_000, 100_001, 100_002]);
}
