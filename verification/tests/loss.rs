use raptorpath::loss::{mp_delivered_intervals, mp_fast_lost, pooled_recovery_srtt_us, PathBatchTracker};

#[test]
fn test_path_batch_tracker_no_loss() {
    let mut tracker = PathBatchTracker::new();
    let (expected, received) = tracker.record_batch(0, 10);
    assert_eq!(expected, 10);
    assert_eq!(received, 10);

    let (expected, received) = tracker.record_batch(1, 10);
    assert_eq!(expected, 10);
    assert_eq!(received, 10);
}

#[test]
fn test_path_batch_tracker_with_gap() {
    let mut tracker = PathBatchTracker::new();
    tracker.record_batch(0, 10);

    let (expected, received) = tracker.record_batch(2, 10);
    assert_eq!(expected, 20);
    assert_eq!(received, 10);
}

#[test]
fn path_batch_tracker_counts_reordered_and_repeated_serials_as_one_batch() {
    let mut tracker = PathBatchTracker::new();
    tracker.record_batch(10, 4);
    assert_eq!(tracker.record_batch(7, 4), (4, 4), "an older serial is no gap");
    assert_eq!(tracker.record_batch(7, 4), (4, 4), "a repeated serial is no gap");
    assert_eq!(tracker.record_batch(11, 4), (16, 4), "the tracker restarts from the last serial seen");
    assert_eq!(tracker.total_received, 16);
    assert_eq!(tracker.total_expected, 28);
    assert_eq!(tracker.last_seq, Some(11));
}

#[test]
fn per_path_batch_serials_kill_striping_phantom_loss() {
    let mut t0 = PathBatchTracker::new();
    let mut t1 = PathBatchTracker::new();
    for s in 0..200u64 {
        if s % 2 == 0 {
            t0.record_batch(s, 1);
        } else {
            t1.record_batch(s, 1);
        }
    }
    assert!(t0.total_expected >= t0.total_received * 2 - 2);
    assert!(t1.total_expected >= t1.total_received * 2 - 2);

    let mut p0 = PathBatchTracker::new();
    let mut p1 = PathBatchTracker::new();
    for s in 0..100u64 {
        p0.record_batch(s, 1);
        p1.record_batch(s, 1);
    }
    assert_eq!(p0.total_expected, p0.total_received, "no phantom loss");
    assert_eq!(p1.total_expected, p1.total_received, "no phantom loss");

    let mut pl = PathBatchTracker::new();
    for s in 0..100u64 {
        if (10..=14).contains(&s) {
            continue;
        }
        pl.record_batch(s, 1);
    }
    assert_eq!(pl.total_expected - pl.total_received, 5, "real loss still counted");
}

#[test]
fn mp_packet_threshold_evidence_and_decision() {
    assert_eq!(mp_delivered_intervals(&[(5, 6), (9, 9)]), vec![(7, 8), (10, 10)]);
    assert_eq!(mp_delivered_intervals(&[(5, 6)]), vec![(7, 7)]);
    assert_eq!(mp_delivered_intervals(&[(5, 6), (7, 8)]), vec![(9, 9)]);
    assert!(mp_delivered_intervals(&[]).is_empty());

    let ev = vec![10, 12, 14, 16];
    assert!(mp_fast_lost(&ev, 9), ">=3 successors above 9");
    assert!(mp_fast_lost(&ev, 10), "3 above 10 (12,14,16)");
    assert!(!mp_fast_lost(&ev, 12), "only 2 above 12");
    assert!(!mp_fast_lost(&ev, 20), "none above 20");
    assert!(!mp_fast_lost(&[], 0), "no evidence, never lost-fast");
    let b_ev: Vec<u64> = vec![];
    assert!(!mp_fast_lost(&b_ev, 50));
}

#[test]
fn pooled_clock_is_the_slowest_path() {
    assert_eq!(pooled_recovery_srtt_us(&[5]), 5);
    assert_eq!(pooled_recovery_srtt_us(&[0, 0]), 0);
    assert_eq!(pooled_recovery_srtt_us(&[3, 9, 9, 1]), 9);
}
