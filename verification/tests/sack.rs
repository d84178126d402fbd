use raptorpath::sack::{compute_gap_ranges, received_sack_ranges, sack_to_gaps, MAX_NACK_GAPS};
use std::collections::BTreeSet;

#[test]
fn test_sack_to_gaps_single_hole() {
    assert_eq!(sack_to_gaps(4, &[(7, 9)]), vec![(5, 6)]);
}

#[test]
fn test_sack_to_gaps_multiple_holes() {
    assert_eq!(sack_to_gaps(0, &[(2, 3), (6, 6)]), vec![(1, 1), (4, 5)]);
}

#[test]
fn test_sack_to_gaps_adjacent_range_no_gap() {
    assert!(sack_to_gaps(4, &[(5, 9)]).is_empty());
}

#[test]
fn test_sack_to_gaps_round_trips_receiver_encoding() {
    let mut received = BTreeSet::new();
    for seq in [11u64, 12, 15, 18, 19, 20] {
        received.insert(seq);
    }
    let highest_delivered = 10u64;
    let highest_seen = 20u64;
    let gaps = compute_gap_ranges(&received, highest_delivered, highest_seen);
    let mut sack_ranges = Vec::new();
    let mut cursor = highest_delivered + 1;
    for &(gap_start, gap_end) in &gaps {
        if cursor < gap_start {
            sack_ranges.push((cursor, gap_start - 1));
        }
        cursor = gap_end + 1;
    }
    if cursor <= highest_seen {
        sack_ranges.push((cursor, highest_seen));
    }
    assert_eq!(sack_ranges, vec![(11, 12), (15, 15), (18, 20)]);
    assert_eq!(sack_to_gaps(highest_delivered, &sack_ranges), vec![(13, 14), (16, 17)]);
}

#[test]
fn test_sack_to_gaps_caps_at_max_gaps() {
    let sack: Vec<(u64, u64)> = (0..(MAX_NACK_GAPS as u64 * 2)).map(|i| (2 + i * 2, 2 + i * 2)).collect();
    let gaps = sack_to_gaps(0, &sack);
    assert_eq!(gaps.len(), MAX_NACK_GAPS);
}

#[test]
fn test_received_sack_ranges_inverts_to_gaps() {
    let mut received = BTreeSet::new();
    for seq in [3u64, 4, 7] {
        received.insert(seq);
    }
    let ranges = received_sack_ranges(&received, 2, 7);
    assert_eq!(ranges, vec![(3, 4), (7, 7)]);
    assert_eq!(sack_to_gaps(2, &ranges), vec![(5, 6)]);
}

#[test]
fn gap_ranges_cover_the_window_edges() {
    let mut received = BTreeSet::new();
    for seq in [5u64, 6, 9] {
        received.insert(seq);
    }
    assert_eq!(compute_gap_ranges(&received, 4, 10), vec![(4, 4), (7, 8), (10, 10)]);
    assert_eq!(compute_gap_ranges(&received, 6, 6), Vec::<(u64, u64)>::new());
    let empty: BTreeSet<u64> = BTreeSet::new();
    assert_eq!(compute_gap_ranges(&empty, 0, 3), vec![(0, 3)]);
    let sparse: BTreeSet<u64> = (0..100u64).map(|i| i * 2).collect();
    assert_eq!(compute_gap_ranges(&sparse, 0, 198).len(), MAX_NACK_GAPS);
}

#[test]
fn sack_to_gaps_ignores_ranges_at_or_below_the_frontier() {
    assert_eq!(sack_to_gaps(10, &[(3, 8), (10, 12), (15, 15)]), vec![(13, 14)]);
    assert!(sack_to_gaps(10, &[]).is_empty());
}

#[test]
fn received_sack_ranges_round_trip_every_hole_pattern() {
    for mask in 0u32..256 {
        let delivered = 100u64;
        let received: BTreeSet<u64> = (0..8u64).filter(|i| mask & (1 << i) != 0).map(|i| delivered + 1 + i).collect();
        let seen = received.iter().next_back().copied().unwrap_or(delivered);
        let ranges = received_sack_ranges(&received, delivered, seen);
        let gaps = sack_to_gaps(delivered, &ranges);
        let mut missing = Vec::new();
        for s in delivered + 1..=seen {
            if !received.contains(&s) {
                missing.push(s);
            }
        }
        let from_gaps: Vec<u64> = gaps.iter().flat_map(|&(a, b)| a..=b).collect();
        assert_eq!(from_gaps, missing, "mask={mask:#b}");
    }
}

#[test]
fn sack_ranges_name_only_received_seqs_past_the_gap_cap() {
    let received: BTreeSet<u64> = (1..=21u64).map(|i| i * 2).collect();
    let ranges = received_sack_ranges(&received, 0, 42);
    assert_eq!(ranges.len(), 21);
    assert_eq!(ranges, (1..=21u64).map(|i| (i * 2, i * 2)).collect::<Vec<_>>());
    assert!(ranges.iter().all(|&(a, b)| (a..=b).all(|s| received.contains(&s))));
    let gaps = sack_to_gaps(0, &ranges);
    assert_eq!(gaps, compute_gap_ranges(&received, 1, 42));
    assert_eq!(gaps.len(), MAX_NACK_GAPS);
}

#[test]
fn sack_ranges_merge_adjacent_received_seqs() {
    let received: BTreeSet<u64> = [1u64, 2, 3, 5, 6, 9, 12].into_iter().collect();
    assert_eq!(received_sack_ranges(&received, 0, 9), vec![(1, 3), (5, 6), (9, 9)]);
    assert_eq!(received_sack_ranges(&received, 2, 8), vec![(3, 3), (5, 6)]);
    assert!(received_sack_ranges(&received, 6, 8).is_empty());
    assert!(received_sack_ranges(&received, 5, 5).is_empty());
}
