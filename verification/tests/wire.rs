use raptorpath::wire::{datagram_batches, next_pace_delay_us, pace_budget, effective_symbol_size, reroute_target};

#[test]
fn symbols_size_to_the_smallest_mtu_within_the_profile() {
    assert_eq!(effective_symbol_size(Some(1400), 0, 1200), 1200, "a roomy MTU keeps the profile size");
    assert_eq!(effective_symbol_size(Some(1000), 0, 1200), 952);
    assert_eq!(effective_symbol_size(Some(1000), 4, 1200), 948, "the repair header comes off too");
    assert_eq!(effective_symbol_size(Some(60), 0, 1200), 64, "never below 64 bytes");
    assert_eq!(effective_symbol_size(Some(48), 0, 1200), 1152, "no usable MTU reads as undiscovered");
    assert_eq!(effective_symbol_size(None, 0, 1200), 1152, "before discovery: the 1200-byte initial datagram");
    assert_eq!(effective_symbol_size(None, 0, 512), 512);
    assert_eq!(effective_symbol_size(None, 5000, 1200), 64);
    assert_eq!(effective_symbol_size(Some(48 + 65_536 + 100), 0, 1200), 100, "the size is taken as a u16");
}

#[test]
fn batches_fill_each_datagram_greedily() {
    let sizes = [500usize, 500, 100, 1200, 10];
    let (batches, oversized) = datagram_batches(&sizes, Some(1200), true);
    assert_eq!(batches, vec![vec![0, 1], vec![2, 4]]);
    assert_eq!(oversized, vec![3]);
    let (batches, oversized) = datagram_batches(&sizes, Some(1200), false);
    assert_eq!(batches, vec![vec![0, 1], vec![2], vec![3], vec![4]], "an oversized symbol rides alone");
    assert!(oversized.is_empty());
}

#[test]
fn batches_read_the_limit_with_its_defaults() {
    let sizes = [100usize; 10];
    let (batches, _) = datagram_batches(&sizes, None, true);
    assert_eq!(batches.iter().map(|b| b.len()).collect::<Vec<_>>(), vec![8, 2], "1200 before discovery");
    let (batches, _) = datagram_batches(&sizes, Some(10), true);
    assert_eq!(batches.iter().map(|b| b.len()).collect::<Vec<_>>(), vec![1; 10], "never below 256");
    let (batches, oversized) = datagram_batches(&[], Some(1200), true);
    assert!(batches.is_empty() && oversized.is_empty());
    let (batches, _) = datagram_batches(&[1120usize], Some(1200), true);
    assert_eq!(batches, vec![vec![0]], "a symbol exactly filling the budget fits");
}

#[test]
fn reroutes_go_to_the_widest_path_that_still_fits() {
    let live = [(0u32, Some(600usize)), (1, Some(1400)), (2, None), (3, Some(1400))];
    assert_eq!(reroute_target(&live, 1000), Some(3), "ties go to the last widest");
    assert_eq!(reroute_target(&live, 1352), Some(3));
    assert_eq!(reroute_target(&live, 1353), None);
    assert_eq!(reroute_target(&[(0, Some(600)), (2, None)], 1000), Some(2));
    assert_eq!(reroute_target(&[(0, Some(100))], 208), Some(0), "a tiny limit reads as 256");
    assert_eq!(reroute_target(&[], 10), None);
}

#[test]
fn pace_budgets_follow_tokens_unless_forced_or_unknown() {
    assert_eq!(pace_budget(10, false, Some(3)), 3);
    assert_eq!(pace_budget(10, false, Some(30)), 10);
    assert_eq!(pace_budget(10, true, Some(3)), 10, "a forced flush drains the queue");
    assert_eq!(pace_budget(10, false, None), 10, "an unknown path is flushed");
    assert_eq!(pace_budget(0, false, Some(3)), 0);
}

#[test]
fn the_next_pace_tick_is_the_earliest_refill_within_its_bounds() {
    assert_eq!(next_pace_delay_us(&[]), None);
    assert_eq!(next_pace_delay_us(&[Some(8_000), Some(3_000)]), Some(3_000));
    assert_eq!(next_pace_delay_us(&[Some(80_000)]), Some(50_000));
    assert_eq!(next_pace_delay_us(&[None]), Some(50_000));
    assert_eq!(next_pace_delay_us(&[Some(100), None]), Some(500));
}
