use raptorpath::deficit::{collect_gen_deficits, horizon_gate_deficits};
use raptorpath::timing::{duration_nanos_of, hole_nack_refresh_checked, shed_recv_hold_checked, shed_recv_hold, BLOCK_REORDER_MAX_HOLD_MS, BLOCK_REORDER_MIN_HOLD_MS};
use std::collections::BTreeMap;
use std::time::{Duration, Instant};

#[test]
fn shed_recv_hold_delta_dial_and_legacy_fallback() {
    let min_hold = Duration::from_millis(BLOCK_REORDER_MIN_HOLD_MS);
    let max_hold = Duration::from_millis(BLOCK_REORDER_MAX_HOLD_MS);
    let srtt = Duration::from_millis(80);
    assert_eq!(shed_recv_hold(srtt, true, true), Duration::from_millis(40));
    let legacy = (srtt * 4).clamp(min_hold, max_hold);
    assert_eq!(shed_recv_hold(srtt, true, false), legacy, "budget spent ⇒ serialize");
    assert_eq!(shed_recv_hold(srtt, false, true), legacy, "law off ⇒ legacy");
    assert_eq!(
        shed_recv_hold(Duration::from_millis(10), false, false),
        Duration::from_millis(60)
    );
    assert_eq!(
        shed_recv_hold(Duration::from_millis(200), false, false),
        Duration::from_millis(300)
    );
}

#[test]
fn shed_recv_hold_halves_odd_nanoseconds_down() {
    assert_eq!(shed_recv_hold(Duration::from_nanos(3), true, true), Duration::from_nanos(1));
    assert_eq!(
        shed_recv_hold(Duration::from_millis(75), false, false),
        Duration::from_millis(300)
    );
    assert_eq!(
        shed_recv_hold(Duration::from_millis(16), false, false),
        Duration::from_millis(64)
    );
}

#[test]
fn receiver_tail_reports_all_deficits_in_one_round() {
    let mut gen_widths: BTreeMap<u64, u16> = BTreeMap::new();
    for g in 0..50u64 {
        gen_widths.insert(g * 384, 384);
    }
    let rank_of = |_anchor: u64, k: u64| k - 3;

    let d6 = collect_gen_deficits(&gen_widths, 6, rank_of);
    assert_eq!(d6.len(), 6, "legacy bound reports only 6 generations");

    let all = collect_gen_deficits(&gen_widths, 256, rank_of);
    assert_eq!(all.len(), 50, "every outstanding generation reported at once");
    assert!(all.iter().all(|&(_, d)| d == 3));
    let total: u32 = all.iter().map(|(_, d)| d).sum();
    assert_eq!(total, 150, "the full residual deficit is requested in one round");

    let none = collect_gen_deficits(&gen_widths, 256, |_a, k| k);
    assert!(none.is_empty(), "decoded generations report no deficit");
}

#[test]
fn deficits_come_in_anchor_order_and_skip_decoded_generations() {
    let mut gen_widths: BTreeMap<u64, u16> = BTreeMap::new();
    gen_widths.insert(768, 10);
    gen_widths.insert(0, 10);
    gen_widths.insert(384, 10);
    let rank_of = |anchor: u64, k: u64| if anchor == 384 { k } else { k - anchor / 384 - 1 };
    let d = collect_gen_deficits(&gen_widths, 8, rank_of);
    assert_eq!(d, vec![(0, 1), (768, 3)]);
    let capped = collect_gen_deficits(&gen_widths, 1, rank_of);
    assert_eq!(capped, vec![(0, 1)]);
    assert!(collect_gen_deficits(&gen_widths, 0, rank_of).is_empty());
    let over = collect_gen_deficits(&gen_widths, 8, |_a, k| k + 5);
    assert!(over.is_empty(), "a rank above K saturates to no deficit");
}

#[test]
fn horizon_withholds_nack_until_repair_window_then_falls_back() {
    let horizon = Duration::from_millis(5);
    let mut armed: BTreeMap<u64, Instant> = BTreeMap::new();
    let t0 = Instant::now();

    let d = vec![(0u64, 3u32)];
    let ready = horizon_gate_deficits(&d, &mut armed, horizon, t0);
    assert!(ready.is_empty(), "a fresh hole is withheld, not NACKed immediately");
    assert_eq!(armed.len(), 1, "the fresh hole is armed");

    let none: Vec<(u64, u32)> = vec![];
    let ready = horizon_gate_deficits(&none, &mut armed, horizon, t0 + Duration::from_millis(2));
    assert!(ready.is_empty());
    assert!(armed.is_empty(), "decoded-within-horizon hole is disarmed with no NACK");

    let d2 = vec![(384u64, 2u32)];
    let ready = horizon_gate_deficits(&d2, &mut armed, horizon, t0);
    assert!(ready.is_empty(), "still withheld before the horizon");
    let ready = horizon_gate_deficits(&d2, &mut armed, horizon, t0 + Duration::from_millis(6));
    assert_eq!(ready, vec![(384, 2)], "horizon expired uncovered → reactive fallback fires");

    let mut armed0: BTreeMap<u64, Instant> = BTreeMap::new();
    let ready = horizon_gate_deficits(&d, &mut armed0, Duration::ZERO, t0);
    assert_eq!(ready, d, "horizon 0 reports immediately (shipped path)");
}

#[test]
fn horizon_keeps_the_first_sighting_across_rounds() {
    let horizon = Duration::from_millis(10);
    let mut armed: BTreeMap<u64, Instant> = BTreeMap::new();
    let t0 = Instant::now();
    let d = vec![(0u64, 1u32), (384u64, 2u32)];
    assert!(horizon_gate_deficits(&d, &mut armed, horizon, t0).is_empty());
    let ready = horizon_gate_deficits(&d, &mut armed, horizon, t0 + Duration::from_millis(4));
    assert!(ready.is_empty(), "re-sighting does not restart or expire the clock early");
    assert_eq!(armed.get(&0), Some(&t0));
    let ready = horizon_gate_deficits(&d, &mut armed, horizon, t0 + Duration::from_millis(10));
    assert_eq!(ready, d, "exactly one horizon after the first sighting both fire");
}

#[test]
fn checked_timing_laws_refuse_only_overflowing_spans() {
    assert_eq!(duration_nanos_of(&Duration::from_millis(3)), 3_000_000);
    assert_eq!(hole_nack_refresh_checked(Some(Duration::from_millis(20))), Some(Duration::from_millis(40)));
    assert_eq!(hole_nack_refresh_checked(None), Some(Duration::from_millis(100)));
    assert_eq!(hole_nack_refresh_checked(Some(Duration::MAX)), None);
    assert_eq!(shed_recv_hold_checked(Duration::MAX, true, true), Some(Duration::MAX / 2));
    assert_eq!(shed_recv_hold_checked(Duration::MAX, false, true), None);
    assert_eq!(shed_recv_hold_checked(Duration::from_millis(80), false, false), Some(Duration::from_millis(300)));
}
