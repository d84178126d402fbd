use raptorpath::loss::pooled_recovery_srtt_us;
use raptorpath::patience::{
    clamp_u64, cooldown_elapsed, saturating_mul_u64, legacy_age_ripe, mp_hole_ripe, mp_time_threshold_split, patience_floor_us,
    recovery_floor_us, retx_cooldown_us, shed_armed, stall_threshold_us, tail_sweep_timeout_us,
    time_threshold_ripe, window_ack_emission, HOLE_NACK_REFRESH_MAX_MS, HOLE_NACK_REFRESH_MIN_MS,
    HOLE_NACK_REFRESH_MIN_US, MP_PACKET_THRESHOLD, NACK_RETX_COOLDOWN_FLOOR_US, TAIL_SWEEP_MAX_US,
    TAIL_SWEEP_MIN_US, TIMER_GRANULARITY_US,
};
use raptorpath::timing::hole_nack_refresh;
use std::time::Duration;

#[test]
fn shed_never_arms_on_reliable_contract() {
    assert!(shed_armed(true, false, true));
    assert!(!shed_armed(true, true, true));
    assert!(!shed_armed(false, false, true));
    assert!(!shed_armed(true, false, false));
}

#[test]
fn mp_time_threshold_is_nine_eighths_of_max_clock_with_floor() {
    const F: u64 = NACK_RETX_COOLDOWN_FLOOR_US;
    assert_eq!(mp_time_threshold_split(40_000, 32_000, F).0, 45_000);
    assert_eq!(mp_time_threshold_split(32_000, 40_000, F).0, 45_000);
    assert_eq!(mp_time_threshold_split(1_000, 500, F).0, F);
    assert_eq!(mp_time_threshold_split(0, 0, F).0, F);
}

#[test]
fn derived_patience_off_is_bit_identical_to_the_legacy_threshold() {
    const F: u64 = NACK_RETX_COOLDOWN_FLOOR_US;
    for srtt in [0u64, 1, 500, 1_000, 8_000, 8_888, 8_889, 9_000, 40_000, 250_000] {
        for ewma in [0u64, 700, 9_500, 40_000] {
            let legacy = (srtt.max(ewma).saturating_mul(9) / 8).max(F);
            assert_eq!(
                mp_time_threshold_split(srtt, ewma, F).0,
                legacy,
                "srtt={srtt} ewma={ewma}"
            );
        }
    }
    assert_eq!(MP_PACKET_THRESHOLD, 3);
    assert_eq!(mp_time_threshold_split(80_000, 0, 0).0, 90_000);
}

#[test]
fn patience_floor_is_granularity_plus_measured_jitter() {
    assert_eq!(patience_floor_us(0, 0), NACK_RETX_COOLDOWN_FLOOR_US);
    assert_eq!(patience_floor_us(5_000, 0), NACK_RETX_COOLDOWN_FLOOR_US);
    assert_eq!(patience_floor_us(0, 9_000), TIMER_GRANULARITY_US);
    assert_eq!(patience_floor_us(300, 9_000), 1_300);
    assert_eq!(patience_floor_us(2_500, 9_000), 3_500);
    assert_eq!(patience_floor_us(10_000_000, 9_000), 10_000);
    let mut prev = 0;
    for j in (0..20_000).step_by(250) {
        let f = patience_floor_us(j, 40_000);
        assert!(f >= prev, "jitter={j}");
        prev = f;
    }
}

#[test]
fn derived_patience_hands_the_clock_back_to_the_path_below_the_crossover() {
    const F: u64 = NACK_RETX_COOLDOWN_FLOOR_US;
    assert_eq!(mp_time_threshold_split(8_888, 0, F), (F, true));
    assert_eq!(mp_time_threshold_split(8_889, 0, F), (10_000, false));
    assert_eq!(mp_time_threshold_split(8_890, 0, F), (10_001, false));

    let (srtt, jit) = (8_000u64, 400u64);
    assert_eq!(mp_time_threshold_split(srtt, 0, F), (F, true));
    let floor = patience_floor_us(jit, srtt);
    assert_eq!(floor, 1_400);
    assert_eq!(mp_time_threshold_split(srtt, 0, floor), (9_000, false));

    for srtt in [9_000u64, 12_000, 40_000] {
        let legacy = mp_time_threshold_split(srtt, 0, F).0;
        let derived = mp_time_threshold_split(srtt, 0, patience_floor_us(400, srtt)).0;
        assert_eq!(legacy, derived, "srtt={srtt} must be unaffected");
    }
}

#[test]
fn tail_sweep_srtt_fallback_is_inert_to_the_patience_floor() {
    let sweep = tail_sweep_timeout_us;
    assert_eq!(sweep(NACK_RETX_COOLDOWN_FLOOR_US), TAIL_SWEEP_MIN_US);
    assert_eq!(sweep(TIMER_GRANULARITY_US), TAIL_SWEEP_MIN_US);
    for f in [0u64, 1, 1_000, 1_400, 5_000, 10_000, 12_500] {
        assert_eq!(sweep(f), TAIL_SWEEP_MIN_US, "fallback {f} must be inert");
    }
    assert!(sweep(12_501) > TAIL_SWEEP_MIN_US);
}

#[test]
fn extracted_laws_are_identical_to_the_inline_expressions_they_replaced() {
    let times = [0u64, 1, 999, 1_000, 5_000, 9_999, 10_000, 11_250, 79_000, 177_750, 1 << 40];
    let clocks = [0u64, 1_000, 8_000, 10_000, 12_500, 40_000, 158_000, 200_000];

    for &now in &times {
        for &t in &times {
            for &thr in &clocks {
                assert_eq!(
                    time_threshold_ripe(now, Some(t), thr),
                    now.saturating_sub(t) >= thr,
                    "time_threshold_ripe({now},{t},{thr})"
                );
                assert_eq!(
                    cooldown_elapsed(now, t, thr),
                    !(now.saturating_sub(t) < thr),
                    "cooldown_elapsed({now},{t},{thr})"
                );
            }
            for &srtt in &clocks {
                assert_eq!(
                    legacy_age_ripe(now, t, srtt),
                    !(now.saturating_sub(t) < srtt / 2),
                    "legacy_age_ripe({now},{t},{srtt})"
                );
            }
        }
    }
    assert!(time_threshold_ripe(0, None, u64::MAX));
    for n in 0..4usize {
        for &thr in &clocks {
            let expect = n <= 1 || time_threshold_ripe(50_000, Some(0), thr);
            assert_eq!(mp_hole_ripe(n, 50_000, Some(0), thr), expect, "n={n} thr={thr}");
        }
    }

    assert_eq!(pooled_recovery_srtt_us(&[]), NACK_RETX_COOLDOWN_FLOOR_US);
    assert_eq!(pooled_recovery_srtt_us(&[8_000, 158_000, 12_000]), 158_000);
    for &s in &clocks {
        for &f in &clocks {
            assert_eq!(retx_cooldown_us(s, f), s.max(f));
        }
        assert_eq!(recovery_floor_us(false, 400, s), NACK_RETX_COOLDOWN_FLOOR_US);
        assert_eq!(recovery_floor_us(true, 400, s), patience_floor_us(400, s));
    }

    let hole_min = Duration::from_millis(HOLE_NACK_REFRESH_MIN_MS);
    let hole_max = Duration::from_millis(HOLE_NACK_REFRESH_MAX_MS);
    assert_eq!(hole_nack_refresh(None), hole_max);
    for ms in [0u64, 5, 10, 12, 13, 20, 50, 51, 200] {
        let s = Duration::from_millis(ms);
        assert_eq!(hole_nack_refresh(Some(s)), (s * 2).clamp(hole_min, hole_max));
    }
}

#[test]
fn patience_is_set_by_the_clock_argument_not_by_the_constants() {
    const RTPROP_US: u64 = 10_000;
    const APP_ECHO_US: u64 = 158_000;
    const WIRE_US: u64 = 14_000;

    let f = NACK_RETX_COOLDOWN_FLOOR_US;
    assert_eq!(mp_time_threshold_split(0, APP_ECHO_US, f).0, 177_750);
    assert_eq!(mp_time_threshold_split(0, WIRE_US, f).0, 15_750);
    assert_eq!(APP_ECHO_US / 2, 79_000);
    assert_eq!(WIRE_US / 2, 7_000);
    assert_eq!(retx_cooldown_us(APP_ECHO_US, f), APP_ECHO_US);
    assert_eq!(retx_cooldown_us(WIRE_US, f), WIRE_US);
    assert_eq!(tail_sweep_timeout_us(APP_ECHO_US), TAIL_SWEEP_MAX_US);
    assert_eq!(tail_sweep_timeout_us(WIRE_US), 28_000);
    assert_eq!(mp_time_threshold_split(0, APP_ECHO_US, f).0 / RTPROP_US, 17);
    assert_eq!(mp_time_threshold_split(0, WIRE_US, f).0 / RTPROP_US, 1);
    assert_eq!(
        mp_time_threshold_split(0, APP_ECHO_US, patience_floor_us(400, APP_ECHO_US)).0,
        mp_time_threshold_split(0, APP_ECHO_US, f).0
    );
}

#[test]
fn derived_stall_threshold_reproduces_the_legacy_3ms_where_they_coincide() {
    for evt in [0u64, 1, 10, 100, 500, 999, 1_000] {
        assert_eq!(
            stall_threshold_us(evt),
            3_000,
            "evt={evt} µs must reproduce the legacy constant exactly"
        );
    }
}

#[test]
fn derived_stall_threshold_scales_with_the_measured_event_interval() {
    assert_eq!(stall_threshold_us(2_000), 6_000);
    assert_eq!(stall_threshold_us(4_000), 12_000);
    let hole_min_us = Duration::from_millis(HOLE_NACK_REFRESH_MIN_MS).as_micros() as u64;
    assert_eq!(stall_threshold_us(100_000), hole_min_us);
    assert_eq!(stall_threshold_us(u64::MAX), hole_min_us);
    assert_eq!(hole_min_us, HOLE_NACK_REFRESH_MIN_US);
    let mut prev = 0;
    for evt in (0..60_000).step_by(97) {
        let t = stall_threshold_us(evt);
        assert!(t >= prev && t >= 3_000, "evt={evt}");
        prev = t;
    }
}

#[test]
fn derived_stall_gauge_can_only_ever_report_less_than_the_legacy_one() {
    let mut state = 0x9E3779B97F4A7C15u64;
    let mut next = || {
        state ^= state << 13;
        state ^= state >> 7;
        state ^= state << 17;
        state
    };
    for evt in [200u64, 1_000, 2_500, 6_000, 40_000] {
        let thr = stall_threshold_us(evt);
        assert!(thr >= 3_000);
        let (mut legacy_us, mut legacy_n) = (0u64, 0u64);
        let (mut derived_us, mut derived_n) = (0u64, 0u64);
        for _ in 0..20_000 {
            let gap = next() % 30_000;
            if gap >= 3_000 {
                legacy_us += gap;
                legacy_n += 1;
            }
            if gap >= thr {
                derived_us += gap;
                derived_n += 1;
            }
        }
        assert!(derived_us <= legacy_us, "evt={evt}");
        assert!(derived_n <= legacy_n, "evt={evt}");
    }
}

#[test]
fn mp_hole_law_suppresses_young_cross_path_flights_only() {
    let thr = 45_000u64;
    assert!(!mp_hole_ripe(2, 1_010_000, Some(1_000_000), thr));
    assert!(mp_hole_ripe(2, 1_045_000, Some(1_000_000), thr));
    assert!(!mp_hole_ripe(2, 1_044_999, Some(1_000_000), thr));
    assert!(mp_hole_ripe(1, 1_010_000, Some(1_000_000), thr));
    assert!(mp_hole_ripe(0, 1_010_000, Some(1_000_000), thr));
    assert!(mp_hole_ripe(2, 1_010_000, None, thr));
}

#[test]
fn mp_hole_law_clocks_the_live_flight_after_retransmit() {
    let thr_b = 45_000u64;
    let retx_at = 1_045_000u64;
    assert!(!mp_hole_ripe(2, retx_at + 1_000, Some(retx_at), thr_b));
    assert!(mp_hole_ripe(2, retx_at + thr_b, Some(retx_at), thr_b));
}

#[test]
fn ack_merge_off_emits_on_exactly_the_shipped_predicate() {
    for &adv in &[false, true] {
        for &gap in &[false, true] {
            let (emit, advertise) = window_ack_emission(adv, gap, false);
            assert_eq!(emit, adv || gap);
            assert_eq!(emit, advertise);
        }
    }
}

#[test]
fn ack_merge_on_emits_once_per_data_message() {
    for &adv in &[false, true] {
        for &gap in &[false, true] {
            let (emit, _) = window_ack_emission(adv, gap, true);
            assert!(emit);
        }
    }
}

#[test]
fn ack_merge_never_changes_what_the_ack_advertises() {
    for &adv in &[false, true] {
        for &gap in &[false, true] {
            let (_, off) = window_ack_emission(adv, gap, false);
            let (_, on) = window_ack_emission(adv, gap, true);
            assert_eq!(off, on);
        }
    }
    let (emit, advertise) = window_ack_emission(false, false, true);
    assert!(emit);
    assert!(!advertise);
}

#[test]
fn clamp_and_saturation_helpers_hit_their_edges() {
    assert_eq!(clamp_u64(5, 10, 20), 10);
    assert_eq!(clamp_u64(25, 10, 20), 20);
    assert_eq!(clamp_u64(15, 10, 20), 15);
    assert_eq!(saturating_mul_u64(u64::MAX, 2), u64::MAX);
    assert_eq!(saturating_mul_u64(7, 6), 42);
    assert_eq!(patience_floor_us(u64::MAX, u64::MAX), u64::MAX);
}
