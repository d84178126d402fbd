//! Recovery clocks: the RFC 9002 style time/packet thresholds, the derived
//! patience floor, the stall threshold and the per-seq cooldown laws.
//! All times are microseconds.

use vstd::prelude::*;

verus! {

/// Fallback per-seq retransmit cooldown when no SRTT sample exists (µs).
pub const NACK_RETX_COOLDOWN_FLOOR_US: u64 = 10_000;

/// The engine's timer granularity (µs), RFC 9002 kGranularity.
pub const TIMER_GRANULARITY_US: u64 = 1_000;

/// The sender loop's wake period (µs), the stall gauge's observation granularity.
pub const LOOP_WAKE_US: u64 = 1_000;

/// The legacy emission-gap stall constant (µs): three loop wakes.
pub const STALL_GAP_MIN_US: u64 = 3_000;

/// Lower clamp of the receiver hole-refresh cadence (ms).
pub const HOLE_NACK_REFRESH_MIN_MS: u64 = 25;

/// Upper clamp of the receiver hole-refresh cadence (ms).
pub const HOLE_NACK_REFRESH_MAX_MS: u64 = 100;

/// Lower clamp of the hole-refresh cadence in µs (the stall threshold ceiling).
pub const HOLE_NACK_REFRESH_MIN_US: u64 = 25_000;

/// Tail ARQ sweep timeout clamp, lower bound (µs).
pub const TAIL_SWEEP_MIN_US: u64 = 25_000;

/// Tail ARQ sweep timeout clamp, upper bound (µs).
pub const TAIL_SWEEP_MAX_US: u64 = 100_000;

/// RFC 9002 kPacketThreshold: same-path successors that declare a loss.
pub const MP_PACKET_THRESHOLD: usize = 3;

/// `a * b` saturated at `u64::MAX`.
pub open spec fn sat_mul(a: int, b: int) -> int {
    if a * b > u64::MAX { u64::MAX as int } else { a * b }
}

/// `a + b` saturated at `u64::MAX`.
pub open spec fn sat_add(a: int, b: int) -> int {
    if a + b > u64::MAX { u64::MAX as int } else { a + b }
}

/// `a - b` saturated at zero.
pub open spec fn sat_sub(a: int, b: int) -> int {
    if a >= b { a - b } else { 0 }
}

pub open spec fn min_int(a: int, b: int) -> int {
    if a <= b { a } else { b }
}

pub open spec fn max_int(a: int, b: int) -> int {
    if a >= b { a } else { b }
}

/// `v` clamped into `[lo, hi]` (with `lo <= hi`).
pub open spec fn clamp_int(v: int, lo: int, hi: int) -> int {
    if v < lo { lo } else if v > hi { hi } else { v }
}

/// `v.clamp(lo, hi)` for `lo <= hi` (the std clamp panics otherwise).
pub fn clamp_u64(v: u64, lo: u64, hi: u64) -> (r: u64)
    requires
        lo <= hi,
    ensures
        r == clamp_int(v as int, lo as int, hi as int),
{
    if v < lo {
        lo
    } else if v > hi {
        hi
    } else {
        v
    }
}

pub fn saturating_mul_u64(a: u64, b: u64) -> (r: u64)
    ensures
        r == sat_mul(a as int, b as int),
{
    match a.checked_mul(b) {
        Some(v) => v,
        None => u64::MAX,
    }
}

/// The derived recovery-patience floor: timer granularity plus the path's
/// own measured jitter (clamped at one srtt); the legacy floor when there is
/// no clock at all.
pub open spec fn patience_floor_spec(jitter_us: int, srtt_us: int) -> int {
    if srtt_us == 0 {
        NACK_RETX_COOLDOWN_FLOOR_US as int
    } else {
        sat_add(TIMER_GRANULARITY_US as int, min_int(jitter_us, srtt_us))
    }
}

pub fn patience_floor_us(jitter_us: u64, srtt_us: u64) -> (r: u64)
    ensures
        r == patience_floor_spec(jitter_us as int, srtt_us as int),
{
    if srtt_us == 0 {
        return NACK_RETX_COOLDOWN_FLOOR_US;
    }
    TIMER_GRANULARITY_US.saturating_add(jitter_us.min(srtt_us))
}

/// The derived stall threshold: `3 * max(evt, loop wake)`, clamped to
/// `[3 ms, HOLE_NACK_REFRESH_MIN]`.
pub open spec fn stall_threshold_spec(evt_us: int) -> int {
    clamp_int(
        sat_mul(max_int(evt_us, LOOP_WAKE_US as int), (STALL_GAP_MIN_US / LOOP_WAKE_US) as int),
        STALL_GAP_MIN_US as int,
        HOLE_NACK_REFRESH_MIN_US as int,
    )
}

pub fn stall_threshold_us(evt_us: u64) -> (r: u64)
    ensures
        r == stall_threshold_spec(evt_us as int),
        STALL_GAP_MIN_US <= r <= HOLE_NACK_REFRESH_MIN_US,
        evt_us <= LOOP_WAKE_US ==> r == STALL_GAP_MIN_US,
{
    let nominal = evt_us.max(LOOP_WAKE_US);
    clamp_u64(
        saturating_mul_u64(nominal, STALL_GAP_MIN_US / LOOP_WAKE_US),
        STALL_GAP_MIN_US,
        HOLE_NACK_REFRESH_MIN_US,
    )
}

/// RFC 9002 §6.1.2 time threshold: 9/8 of the larger smoothed clock, floored
/// at `floor_us`; the flag says whether the floor won.
pub open spec fn mp_time_clock_spec(srtt_us: int, ewma_rtt_us: int) -> int {
    sat_mul(max_int(srtt_us, ewma_rtt_us), 9) / 8
}

pub fn mp_time_threshold_split(srtt_us: u64, ewma_rtt_us: u64, floor_us: u64) -> (r: (u64, bool))
    ensures
        r.1 == (mp_time_clock_spec(srtt_us as int, ewma_rtt_us as int) < floor_us),
        r.0 == max_int(mp_time_clock_spec(srtt_us as int, ewma_rtt_us as int), floor_us as int),
{
    let s = srtt_us.max(ewma_rtt_us);
    let clock = saturating_mul_u64(s, 9) / 8;
    if clock >= floor_us {
        (clock, false)
    } else {
        (floor_us, true)
    }
}

/// Ripeness of one flight: an unknown flight is ripe, a known one once its
/// age reaches the threshold.
pub open spec fn time_threshold_ripe_spec(now_us: int, flight_send_us: Option<u64>, threshold_us: int) -> bool {
    match flight_send_us {
        None => true,
        Some(t) => sat_sub(now_us, t as int) >= threshold_us,
    }
}

pub fn time_threshold_ripe(now_us: u64, flight_send_us: Option<u64>, threshold_us: u64) -> (r: bool)
    ensures
        r == time_threshold_ripe_spec(now_us as int, flight_send_us, threshold_us as int),
{
    match flight_send_us {
        None => true,
        Some(t) => now_us.saturating_sub(t) >= threshold_us,
    }
}

/// The skew-aware hole law: inert on a single path, the time threshold otherwise.
pub fn mp_hole_ripe(n_live_paths: usize, now_us: u64, flight_send_us: Option<u64>, threshold_us: u64) -> (r: bool)
    ensures
        r == (n_live_paths <= 1 || time_threshold_ripe_spec(now_us as int, flight_send_us, threshold_us as int)),
{
    if n_live_paths <= 1 {
        return true;
    }
    time_threshold_ripe(now_us, flight_send_us, threshold_us)
}

/// The legacy age gate: the original send is at least half the pooled clock old.
pub fn legacy_age_ripe(now_us: u64, send_time_us: u64, srtt_us: u64) -> (r: bool)
    ensures
        r == (sat_sub(now_us as int, send_time_us as int) >= srtt_us / 2),
{
    now_us.saturating_sub(send_time_us) >= srtt_us / 2
}

/// Has a seq's per-seq retransmit cooldown elapsed?
pub fn cooldown_elapsed(now_us: u64, last_retx_us: u64, cooldown_us: u64) -> (r: bool)
    ensures
        r == (sat_sub(now_us as int, last_retx_us as int) >= cooldown_us),
{
    now_us.saturating_sub(last_retx_us) >= cooldown_us
}

/// The per-seq retransmit cooldown clock: the pooled srtt, floored.
pub fn retx_cooldown_us(srtt_us: u64, floor_us: u64) -> (r: u64)
    ensures
        r == max_int(srtt_us as int, floor_us as int),
{
    srtt_us.max(floor_us)
}

/// The kGranularity analog: the derived floor when armed, the legacy literal otherwise.
pub fn recovery_floor_us(patience_derived: bool, jitter_us: u64, srtt_us: u64) -> (r: u64)
    ensures
        r == (if patience_derived {
            patience_floor_spec(jitter_us as int, srtt_us as int)
        } else {
            NACK_RETX_COOLDOWN_FLOOR_US as int
        }),
{
    if patience_derived {
        patience_floor_us(jitter_us, srtt_us)
    } else {
        NACK_RETX_COOLDOWN_FLOOR_US
    }
}

/// Tail-sweep timeout: `2 * srtt` clamped to `[25 ms, 100 ms]`.
pub fn tail_sweep_timeout_us(srtt_us: u64) -> (r: u64)
    ensures
        r == clamp_int(sat_mul(srtt_us as int, 2), TAIL_SWEEP_MIN_US as int, TAIL_SWEEP_MAX_US as int),
{
    clamp_u64(saturating_mul_u64(srtt_us, 2), TAIL_SWEEP_MIN_US, TAIL_SWEEP_MAX_US)
}

/// The shed law is armed only on the unified realtime EVICT path with its gate on.
pub fn shed_armed(unified_on: bool, reliable: bool, gate: bool) -> (r: bool)
    ensures
        r == (unified_on && !reliable && gate),
{
    unified_on && !reliable && gate
}

/// The WindowAck emission decision `(emit, advertise)`: advertise on the
/// shipped predicate; emit on it, or always under ack-merge.
pub open spec fn ack_emission(cumulative_advanced: bool, gap_report_due: bool, ack_merge: bool) -> (bool, bool) {
    ((cumulative_advanced || gap_report_due) || ack_merge, cumulative_advanced || gap_report_due)
}

/// The receiver's WindowAck emission decision `(emit, advertise)`.
pub fn window_ack_emission(cumulative_advanced: bool, gap_report_due: bool, ack_merge: bool) -> (r: (bool, bool))
    ensures
        r == ack_emission(cumulative_advanced, gap_report_due, ack_merge),
{
    let advertise = cumulative_advanced || gap_report_due;
    (advertise || ack_merge, advertise)
}

/// Ack-merge changes only whether an ack datagram goes out, never what it
/// advertises; with the merge on, one always goes out.
pub proof fn ack_merge_never_changes_the_advertisement(cumulative_advanced: bool, gap_report_due: bool)
    ensures
        ack_emission(cumulative_advanced, gap_report_due, true).1 == ack_emission(
            cumulative_advanced,
            gap_report_due,
            false,
        ).1,
        ack_emission(cumulative_advanced, gap_report_due, true).0,
        ack_emission(cumulative_advanced, gap_report_due, false).0 == ack_emission(
            cumulative_advanced,
            gap_report_due,
            false,
        ).1,
{
}

/// The derived patience floor is monotone non-decreasing in the measured
/// jitter at a fixed srtt.
pub proof fn patience_floor_monotone_in_jitter(jitter_lo: u64, jitter_hi: u64, srtt_us: u64)
    requires
        jitter_lo <= jitter_hi,
    ensures
        patience_floor_spec(jitter_lo as int, srtt_us as int) <= patience_floor_spec(jitter_hi as int, srtt_us as int),
{
}

/// Above the crossover (the 9/8 clock already at or past the legacy floor)
/// the derived floor changes nothing: the floor never caps the clock.
/// Stated where the 9/8 product does not saturate.
pub proof fn derived_floor_is_inert_above_the_crossover(srtt_us: u64, ewma_rtt_us: u64, jitter_us: u64)
    requires
        max_int(srtt_us as int, ewma_rtt_us as int) * 9 <= u64::MAX,
        mp_time_clock_spec(srtt_us as int, ewma_rtt_us as int) >= NACK_RETX_COOLDOWN_FLOOR_US,
    ensures
        max_int(
            mp_time_clock_spec(srtt_us as int, ewma_rtt_us as int),
            patience_floor_spec(jitter_us as int, srtt_us as int),
        ) == mp_time_clock_spec(srtt_us as int, ewma_rtt_us as int),
        max_int(
            mp_time_clock_spec(srtt_us as int, ewma_rtt_us as int),
            NACK_RETX_COOLDOWN_FLOOR_US as int,
        ) == mp_time_clock_spec(srtt_us as int, ewma_rtt_us as int),
{
    let m = max_int(srtt_us as int, ewma_rtt_us as int);
    assert(mp_time_clock_spec(srtt_us as int, ewma_rtt_us as int) == m * 9 / 8);
    if srtt_us > 8_889 {
        assert(srtt_us * 9 / 8 >= srtt_us + 1_000);
        assert(m * 9 / 8 >= srtt_us * 9 / 8) by (nonlinear_arith)
            requires
                m >= srtt_us,
        ;
    }
}

/// The tail-sweep srtt fallback is inert for every value up to 12.5 ms: the
/// `[25 ms, 100 ms]` clamp reads its floor.
pub proof fn tail_sweep_is_inert_up_to_half_its_floor(srtt_us: u64)
    requires
        srtt_us <= TAIL_SWEEP_MIN_US / 2,
    ensures
        clamp_int(sat_mul(srtt_us as int, 2), TAIL_SWEEP_MIN_US as int, TAIL_SWEEP_MAX_US as int) == TAIL_SWEEP_MIN_US,
{
}

/// The derived stall threshold is monotone non-decreasing in the measured
/// event interval and never below the legacy 3 ms.
pub proof fn stall_threshold_monotone(evt_lo: u64, evt_hi: u64)
    requires
        evt_lo <= evt_hi,
    ensures
        stall_threshold_spec(evt_lo as int) <= stall_threshold_spec(evt_hi as int),
        STALL_GAP_MIN_US <= stall_threshold_spec(evt_lo as int),
{
}

/// The stall events of a gap trace at threshold `thr`: how many gaps reach
/// it, and their total.
pub open spec fn stall_events(gaps: Seq<u64>, thr: int) -> (nat, nat)
    decreases gaps.len(),
{
    if gaps.len() == 0 {
        (0, 0)
    } else {
        let prev = stall_events(gaps.drop_last(), thr);
        if gaps.last() >= thr { (prev.0 + 1, prev.1 + gaps.last() as nat) } else { prev }
    }
}

/// A higher threshold counts no more stall events, and no more stall time.
pub proof fn stall_events_antitone(gaps: Seq<u64>, lo: int, hi: int)
    requires
        lo <= hi,
    ensures
        stall_events(gaps, hi).0 <= stall_events(gaps, lo).0,
        stall_events(gaps, hi).1 <= stall_events(gaps, lo).1,
    decreases gaps.len(),
{
    if gaps.len() > 0 {
        stall_events_antitone(gaps.drop_last(), lo, hi);
    }
}

/// Over any gap trace, the derived stall gauge reports no more stalls and no
/// more stall time than the legacy 3 ms gauge.
pub proof fn derived_stall_gauge_never_exceeds_the_legacy_one(gaps: Seq<u64>, evt_us: u64)
    ensures
        stall_events(gaps, stall_threshold_spec(evt_us as int)).0 <= stall_events(gaps, STALL_GAP_MIN_US as int).0,
        stall_events(gaps, stall_threshold_spec(evt_us as int)).1 <= stall_events(gaps, STALL_GAP_MIN_US as int).1,
{
    stall_events_antitone(gaps, STALL_GAP_MIN_US as int, stall_threshold_spec(evt_us as int));
}

} // verus!
