//! Time-span laws on `std::time::Duration` / `Instant`: the receiver's
//! hole-refresh cadence and in-order hold.

use crate::patience::{HOLE_NACK_REFRESH_MAX_MS, HOLE_NACK_REFRESH_MIN_MS};
use std::time::{Duration, Instant};
use vstd::prelude::*;

verus! {

#[verifier::external_type_specification]
#[verifier::external_body]
pub struct ExInstant(Instant);

/// Nanoseconds in one millisecond.
pub const NANOS_PER_MILLI: u64 = 1_000_000;

/// The largest number of nanoseconds a `Duration` holds (`Duration::MAX`).
pub open spec fn duration_max_nanos() -> int {
    u64::MAX as int * 1_000_000_000 + 999_999_999
}

/// What `Duration::as_nanos` returns: the whole nanoseconds of the span.
pub uninterp spec fn duration_nanos(d: Duration) -> nat;

/// What `Instant::saturating_duration_since(later, earlier)` returns.
pub uninterp spec fn instant_since(later: Instant, earlier: Instant) -> Duration;

/// `Duration::as_nanos`: the total whole nanoseconds, at most `Duration::MAX`.
#[verifier::external_body]
pub(crate) fn duration_as_nanos(d: &Duration) -> (n: u128)
    ensures
        n == duration_nanos(*d),
        n <= duration_max_nanos(),
{
    d.as_nanos()
}

/// The whole nanoseconds of a span, as the contracts of this module read it.
pub fn duration_nanos_of(d: &Duration) -> (n: u128)
    ensures
        n == duration_nanos(*d),
{
    duration_as_nanos(d)
}

/// The hole-refresh cadence for an srtt of any size: `None` when doubling
/// the srtt would overflow a `Duration`.
pub fn hole_nack_refresh_checked(srtt: Option<Duration>) -> (r: Option<Duration>)
    ensures
        (srtt matches Some(s) && duration_nanos(s) * 2 > duration_max_nanos()) <==> r is None,
        r matches Some(d) ==> duration_nanos(d) == match srtt {
            Some(s) => clamp_nat(
                duration_nanos(s) as int * 2,
                HOLE_NACK_REFRESH_MIN_MS as int * NANOS_PER_MILLI as int,
                HOLE_NACK_REFRESH_MAX_MS as int * NANOS_PER_MILLI as int,
            ),
            None => HOLE_NACK_REFRESH_MAX_MS as int * NANOS_PER_MILLI as int,
        },
{
    match srtt {
        Some(s) => {
            let n = duration_as_nanos(&s);
            let max: u128 = (u64::MAX as u128) * 1_000_000_000 + 999_999_999;
            if n > max / 2 {
                None
            } else {
                Some(hole_nack_refresh(srtt))
            }
        },
        None => Some(hole_nack_refresh(None)),
    }
}

/// `Duration::from_millis`: a span of exactly `ms` milliseconds.
#[verifier::external_body]
pub(crate) fn duration_from_millis(ms: u64) -> (d: Duration)
    ensures
        duration_nanos(d) == ms as int * NANOS_PER_MILLI as int,
{
    Duration::from_millis(ms)
}

/// `Duration * u32`: the span scaled by `k` (std panics past `Duration::MAX`).
#[verifier::external_body]
fn duration_mul(d: Duration, k: u32) -> (r: Duration)
    requires
        duration_nanos(d) * k <= duration_max_nanos(),
    ensures
        duration_nanos(r) == duration_nanos(d) * k,
{
    d * k
}

/// `Duration / 2`: half the span, rounded down to the nanosecond.
#[verifier::external_body]
fn duration_half(d: Duration) -> (r: Duration)
    ensures
        duration_nanos(r) == duration_nanos(d) / 2,
{
    d / 2
}

/// `Instant::saturating_duration_since`: the span from `earlier` to `later`
/// (zero when `earlier` is later); an instant is no time after itself.
#[verifier::external_body]
pub(crate) fn instant_saturating_since(later: Instant, earlier: Instant) -> (r: Duration)
    ensures
        r == instant_since(later, earlier),
        later == earlier ==> duration_nanos(r) == 0,
{
    later.saturating_duration_since(earlier)
}

/// `v` clamped into `[lo, hi]` by nanoseconds.
fn duration_clamp(v: Duration, lo: Duration, hi: Duration) -> (r: Duration)
    requires
        duration_nanos(lo) <= duration_nanos(hi),
    ensures
        duration_nanos(r) == if duration_nanos(v) < duration_nanos(lo) {
            duration_nanos(lo)
        } else if duration_nanos(v) > duration_nanos(hi) {
            duration_nanos(hi)
        } else {
            duration_nanos(v)
        },
{
    let n = duration_as_nanos(&v);
    if n < duration_as_nanos(&lo) {
        lo
    } else if n > duration_as_nanos(&hi) {
        hi
    } else {
        v
    }
}

/// `v` clamped into `[lo, hi]`.
pub open spec fn clamp_nat(v: int, lo: int, hi: int) -> int {
    if v < lo { lo } else if v > hi { hi } else { v }
}

/// Receiver hole-refresh cadence: `2 * srtt` clamped to `[25 ms, 100 ms]`,
/// the maximum when no path clock exists yet.
pub fn hole_nack_refresh(srtt: Option<Duration>) -> (r: Duration)
    requires
        srtt matches Some(s) ==> duration_nanos(s) * 2 <= duration_max_nanos(),
    ensures
        duration_nanos(r) == match srtt {
            Some(s) => clamp_nat(
                duration_nanos(s) as int * 2,
                HOLE_NACK_REFRESH_MIN_MS as int * NANOS_PER_MILLI as int,
                HOLE_NACK_REFRESH_MAX_MS as int * NANOS_PER_MILLI as int,
            ),
            None => HOLE_NACK_REFRESH_MAX_MS as int * NANOS_PER_MILLI as int,
        },
{
    match srtt {
        Some(s) => duration_clamp(
            duration_mul(s, 2),
            duration_from_millis(HOLE_NACK_REFRESH_MIN_MS),
            duration_from_millis(HOLE_NACK_REFRESH_MAX_MS),
        ),
        None => duration_from_millis(HOLE_NACK_REFRESH_MAX_MS),
    }
}

/// Lower clamp of the legacy in-order hold (ms).
pub const BLOCK_REORDER_MIN_HOLD_MS: u64 = 60;

/// Upper clamp of the legacy in-order hold (ms).
pub const BLOCK_REORDER_MAX_HOLD_MS: u64 = 300;

/// Receiver in-order hold on the window EVICT path: `srtt / 2` under the
/// shed law with its budget open, else the legacy `4 * srtt` clamped to
/// `[60 ms, 300 ms]`.
pub fn shed_recv_hold(srtt: Duration, shed_on: bool, budget_ok: bool) -> (r: Duration)
    requires
        !(shed_on && budget_ok) ==> duration_nanos(srtt) * 4 <= duration_max_nanos(),
    ensures
        duration_nanos(r) == if shed_on && budget_ok {
            duration_nanos(srtt) as int / 2
        } else {
            clamp_nat(
                duration_nanos(srtt) as int * 4,
                BLOCK_REORDER_MIN_HOLD_MS as int * NANOS_PER_MILLI as int,
                BLOCK_REORDER_MAX_HOLD_MS as int * NANOS_PER_MILLI as int,
            )
        },
{
    if shed_on && budget_ok {
        duration_half(srtt)
    } else {
        duration_clamp(
            duration_mul(srtt, 4),
            duration_from_millis(BLOCK_REORDER_MIN_HOLD_MS),
            duration_from_millis(BLOCK_REORDER_MAX_HOLD_MS),
        )
    }
}

/// The in-order hold for an srtt of any size: `None` when the legacy
/// `4 * srtt` would overflow a `Duration`.
pub fn shed_recv_hold_checked(srtt: Duration, shed_on: bool, budget_ok: bool) -> (r: Option<Duration>)
    ensures
        (!(shed_on && budget_ok) && duration_nanos(srtt) * 4 > duration_max_nanos()) <==> r is None,
        r matches Some(d) ==> duration_nanos(d) == if shed_on && budget_ok {
            duration_nanos(srtt) as int / 2
        } else {
            clamp_nat(
                duration_nanos(srtt) as int * 4,
                BLOCK_REORDER_MIN_HOLD_MS as int * NANOS_PER_MILLI as int,
                BLOCK_REORDER_MAX_HOLD_MS as int * NANOS_PER_MILLI as int,
            )
        },
{
    let n = duration_as_nanos(&srtt);
    let max: u128 = (u64::MAX as u128) * 1_000_000_000 + 999_999_999;
    if !(shed_on && budget_ok) && n > max / 4 {
        None
    } else {
        Some(shed_recv_hold(srtt, shed_on, budget_ok))
    }
}

} // verus!
