//! Receiver gap reports and SACK ranges, and the sender's inversion of SACK
//! ranges back into missing-seq gaps.

use crate::runs::{
    cover_set, covered, in_run, lemma_runs_capped_unique, lemma_runs_empty_window,
    lemma_runs_exact_exist, lemma_runs_exact_take, lemma_runs_exact_unique, present, runs_exact,
    runs_capped, runs_complete_upto, runs_sound,
};
use crate::collections::btree_set_range;
use std::collections::BTreeSet;
use vstd::prelude::*;

verus! {

broadcast use vstd::std_specs::btree::group_btree_axioms;

/// Maximum number of gap ranges in one gap report.
pub const MAX_NACK_GAPS: usize = 20;

/// Maximum repair symbols generated per NACK received.
pub const MAX_NACK_REPAIRS_PER_NACK: usize = 10;

/// The gap report of `received` over `[ws, we]`: its first
/// `MAX_NACK_GAPS` maximal missing runs, ascending.
pub open spec fn gap_ranges_spec(received: Set<u64>, ws: int, we: int) -> Seq<(u64, u64)> {
    choose|r: Seq<(u64, u64)>| runs_capped(r, received, ws, we, MAX_NACK_GAPS as int)
}

/// A list satisfying the gap-report characterization is the gap report.
pub proof fn lemma_gap_ranges_spec_is(r: Seq<(u64, u64)>, received: Set<u64>, ws: int, we: int)
    requires
        runs_capped(r, received, ws, we, MAX_NACK_GAPS as int),
    ensures
        gap_ranges_spec(received, ws, we) == r,
{
    let c = gap_ranges_spec(received, ws, we);
    assert(runs_capped(c, received, ws, we, MAX_NACK_GAPS as int));
    assert forall|x: int| ws <= x <= we implies present(received, x) == present(received, x) by {}
    lemma_runs_capped_unique(c, r, received, received, ws, we, MAX_NACK_GAPS as int);
}

/// The gap report exists and is characterized by `runs_capped` for every
/// window inside the u64 range.
pub proof fn lemma_gap_ranges_spec_capped(received: Set<u64>, ws: int, we: int)
    requires
        0 <= ws,
        we <= u64::MAX,
    ensures
        runs_capped(gap_ranges_spec(received, ws, we), received, ws, we, MAX_NACK_GAPS as int),
{
    let full = lemma_runs_exact_exist(received, ws, we);
    lemma_runs_exact_take(full, received, ws, we, MAX_NACK_GAPS as int);
    let n = if full.len() < MAX_NACK_GAPS as int { full.len() as int } else { MAX_NACK_GAPS as int };
    lemma_gap_ranges_spec_is(full.take(n), received, ws, we);
}

/// Compute gap ranges from a set of received sequences in a window: the
/// inclusive ranges of missing seqs of `[window_start, window_end]`, at most
/// `MAX_NACK_GAPS` of them, lowest first.
pub fn compute_gap_ranges(received: &BTreeSet<u64>, window_start: u64, window_end: u64) -> (gaps: Vec<(u64, u64)>)
    requires
        window_start <= window_end,
        window_end < u64::MAX || !received@.contains(u64::MAX),
    ensures
        runs_capped(gaps@, received@, window_start as int, window_end as int, MAX_NACK_GAPS as int),
        gaps@ == gap_ranges_spec(received@, window_start as int, window_end as int),
{
    let ghost s = received@;
    let ghost ws = window_start as int;
    let ghost we = window_end as int;
    let seqs = btree_set_range(received, window_start, window_end);
    let mut gaps: Vec<(u64, u64)> = Vec::new();
    let mut expected = window_start;
    let mut i: usize = 0;
    while i < seqs.len()
        invariant
            0 <= i <= seqs.len(),
            forall|a: int, b: int| 0 <= a < b < seqs.len() ==> seqs[a] < seqs[b],
            forall|x: u64| #[trigger] seqs@.contains(x) <==> (s.contains(x) && window_start <= x <= window_end),
            window_end < u64::MAX || !s.contains(u64::MAX),
            s == received@,
            ws == window_start,
            we == window_end,
            window_start <= window_end,
            window_start <= expected,
            i == 0 ==> expected == window_start,
            i > 0 ==> expected == seqs[i - 1] + 1,
            gaps.len() < MAX_NACK_GAPS,
            runs_sound(gaps@, s, ws, we),
            forall|k: int| 0 <= k < gaps.len() ==> (#[trigger] gaps@[k]).1 + 1 < expected,
            runs_complete_upto(gaps@, s, ws, expected - 1),
        decreases seqs.len() - i,
    {
        let seq = seqs[i];
        assert(seqs@.contains(seq));
        if i > 0 {
            assert(seqs[i - 1] < seqs[i as int]);
        }
        let ghost old_gaps = gaps@;
        let ghost old_expected = expected as int;
        // Every seq of [expected, seq) is missing: the range holds no seq
        // strictly between its consecutive elements.
        assert forall|x: int| old_expected <= x < seq implies !present(s, x) by {
            if present(s, x) {
                assert(seqs@.contains(x as u64));
                let j = seqs@.index_of(x as u64);
                if j < i {
                    if j < i - 1 {
                        assert(seqs[j] < seqs[i - 1]);
                    }
                } else if j > i {
                    assert(seqs[i as int] < seqs[j]);
                }
            }
        }
        if seq > expected {
            gaps.push((expected, seq - 1));
            assert(gaps@ == old_gaps.push((old_expected as u64, (seq - 1) as u64)));
            let ghost n = gaps.len() as int;
            assert forall|a: int, b: int| 0 <= a < b < n implies (#[trigger] gaps@[a]).1 + 1 < (#[trigger] gaps@[b]).0 by {
                if b == n - 1 {
                    assert(old_gaps[a].1 + 1 < old_expected);
                } else {
                    assert(old_gaps[a].1 + 1 < old_gaps[b].0);
                }
            }
            assert forall|k: int, x: int| #[trigger] in_run(gaps@, k, x) implies !present(s, x) by {
                if k < n - 1 {
                    assert(in_run(old_gaps, k, x));
                }
            }
            assert forall|x: int|
                #![trigger present(s, x)]
                #![trigger covered(gaps@, x)]
                ws <= x <= seq - 1 && !present(s, x) implies covered(gaps@, x) by {
                if x < old_expected {
                    assert(covered(old_gaps, x));
                    let k = choose|k: int| #[trigger] in_run(old_gaps, k, x);
                    assert(in_run(gaps@, k, x));
                } else {
                    assert(in_run(gaps@, n - 1, x));
                }
            }
            if gaps.len() >= MAX_NACK_GAPS {
                assert(present(s, seq as int));
                proof {
                    lemma_gap_ranges_spec_is(gaps@, s, ws, we);
                }
                return gaps;
            }
        }
        assert(seq < u64::MAX);
        expected = seq + 1;
        assert forall|x: int|
            #![trigger present(s, x)]
            #![trigger covered(gaps@, x)]
            ws <= x <= expected - 1 && !present(s, x) implies covered(gaps@, x) by {
            if x < old_expected {
                assert(covered(old_gaps, x));
                let k = choose|k: int| #[trigger] in_run(old_gaps, k, x);
                assert(in_run(gaps@, k, x));
            } else {
                assert(x < seq);
                assert(in_run(gaps@, gaps.len() - 1, x));
            }
        }
        i += 1;
    }
    // Past the last held seq nothing of the window is present.
    assert forall|x: int| expected <= x <= we implies !present(s, x) by {
        if present(s, x) {
            assert(seqs@.contains(x as u64));
            let j = seqs@.index_of(x as u64);
            if j < i - 1 {
                assert(seqs[j] < seqs[i - 1]);
            }
        }
    }
    if expected <= window_end && gaps.len() < MAX_NACK_GAPS {
        let ghost old_gaps = gaps@;
        gaps.push((expected, window_end));
        let ghost n = gaps.len() as int;
        assert forall|a: int, b: int| 0 <= a < b < n implies (#[trigger] gaps@[a]).1 + 1 < (#[trigger] gaps@[b]).0 by {
            if b == n - 1 {
                assert(old_gaps[a].1 + 1 < expected);
            } else {
                assert(old_gaps[a].1 + 1 < old_gaps[b].0);
            }
        }
        assert forall|k: int, x: int| #[trigger] in_run(gaps@, k, x) implies !present(s, x) by {
            if k < n - 1 {
                assert(in_run(old_gaps, k, x));
            }
        }
        assert forall|x: int|
            #![trigger present(s, x)]
            #![trigger covered(gaps@, x)]
            ws <= x <= we && !present(s, x) implies covered(gaps@, x) by {
            if x < expected {
                assert(covered(old_gaps, x));
                let k = choose|k: int| #[trigger] in_run(old_gaps, k, x);
                assert(in_run(gaps@, k, x));
            } else {
                assert(in_run(gaps@, n - 1, x));
            }
        }
    }
    proof {
        lemma_gap_ranges_spec_is(gaps@, s, ws, we);
    }
    gaps
}

} // verus!

verus! {

/// The sender's SACK inversion scan after the first `n` ranges:
/// `(expected, gaps)`, where `expected` is the lowest seq not yet proven
/// delivered and `gaps` the missing runs found so far (frozen once full).
pub open spec fn sack_scan(received_up_to: u64, ranges: Seq<(u64, u64)>, n: int) -> (int, Seq<(u64, u64)>)
    decreases n,
{
    if n <= 0 {
        (received_up_to + 1, Seq::empty())
    } else {
        let (e, g) = sack_scan(received_up_to, ranges, n - 1);
        if g.len() >= MAX_NACK_GAPS {
            (e, g)
        } else {
            let (start, end) = ranges[n - 1];
            let g2 = if start > e { g.push((e as u64, (start - 1) as u64)) } else { g };
            let next = if end == u64::MAX { end as int } else { end as int + 1 };
            let e2 = if next > e { next } else { e };
            (e2, g2)
        }
    }
}

/// The gaps the sender derives from a cumulative point and SACK ranges.
pub open spec fn sack_to_gaps_spec(received_up_to: u64, ranges: Seq<(u64, u64)>) -> Seq<(u64, u64)> {
    sack_scan(received_up_to, ranges, ranges.len() as int).1
}

/// SACK ranges as documented: non-empty, ascending, disjoint, all above the
/// cumulative point.
pub open spec fn sack_ranges_wf(received_up_to: u64, ranges: Seq<(u64, u64)>) -> bool {
    &&& forall|i: int| 0 <= i < ranges.len() ==> (#[trigger] ranges[i]).0 <= ranges[i].1
    &&& forall|i: int, j: int| 0 <= i < j < ranges.len() ==> (#[trigger] ranges[i]).1 < (#[trigger] ranges[j]).0
    &&& ranges.len() > 0 ==> received_up_to < ranges[0].0
}

proof fn lemma_sack_scan_len(received_up_to: u64, ranges: Seq<(u64, u64)>, n: int)
    ensures
        sack_scan(received_up_to, ranges, n).1.len() <= MAX_NACK_GAPS,
        received_up_to + 1 <= sack_scan(received_up_to, ranges, n).0,
    decreases n,
{
    if n > 0 {
        lemma_sack_scan_len(received_up_to, ranges, n - 1);
    }
}

/// The highest seq the first `n` ranges reach (the cumulative point for `n == 0`).
pub open spec fn sack_reach(d: u64, ranges: Seq<(u64, u64)>, n: int) -> int {
    if n <= 0 { d as int } else { ranges[n - 1].1 as int }
}

proof fn lemma_sack_scan_runs(d: u64, ranges: Seq<(u64, u64)>, n: int)
    requires
        sack_ranges_wf(d, ranges),
        0 <= n <= ranges.len(),
        d < u64::MAX,
    ensures
        ({
            let (e, g) = sack_scan(d, ranges, n);
            let cov = cover_set(ranges);
            let hi = sack_reach(d, ranges, n);
            &&& g.len() <= MAX_NACK_GAPS
            &&& g.len() < MAX_NACK_GAPS ==> e == hi + 1 || (hi == u64::MAX && e == hi)
            &&& runs_sound(g, cov, d + 1, hi)
            &&& forall|k: int| 0 <= k < g.len() ==> (#[trigger] g[k]).1 < hi
            &&& g.len() < MAX_NACK_GAPS ==> runs_complete_upto(g, cov, d + 1, hi)
            &&& g.len() == MAX_NACK_GAPS ==> runs_complete_upto(g, cov, d + 1, g.last().1 as int)
                && present(cov, g.last().1 + 1)
        }),
    decreases n,
{
    let cov = cover_set(ranges);
    if n > 0 {
        lemma_sack_scan_runs(d, ranges, n - 1);
        let (e, g) = sack_scan(d, ranges, n - 1);
        let hi0 = sack_reach(d, ranges, n - 1);
        let (start, end) = ranges[n - 1];
        if n > 1 {
            assert(ranges[n - 2].1 < ranges[n - 1].0);
        }
        assert(hi0 < start);
        if g.len() < MAX_NACK_GAPS {
            assert(e == hi0 + 1);
            let (e2, g2) = sack_scan(d, ranges, n);
            // Seqs of [e, start) lie in no SACK range.
            assert forall|x: int| e <= x < start implies !present(cov, x) by {
                if covered(ranges, x) {
                    let k = choose|k: int| #[trigger] in_run(ranges, k, x);
                    if k < n - 1 {
                        if k < n - 2 {
                            assert(ranges[k].1 < ranges[n - 2].0);
                        }
                    } else if k > n - 1 {
                        assert(ranges[n - 1].1 < ranges[k].0);
                    }
                }
            }
            // Seqs of [start, end] are in range n - 1.
            assert forall|x: int| start <= x <= end implies present(cov, x) by {
                assert(in_run(ranges, n - 1, x));
            }
            if start > e {
                let m = g2.len() as int;
                assert(g2 == g.push((e as u64, (start - 1) as u64)));
                assert forall|a: int, b: int| 0 <= a < b < m implies (#[trigger] g2[a]).1 + 1 < (#[trigger] g2[b]).0 by {
                    if b == m - 1 {
                        assert(g[a].1 < hi0);
                    } else {
                        assert(g[a].1 + 1 < g[b].0);
                    }
                }
                assert forall|k: int, x: int| #[trigger] in_run(g2, k, x) implies !present(cov, x) by {
                    if k < m - 1 {
                        assert(in_run(g, k, x));
                    }
                }
                assert forall|x: int|
                    #![trigger present(cov, x)]
                    #![trigger covered(g2, x)]
                    d + 1 <= x <= start - 1 && !present(cov, x) implies covered(g2, x) by {
                    if x < e {
                        assert(covered(g, x));
                        let k = choose|k: int| #[trigger] in_run(g, k, x);
                        assert(in_run(g2, k, x));
                    } else {
                        assert(in_run(g2, m - 1, x));
                    }
                }
            }
            assert forall|x: int|
                #![trigger present(cov, x)]
                #![trigger covered(g2, x)]
                d + 1 <= x <= end && !present(cov, x) implies covered(g2, x) by {
                if x < e {
                    assert(covered(g, x));
                    let k = choose|k: int| #[trigger] in_run(g, k, x);
                    assert(in_run(g2, k, x));
                } else {
                    assert(x < start);
                    assert(in_run(g2, g2.len() - 1, x));
                }
            }
        }
    }
}

/// Well-formed SACK ranges invert into the maximal runs of seqs above the
/// cumulative point, up to the last SACKed seq, that no range holds.
pub proof fn lemma_sack_to_gaps_runs(d: u64, ranges: Seq<(u64, u64)>)
    requires
        sack_ranges_wf(d, ranges),
        ranges.len() > 0,
        d < u64::MAX,
    ensures
        runs_capped(sack_to_gaps_spec(d, ranges), cover_set(ranges), d + 1, ranges.last().1 as int, MAX_NACK_GAPS as int),
{
    lemma_sack_scan_runs(d, ranges, ranges.len() as int);
}

/// Invert SACK ranges into missing-seq gaps: every seq between the
/// cumulative point and a SACKed range that no range holds is missing.
/// Seqs above the last range are not reported.
pub fn sack_to_gaps(received_up_to: u64, sack_ranges: &[(u64, u64)]) -> (gaps: Vec<(u64, u64)>)
    requires
        received_up_to < u64::MAX,
    ensures
        gaps@ == sack_to_gaps_spec(received_up_to, sack_ranges@),
        sack_ranges_wf(received_up_to, sack_ranges@) && sack_ranges@.len() > 0 ==> runs_capped(
            gaps@,
            cover_set(sack_ranges@),
            received_up_to + 1,
            sack_ranges@.last().1 as int,
            MAX_NACK_GAPS as int,
        ),
        sack_ranges@.len() == 0 ==> gaps@.len() == 0,
{
    let mut gaps: Vec<(u64, u64)> = Vec::new();
    let mut expected = received_up_to + 1;
    let mut i: usize = 0;
    while i < sack_ranges.len()
        invariant
            0 <= i <= sack_ranges.len(),
            received_up_to < u64::MAX,
            (expected as int, gaps@) == sack_scan(received_up_to, sack_ranges@, i as int),
            gaps.len() < MAX_NACK_GAPS,
        decreases sack_ranges.len() - i,
    {
        let (start, end) = sack_ranges[i];
        proof {
            lemma_sack_scan_len(received_up_to, sack_ranges@, i as int);
        }
        if start > expected {
            gaps.push((expected, start - 1));
            if gaps.len() >= MAX_NACK_GAPS {
                proof {
                    assert(sack_scan(received_up_to, sack_ranges@, i as int + 1).1 == gaps@);
                    lemma_sack_scan_frozen(received_up_to, sack_ranges@, i as int + 1, sack_ranges@.len() as int);
                    lemma_sack_to_gaps_runs_if_wf(received_up_to, sack_ranges@);
                }
                return gaps;
            }
        }
        expected = expected.max(end.saturating_add(1));
        i += 1;
    }
    proof {
        lemma_sack_to_gaps_runs_if_wf(received_up_to, sack_ranges@);
    }
    gaps
}

/// Once the gap list is full, later ranges leave it unchanged.
proof fn lemma_sack_scan_frozen(d: u64, ranges: Seq<(u64, u64)>, n0: int, n: int)
    requires
        0 <= n0 <= n,
        sack_scan(d, ranges, n0).1.len() >= MAX_NACK_GAPS,
    ensures
        sack_scan(d, ranges, n).1 == sack_scan(d, ranges, n0).1,
    decreases n - n0,
{
    if n > n0 {
        lemma_sack_scan_frozen(d, ranges, n0, n - 1);
    }
}

proof fn lemma_sack_to_gaps_runs_if_wf(d: u64, ranges: Seq<(u64, u64)>)
    requires
        d < u64::MAX,
    ensures
        sack_ranges_wf(d, ranges) && ranges.len() > 0 ==> runs_capped(
            sack_to_gaps_spec(d, ranges),
            cover_set(ranges),
            d + 1,
            ranges.last().1 as int,
            MAX_NACK_GAPS as int,
        ),
{
    if sack_ranges_wf(d, ranges) && ranges.len() > 0 && d < u64::MAX {
        lemma_sack_to_gaps_runs(d, ranges);
    }
}

} // verus!

verus! {

/// The seqs the receiver does not have.
pub open spec fn not_received(received: Set<u64>) -> Set<u64> {
    Set::new(|x: u64| !received.contains(x))
}

/// The receiver's SACK ranges: the maximal runs of seqs of
/// `(delivered, seen]` the receiver has.
pub open spec fn received_sack_spec(received: Set<u64>, delivered: int, seen: int) -> Seq<(u64, u64)> {
    choose|r: Seq<(u64, u64)>| #[trigger] runs_exact(r, not_received(received), delivered + 1, seen)
}

proof fn lemma_received_sack_spec_is(r: Seq<(u64, u64)>, received: Set<u64>, delivered: int, seen: int)
    requires
        runs_exact(r, not_received(received), delivered + 1, seen),
    ensures
        received_sack_spec(received, delivered, seen) == r,
{
    let nr = not_received(received);
    let c = received_sack_spec(received, delivered, seen);
    assert(runs_exact(c, nr, delivered + 1, seen));
    lemma_runs_exact_unique(c, r, nr, nr, delivered + 1, seen);
}

/// Receiver-side SACK encoding: the inclusive, ascending, disjoint (and
/// non-adjacent) ranges of the seqs the receiver has in `(delivered, seen]`
/// -- the inverse of [`sack_to_gaps`].
pub fn received_sack_ranges(received: &BTreeSet<u64>, delivered: u64, seen: u64) -> (sack: Vec<(u64, u64)>)
    requires
        delivered <= seen,
        seen < u64::MAX,
    ensures
        runs_exact(sack@, not_received(received@), delivered + 1, seen as int),
        sack@ == received_sack_spec(received@, delivered as int, seen as int),
{
    let ghost nr = not_received(received@);
    let ghost lo = delivered as int + 1;
    let mut sack_ranges: Vec<(u64, u64)> = Vec::new();
    if delivered == seen {
        proof {
            lemma_received_sack_spec_is(sack_ranges@, received@, delivered as int, seen as int);
        }
        return sack_ranges;
    }
    let keys = btree_set_range(received, delivered + 1, seen);
    if keys.len() == 0 {
        proof {
            assert forall|x: int|
                #![trigger present(nr, x)]
                #![trigger covered(sack_ranges@, x)]
                lo <= x <= seen && !present(nr, x) implies covered(sack_ranges@, x) by {
                assert(keys@.contains(x as u64));
            }
            lemma_received_sack_spec_is(sack_ranges@, received@, delivered as int, seen as int);
        }
        return sack_ranges;
    }
    let mut start = keys[0];
    let mut end = keys[0];
    assert(keys@.contains(keys[0]));
    let mut i: usize = 1;
    while i < keys.len()
        invariant
            1 <= i <= keys.len(),
            lo == delivered + 1,
            nr == not_received(received@),
            forall|a: int, b: int| 0 <= a < b < keys.len() ==> keys[a] < keys[b],
            forall|x: u64| #[trigger] keys@.contains(x) <==> (received@.contains(x) && delivered + 1 <= x <= seen),
            end == keys[i - 1],
            lo <= start <= end <= seen,
            forall|x: int| start <= x <= end ==> !present(nr, x),
            runs_sound(sack_ranges@, nr, lo, seen as int),
            forall|k: int| 0 <= k < sack_ranges.len() ==> (#[trigger] sack_ranges@[k]).1 + 1 < start,
            forall|j: int| 0 <= j < i ==> covered(sack_ranges@, #[trigger] keys[j] as int) || (start <= keys[j] <= end),
        decreases keys.len() - i,
    {
        let k = keys[i];
        assert(keys@.contains(k));
        assert(keys[i as int - 1] < keys[i as int]);
        if k == end + 1 {
            end = k;
        } else {
            let ghost old_r = sack_ranges@;
            sack_ranges.push((start, end));
            let ghost m = sack_ranges.len() as int;
            proof {
                assert forall|a: int, b: int| 0 <= a < b < m implies (#[trigger] sack_ranges@[a]).1 + 1 < (#[trigger] sack_ranges@[b]).0 by {
                    if b < m - 1 {
                        assert(old_r[a].1 + 1 < old_r[b].0);
                    }
                }
                assert forall|t: int, x: int| #[trigger] in_run(sack_ranges@, t, x) implies !present(nr, x) by {
                    if t < m - 1 {
                        assert(in_run(old_r, t, x));
                    }
                }
                assert forall|j: int| 0 <= j < i implies covered(sack_ranges@, #[trigger] keys[j] as int) || (k <= keys[j] <= k) by {
                    if covered(old_r, keys[j] as int) {
                        let t = choose|t: int| #[trigger] in_run(old_r, t, keys[j] as int);
                        assert(in_run(sack_ranges@, t, keys[j] as int));
                    } else {
                        assert(in_run(sack_ranges@, m - 1, keys[j] as int));
                    }
                }
            }
            start = k;
            end = k;
        }
        i += 1;
    }
    let ghost old_r = sack_ranges@;
    sack_ranges.push((start, end));
    proof {
        let m = sack_ranges.len() as int;
        assert forall|a: int, b: int| 0 <= a < b < m implies (#[trigger] sack_ranges@[a]).1 + 1 < (#[trigger] sack_ranges@[b]).0 by {
            if b < m - 1 {
                assert(old_r[a].1 + 1 < old_r[b].0);
            }
        }
        assert forall|t: int, x: int| #[trigger] in_run(sack_ranges@, t, x) implies !present(nr, x) by {
            if t < m - 1 {
                assert(in_run(old_r, t, x));
            }
        }
        assert forall|x: int|
            #![trigger present(nr, x)]
            #![trigger covered(sack_ranges@, x)]
            lo <= x <= seen && !present(nr, x) implies covered(sack_ranges@, x) by {
            assert(keys@.contains(x as u64));
            let j = choose|j: int| 0 <= j < keys.len() && keys[j] == x as u64;
            if covered(old_r, keys[j] as int) {
                let t = choose|t: int| #[trigger] in_run(old_r, t, keys[j] as int);
                assert(in_run(sack_ranges@, t, x));
            } else {
                assert(in_run(sack_ranges@, m - 1, x));
            }
        }
        lemma_received_sack_spec_is(sack_ranges@, received@, delivered as int, seen as int);
    }
    sack_ranges
}

} // verus!

verus! {

/// SACK round trip: when `seen` was received, the sender's inversion of the
/// receiver's SACK ranges recovers exactly the receiver's gap report over
/// `(delivered, seen]` -- its missing runs, capped at `MAX_NACK_GAPS`.
pub proof fn sack_round_trip(received: Set<u64>, delivered: u64, seen: u64)
    requires
        delivered <= seen < u64::MAX,
        received.contains(seen),
    ensures
        sack_to_gaps_spec(delivered, received_sack_spec(received, delivered as int, seen as int))
            == gap_ranges_spec(received, delivered + 1, seen as int),
{
    let d = delivered as int;
    let sn = seen as int;
    let nr = not_received(received);
    let full = lemma_runs_exact_exist(nr, d + 1, sn);
    lemma_received_sack_spec_is(full, received, d, sn);
    let r = received_sack_spec(received, d, sn);
    lemma_gap_ranges_spec_capped(received, d + 1, sn);
    let target = gap_ranges_spec(received, d + 1, sn);
    if delivered == seen {
        lemma_runs_empty_window(r, nr, d + 1, sn);
        lemma_runs_empty_window(target, received, d + 1, sn);
        assert(r.len() == 0);
        assert(sack_to_gaps_spec(delivered, r) =~= Seq::<(u64, u64)>::empty());
    } else {
        // `seen` was received, hence lies in the last SACK range.
        assert(!present(nr, sn));
        assert(covered(r, sn));
        let k = choose|k: int| #[trigger] in_run(r, k, sn);
        assert(r.last().1 == seen) by {
            if k < r.len() - 1 {
                assert(r[k].1 + 1 < r[r.len() - 1].0);
            }
        }
        assert(sack_ranges_wf(delivered, r)) by {
            assert forall|i: int, j: int| 0 <= i < j < r.len() implies (#[trigger] r[i]).1 < (#[trigger] r[j]).0 by {
                assert(r[i].1 + 1 < r[j].0);
            }
        }
        lemma_sack_to_gaps_runs(delivered, r);
        // Inside the window, "some SACK range holds x" is "x was received".
        assert forall|x: int| d + 1 <= x <= sn implies present(cover_set(r), x) == present(received, x) by {
            if present(received, x) {
                assert(!present(nr, x));
                assert(covered(r, x));
            } else {
                assert(present(nr, x));
                if covered(r, x) {
                    let j = choose|j: int| #[trigger] in_run(r, j, x);
                }
            }
        }
        lemma_runs_capped_unique(
            sack_to_gaps_spec(delivered, r),
            target,
            cover_set(r),
            received,
            d + 1,
            sn,
            MAX_NACK_GAPS as int,
        );
    }
}

} // verus!
