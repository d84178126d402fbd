//! Loss evidence: the RFC 9002 packet-threshold channel per path, the
//! pooled recovery clock, and the receiver's per-path batch loss tracker.

use crate::patience::{MP_PACKET_THRESHOLD, NACK_RETX_COOLDOWN_FLOOR_US};
use vstd::prelude::*;

verus! {

/// The delivered intervals implied by the first `n` gaps of a report.
pub open spec fn delivered_scan(gaps: Seq<(u64, u64)>, n: int) -> Seq<(u64, u64)>
    decreases n,
{
    if n <= 0 {
        Seq::empty()
    } else {
        let prev = delivered_scan(gaps, n - 1);
        let i = n - 1;
        let lo = gaps[i].1 + 1;
        let hi = if i + 1 < gaps.len() {
            if gaps[i + 1].0 >= 1 { gaps[i + 1].0 - 1 } else { 0 }
        } else {
            gaps[i].1 + 1
        };
        if lo <= hi { prev.push((lo as u64, hi as u64)) } else { prev }
    }
}

/// The delivered intervals a gap report implies: everything between two
/// consecutive missing runs was SACKed, and the seq just past the last gap
/// bounded it.
pub fn mp_delivered_intervals(gaps: &[(u64, u64)]) -> (out: Vec<(u64, u64)>)
    requires
        forall|i: int| 0 <= i < gaps.len() ==> (#[trigger] gaps[i]).1 < u64::MAX,
    ensures
        out@ == delivered_scan(gaps@, gaps.len() as int),
        forall|i: int|
            0 <= i && i + 1 < gaps.len() && gaps[i].1 + 1 <= gaps[i + 1].0 - 1
                ==> out@.contains(((gaps[i].1 + 1) as u64, (gaps[i + 1].0 - 1) as u64)),
        gaps.len() > 0 ==> out@.contains(
            ((gaps[gaps.len() - 1].1 + 1) as u64, (gaps[gaps.len() - 1].1 + 1) as u64),
        ),
        forall|k: int| 0 <= k < out.len() ==> delivered_between_or_past(gaps@, #[trigger] out@[k]),
        (forall|i: int, j: int| 0 <= i < j < gaps.len() ==> gaps[i].1 < gaps[j].1) ==> forall|a: int, b: int|
            0 <= a < b < out.len() ==> out[a].0 < out[b].0,
{
    let mut out: Vec<(u64, u64)> = Vec::new();
    let mut i: usize = 0;
    while i < gaps.len()
        invariant
            0 <= i <= gaps.len(),
            forall|j: int| 0 <= j < gaps.len() ==> (#[trigger] gaps[j]).1 < u64::MAX,
            out@ == delivered_scan(gaps@, i as int),
        decreases gaps.len() - i,
    {
        assert(gaps@[i as int].1 < u64::MAX);
        let lo = gaps[i].1 + 1;
        let hi = if i + 1 < gaps.len() {
            gaps[i + 1].0.saturating_sub(1)
        } else {
            gaps[i].1 + 1
        };
        if lo <= hi {
            out.push((lo, hi));
        }
        i += 1;
    }
    proof {
        lemma_delivered_intervals(gaps@, gaps.len() as int);
        if forall|i: int, j: int| 0 <= i < j < gaps.len() ==> gaps[i].1 < gaps[j].1 {
            lemma_delivered_ascending(gaps@, gaps.len() as int);
        }
    }
    out
}

/// On a report whose gaps come in ascending order, the delivered intervals
/// come out in ascending order too, each listed once.
pub proof fn lemma_delivered_ascending(gaps: Seq<(u64, u64)>, n: int)
    requires
        0 <= n <= gaps.len(),
        forall|i: int| 0 <= i < gaps.len() ==> (#[trigger] gaps[i]).1 < u64::MAX,
        forall|i: int, j: int| 0 <= i < j < gaps.len() ==> gaps[i].1 < gaps[j].1,
    ensures
        n > 0 ==> forall|k: int|
            0 <= k < delivered_scan(gaps, n).len() ==> (#[trigger] delivered_scan(gaps, n)[k]).0 <= gaps[n - 1].1 + 1,
        forall|a: int, b: int|
            0 <= a < b < delivered_scan(gaps, n).len() ==> delivered_scan(gaps, n)[a].0 < delivered_scan(gaps, n)[b].0,
    decreases n,
{
    if n > 0 {
        lemma_delivered_ascending(gaps, n - 1);
        let prev = delivered_scan(gaps, n - 1);
        let cur = delivered_scan(gaps, n);
        if cur.len() > prev.len() {
            assert forall|j: int| 0 <= j < prev.len() implies cur[j] == prev[j] by {}
            if n > 1 {
                assert(gaps[n - 2].1 < gaps[n - 1].1);
            }
        }
    }
}

/// `x` is the interval strictly between two consecutive gaps of the report,
/// or the single seq just past its last gap.
pub open spec fn delivered_between_or_past(gaps: Seq<(u64, u64)>, x: (u64, u64)) -> bool {
    exists|i: int|
        0 <= i < gaps.len() && x.0 == gaps[i].1 + 1 && {
            ||| (i + 1 < gaps.len() && x.1 == gaps[i + 1].0 - 1)
            ||| (i + 1 == gaps.len() && x.1 == gaps[i].1 + 1)
        }
}

/// What a gap report says was delivered: every non-empty stretch strictly
/// between two consecutive missing runs, and the seq just past the last run,
/// each listed; and nothing else is listed.
pub proof fn lemma_delivered_intervals(gaps: Seq<(u64, u64)>, n: int)
    requires
        0 <= n <= gaps.len(),
        forall|i: int| 0 <= i < gaps.len() ==> (#[trigger] gaps[i]).1 < u64::MAX,
    ensures
        forall|i: int|
            0 <= i < n && i + 1 < gaps.len() && gaps[i].1 + 1 <= gaps[i + 1].0 - 1
                ==> delivered_scan(gaps, n).contains(
                ((gaps[i].1 + 1) as u64, (gaps[i + 1].0 - 1) as u64),
            ),
        n == gaps.len() && n > 0 ==> delivered_scan(gaps, n).contains(
            ((gaps[n - 1].1 + 1) as u64, (gaps[n - 1].1 + 1) as u64),
        ),
        forall|k: int|
            0 <= k < delivered_scan(gaps, n).len() ==> delivered_between_or_past(
                gaps,
                #[trigger] delivered_scan(gaps, n)[k],
            ),
    decreases n,
{
    if n > 0 {
        lemma_delivered_intervals(gaps, n - 1);
        let prev = delivered_scan(gaps, n - 1);
        let cur = delivered_scan(gaps, n);
        let i = n - 1;
        let lo = gaps[i].1 + 1;
        let hi = if i + 1 < gaps.len() {
            if gaps[i + 1].0 >= 1 { gaps[i + 1].0 - 1 } else { 0 }
        } else {
            gaps[i].1 + 1
        };
        assert forall|j: int| 0 <= j < prev.len() implies cur[j] == prev[j] by {
            if lo <= hi {
                assert(cur == prev.push((lo as u64, hi as u64)));
            }
        }
        assert forall|x: (u64, u64)| prev.contains(x) implies cur.contains(x) by {
            let j = choose|j: int| 0 <= j < prev.len() && prev[j] == x;
            assert(cur[j] == x);
        }
        if lo <= hi {
            assert(cur[prev.len() as int] == (lo as u64, hi as u64));
            assert(cur.contains((lo as u64, hi as u64)));
            assert(delivered_between_or_past(gaps, (lo as u64, hi as u64)));
        }
        assert forall|k: int| 0 <= k < cur.len() implies delivered_between_or_past(
            gaps,
            #[trigger] cur[k],
        ) by {
            if k < prev.len() {
                assert(cur[k] == prev[k]);
            }
        }
    }
}

/// `v` is sorted ascending.
pub open spec fn sorted_seqs(v: Seq<u64>) -> bool {
    forall|i: int, j: int| 0 <= i < j < v.len() ==> v[i] <= v[j]
}

/// How many elements of `v` lie strictly above `s`.
pub open spec fn count_above(v: Seq<u64>, s: u64) -> nat
    decreases v.len(),
{
    if v.len() == 0 {
        0
    } else {
        count_above(v.drop_last(), s) + if v.last() > s { 1nat } else { 0nat }
    }
}

fn at_or_below(x: u64, s: u64) -> (r: bool)
    ensures
        r == (x <= s),
{
    x <= s
}

/// `slice::partition_point` with the predicate `x <= s`: on a slice whose
/// elements `<= s` all come first, the index of the first element above `s`.
#[verifier::external_body]
fn partition_point_at_or_below(v: &[u64], s: u64) -> (p: usize)
    ensures
        p <= v.len(),
        (forall|i: int, j: int| 0 <= i < j < v.len() && v[i] > s ==> v[j] > s) ==> {
            &&& forall|i: int| 0 <= i < p ==> v[i] <= s
            &&& forall|i: int| p <= i < v.len() ==> v[i] > s
        },
{
    v.partition_point(|x: &u64| at_or_below(*x, s))
}

proof fn lemma_count_above_split(v: Seq<u64>, s: u64, p: int)
    requires
        0 <= p <= v.len(),
        forall|i: int| 0 <= i < p ==> v[i] <= s,
        forall|i: int| p <= i < v.len() ==> v[i] > s,
    ensures
        count_above(v, s) == v.len() - p,
    decreases v.len(),
{
    if v.len() > 0 {
        if p == v.len() {
            lemma_count_above_split(v.drop_last(), s, p - 1);
        } else {
            lemma_count_above_split(v.drop_last(), s, p);
        }
    }
}

/// Fast-loss decision (RFC 9002 packet threshold per path): at least
/// `MP_PACKET_THRESHOLD` delivered same-path seqs lie strictly above `s`.
/// The evidence list is sorted; on an unsorted list the decision is the
/// partition point's, which only ever fires with enough evidence.
pub fn mp_fast_lost(delivered_on_path: &[u64], s: u64) -> (lost: bool)
    ensures
        sorted_seqs(delivered_on_path@) ==> lost == (count_above(delivered_on_path@, s) >= MP_PACKET_THRESHOLD),
        lost ==> delivered_on_path.len() >= MP_PACKET_THRESHOLD,
{
    let p = partition_point_at_or_below(delivered_on_path, s);
    proof {
        if sorted_seqs(delivered_on_path@) {
            lemma_count_above_split(delivered_on_path@, s, p as int);
        }
    }
    let above = delivered_on_path.len() - p;
    above >= MP_PACKET_THRESHOLD
}

/// The largest value of a non-empty sequence.
pub open spec fn seq_max(v: Seq<u64>) -> u64
    decreases v.len(),
{
    if v.len() <= 1 {
        v[0]
    } else {
        let m = seq_max(v.drop_last());
        if v.last() > m { v.last() } else { m }
    }
}

/// The pooled recovery clock: the largest smoothed RTT over the live paths,
/// the legacy floor when no path has a sample.
pub fn pooled_recovery_srtt_us(path_rtt_us: &[u64]) -> (r: u64)
    ensures
        path_rtt_us.len() == 0 ==> r == NACK_RETX_COOLDOWN_FLOOR_US,
        path_rtt_us.len() > 0 ==> r == seq_max(path_rtt_us@),
        forall|i: int| 0 <= i < path_rtt_us.len() ==> path_rtt_us[i] <= r,
        path_rtt_us.len() > 0 ==> exists|i: int| 0 <= i < path_rtt_us.len() && path_rtt_us[i] == r,
{
    if path_rtt_us.len() == 0 {
        return NACK_RETX_COOLDOWN_FLOOR_US;
    }
    let mut m = path_rtt_us[0];
    let mut i: usize = 1;
    while i < path_rtt_us.len()
        invariant
            1 <= i <= path_rtt_us.len(),
            m == seq_max(path_rtt_us@.take(i as int)),
        decreases path_rtt_us.len() - i,
    {
        let ghost pre = path_rtt_us@.take(i as int);
        assert(path_rtt_us@.take(i as int + 1).drop_last() =~= pre);
        if path_rtt_us[i] > m {
            m = path_rtt_us[i];
        }
        i += 1;
    }
    assert(path_rtt_us@.take(path_rtt_us.len() as int) =~= path_rtt_us@);
    proof {
        lemma_seq_max_is_max(path_rtt_us@);
    }
    m
}

/// The largest value of a non-empty sequence bounds every element and is
/// one of them.
pub proof fn lemma_seq_max_is_max(v: Seq<u64>)
    requires
        v.len() > 0,
    ensures
        forall|i: int| 0 <= i < v.len() ==> v[i] <= seq_max(v),
        exists|i: int| 0 <= i < v.len() && v[i] == seq_max(v),
    decreases v.len(),
{
    if v.len() == 1 {
        assert(v[0] == seq_max(v));
    } else {
        let p = v.drop_last();
        lemma_seq_max_is_max(p);
        assert forall|i: int| 0 <= i < v.len() implies v[i] <= seq_max(v) by {
            if i < p.len() {
                assert(v[i] == p[i]);
            }
        }
        if v.last() > seq_max(p) {
            assert(v[v.len() - 1] == seq_max(v));
        } else {
            let j = choose|j: int| 0 <= j < p.len() && p[j] == seq_max(p);
            assert(v[j] == seq_max(v));
        }
    }
}

/// Per-path batch sequence tracker for receiver-side loss estimation.
pub struct PathBatchTracker {
    /// Last seen batch sequence number.
    pub last_seq: Option<u64>,
    /// Total symbols received on this path.
    pub total_received: u64,
    /// Estimated symbols expected, from batch sequence gaps.
    pub total_expected: u64,
}

/// The symbols a batch stands for: the batch itself, or `gap * received`
/// when `gap > 1` batches were skipped since the last one (the gap taken as
/// a `u32`, as the tracker counts in `u32`).
pub open spec fn batch_expected(last_seq: Option<u64>, batch_seq: u64, received: u32) -> int {
    match last_seq {
        Some(last) => {
            let gap = if batch_seq >= last { batch_seq - last } else { 0 };
            if gap > 1 { (gap % 0x1_0000_0000) * received } else { received as int }
        },
        None => received as int,
    }
}

impl PathBatchTracker {
    pub fn new() -> (t: Self)
        ensures
            t.last_seq is None,
            t.total_received == 0,
            t.total_expected == 0,
    {
        PathBatchTracker { last_seq: None, total_received: 0, total_expected: 0 }
    }

    /// Record a batch arrival; returns `(expected_for_this_batch, received)`.
    pub fn record_batch(&mut self, batch_seq: u64, received: u32) -> (r: (u32, u32))
        requires
            batch_expected(old(self).last_seq, batch_seq, received) <= u32::MAX,
            old(self).total_received + received <= u64::MAX,
            old(self).total_expected + batch_expected(old(self).last_seq, batch_seq, received) <= u64::MAX,
        ensures
            r.0 == batch_expected(old(self).last_seq, batch_seq, received),
            r.1 == received,
            final(self).last_seq == Some(batch_seq),
            final(self).total_received == old(self).total_received + received,
            final(self).total_expected == old(self).total_expected + r.0,
    {
        let expected: u32 = match self.last_seq {
            Some(last) => {
                let gap = batch_seq.saturating_sub(last);
                if gap > 1 {
                    let g32 = gap as u32;
                    assert(g32 == gap % 0x1_0000_0000) by (bit_vector)
                        requires
                            g32 == gap as u32,
                    ;
                    g32 * received
                } else {
                    received
                }
            },
            None => received,
        };
        self.last_seq = Some(batch_seq);
        self.total_received = self.total_received + received as u64;
        self.total_expected = self.total_expected + expected as u64;
        (expected, received)
    }
}

/// A path whose serials run in sequence (or repeat, or arrive reordered)
/// expects exactly what arrived: per-path serials read no phantom loss, and
/// only a skipped serial scales the batch by the gap.
pub proof fn sequential_serials_read_no_phantom_loss(last: u64, batch_seq: u64, received: u32)
    requires
        batch_seq <= last + 1,
    ensures
        batch_expected(Some(last), batch_seq, received) == received,
{
}

} // verus!
