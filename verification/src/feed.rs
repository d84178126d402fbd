//! The plain-mode delivery feed: which seqs each WindowAck newly proves
//! delivered (each exactly once across the ack stream), and which path's
//! flight delivered each of them.

use dashmap::DashMap;
use std::collections::BTreeSet;
use crate::collections::btree_set_split_off;
use vstd::prelude::*;

verus! {

broadcast use vstd::std_specs::btree::group_btree_axioms;

#[verifier::external_type_specification]
#[verifier::external_body]
#[verifier::reject_recursive_types(K)]
#[verifier::reject_recursive_types(V)]
#[verifier::reject_recursive_types(S)]
pub struct ExDashMap<K, V, S>(DashMap<K, V, S>);

/// One seq's send-commitment history: the last (re)send's `(path, send
/// time us)`, plus the previous distinct-path commitment when the seq was
/// retransmitted cross-path.
#[derive(Clone, Copy, Debug, PartialEq, Eq)]
pub struct SendCommit {
    pub last: (u32, u64),
    pub prev: Option<(u32, u64)>,
}

/// What a `DashMap<u64, SendCommit>` holds.
pub uninterp spec fn commits_of(m: DashMap<u64, SendCommit>) -> Map<u64, SendCommit>;

/// `DashMap::new`: an empty map.
#[verifier::external_body]
fn commits_new() -> (fresh: DashMap<u64, SendCommit>)
    ensures
        commits_of(fresh).dom() == Set::<u64>::empty(),
{
    DashMap::new()
}

/// `DashMap::get`, copying the value out of the read guard.
#[verifier::external_body]
fn commits_get(m: &DashMap<u64, SendCommit>, seq: u64) -> (r: Option<SendCommit>)
    ensures
        r == (if commits_of(*m).contains_key(seq) { Some(commits_of(*m)[seq]) } else { None::<SendCommit> }),
{
    m.get(&seq).map(|entry| *entry)
}

/// `DashMap::insert`: sets the entry, returning the value it replaced.
#[verifier::external_body]
fn commits_insert(m: &mut DashMap<u64, SendCommit>, seq: u64, c: SendCommit) -> (r: Option<SendCommit>)
    ensures
        commits_of(*final(m)) == commits_of(*old(m)).insert(seq, c),
        r == (if commits_of(*old(m)).contains_key(seq) { Some(commits_of(*old(m))[seq]) } else { None::<SendCommit> }),
{
    m.insert(seq, c)
}

/// `DashMap::remove`: drops the entry, returning it.
#[verifier::external_body]
fn commits_remove(m: &mut DashMap<u64, SendCommit>, seq: u64) -> (r: Option<(u64, SendCommit)>)
    ensures
        commits_of(*final(m)) == commits_of(*old(m)).remove(seq),
        r == (if commits_of(*old(m)).contains_key(seq) {
            Some((seq, commits_of(*old(m))[seq]))
        } else {
            None::<(u64, SendCommit)>
        }),
{
    m.remove(&seq)
}

fn above_frontier(seq: u64, frontier: u64) -> (r: bool)
    ensures
        r == (seq > frontier),
{
    seq > frontier
}

/// `DashMap::retain`, keeping the seqs above the frontier.
#[verifier::external_body]
fn commits_retain_above(m: &mut DashMap<u64, SendCommit>, frontier: u64)
    ensures
        commits_of(*final(m)) == commits_of(*old(m)).restrict(Set::new(|s: u64| s > frontier)),
{
    m.retain(|seq, _| above_frontier(*seq, frontier))
}

/// The wall clock in microseconds since the UNIX epoch (zero if the clock
/// reads before the epoch).
#[verifier::external_body]
pub(crate) fn now_us() -> u64 {
    std::time::SystemTime::now()
        .duration_since(std::time::UNIX_EPOCH)
        .map(|d| d.as_micros() as u64)
        .unwrap_or(0)
}

/// The attribution cursor: the next in-order seq not yet attributed, and the
/// above-frontier seqs already attributed via SACK.
pub struct CopaFeedCursor {
    pub next: u64,
    pub sacked: BTreeSet<u64>,
}

/// Per-ack safety bound on attributions.
pub const MAX_PER_ACK: usize = 65_536;

/// The seqs a cursor has attributed so far: everything below the frontier,
/// plus the SACKed seqs above it.
pub open spec fn attributed(next: u64, sacked: Set<u64>) -> Set<u64> {
    Set::new(|s: u64| s < next || sacked.contains(s))
}

/// A cursor's SACKed seqs all lie at or above its frontier.
pub open spec fn cursor_wf(next: u64, sacked: Set<u64>) -> bool {
    forall|s: u64| #[trigger] sacked.contains(s) ==> s >= next
}

/// The seqs `[lo, hi]` (clipped to `u64`) as a set.
pub open spec fn seq_span(lo: int, hi: int) -> Set<u64> {
    Set::new(|s: u64| lo <= s <= hi)
}

/// The SACK range `(a, b)` as the feed scans it from frontier `next`:
/// `[max(a, next), min(b, max(a, next) + MAX_PER_ACK)]`.
pub open spec fn clipped_range(r: (u64, u64), next: u64) -> Set<u64> {
    let lo = if r.0 >= next { r.0 as int } else { next as int };
    let hi = if r.1 as int <= lo + MAX_PER_ACK { r.1 as int } else { lo + MAX_PER_ACK };
    seq_span(lo, hi)
}

/// Every seq the SACK ranges name, as scanned from frontier `next`.
pub open spec fn sacked_targets(ranges: Seq<(u64, u64)>, next: u64) -> Set<u64> {
    Set::new(|s: u64| exists|i: int| 0 <= i < ranges.len() && #[trigger] clipped_range(ranges[i], next).contains(s))
}

/// SACK ranges as a receiver emits them: each non-empty, ascending and
/// disjoint.
pub open spec fn ranges_ascending(ranges: Seq<(u64, u64)>) -> bool {
    &&& forall|i: int| 0 <= i < ranges.len() ==> (#[trigger] ranges[i]).0 <= ranges[i].1
    &&& forall|i: int, j: int| 0 <= i < j < ranges.len() ==> (#[trigger] ranges[i]).1 < (#[trigger] ranges[j]).0
}

/// The per-path delivery feed of one sender.
pub struct CopaFeed {
    /// seq -> its send commitments (last (re)send, previous distinct path).
    pub seq_path: DashMap<u64, SendCommit>,
    /// The attribution cursor.
    pub cursor: CopaFeedCursor,
    /// Sampling only: the feed does not own the congestion-control point.
    pub sampling_only: bool,
    /// Apply the flight-time witness at attribution.
    pub attr_witness: bool,
    /// Attributed seqs whose commit history crossed paths.
    pub attr_cross: u64,
    /// Of those, attributions the witness credited to the previous commitment.
    pub attr_witness_prev: u64,
    /// The N1-scoped sampler pause.
    pub n1_pause: bool,
}

impl CopaFeed {
    pub open spec fn wf(&self) -> bool {
        cursor_wf(self.cursor.next, self.cursor.sacked@)
    }

    /// A feed that owns the congestion-control point.
    pub fn new() -> (f: Self)
        ensures
            f.wf(),
            commits_of(f.seq_path) == Map::<u64, SendCommit>::empty(),
            f.cursor.next == 0,
            f.cursor.sacked@ == Set::<u64>::empty(),
            !f.sampling_only,
            !f.attr_witness,
            f.attr_cross == 0,
            f.attr_witness_prev == 0,
            !f.n1_pause,
    {
        CopaFeed {
            seq_path: commits_new(),
            cursor: CopaFeedCursor { next: 0, sacked: BTreeSet::new() },
            sampling_only: false,
            attr_witness: false,
            attr_cross: 0,
            attr_witness_prev: 0,
            n1_pause: false,
        }
    }

    /// A sampling-only feed, with or without the flight-time witness.
    pub fn new_sampling_only(attr_witness: bool) -> (f: Self)
        ensures
            f.wf(),
            commits_of(f.seq_path) == Map::<u64, SendCommit>::empty(),
            f.cursor.next == 0,
            f.cursor.sacked@ == Set::<u64>::empty(),
            f.sampling_only,
            f.attr_witness == attr_witness,
            f.attr_cross == 0,
            f.attr_witness_prev == 0,
            !f.n1_pause,
    {
        CopaFeed { sampling_only: true, attr_witness, ..Self::new() }
    }

    /// Pause or resume the N1-scoped sampler.
    pub fn set_n1_paused(&mut self, paused: bool)
        ensures
            final(self).n1_pause == paused,
            final(self).seq_path == old(self).seq_path,
            final(self).cursor == old(self).cursor,
            final(self).sampling_only == old(self).sampling_only,
            final(self).attr_witness == old(self).attr_witness,
            final(self).attr_cross == old(self).attr_cross,
            final(self).attr_witness_prev == old(self).attr_witness_prev,
    {
        self.n1_pause = paused;
    }

    pub fn n1_paused(&self) -> (r: bool)
        ensures
            r == self.n1_pause,
    {
        self.n1_pause
    }

    /// True when the feed also owns the congestion-control operating point.
    pub fn owns_cc(&self) -> (r: bool)
        ensures
            r == !self.sampling_only,
    {
        !self.sampling_only
    }

    /// (cross-path attributions, of which witness-credited to the previous flight).
    pub fn attr_diag(&self) -> (r: (u64, u64))
        ensures
            r == (self.attr_cross, self.attr_witness_prev),
    {
        (self.attr_cross, self.attr_witness_prev)
    }
}

/// The SACKed seqs at or above `n`.
pub open spec fn sacked_from(sacked: Set<u64>, n: u64) -> Set<u64> {
    Set::new(|x: u64| sacked.contains(x) && x >= n)
}

/// What one WindowAck does to the cursor `(pre_next, pre_sacked)`, leaving
/// `(post_next, post_sacked)` and the newly delivered seqs `newly`: each
/// newly delivered seq is one the ack proves delivered and no earlier ack
/// attributed, it joins the attributed set, and unless the per-ack bound
/// cut the diff short, the ack's whole proof (the frontier and its SACK
/// ranges) is attributed afterwards.
pub open spec fn delivered_step(
    pre_next: u64,
    pre_sacked: Set<u64>,
    received_up_to: u64,
    ranges: Seq<(u64, u64)>,
    post_next: u64,
    post_sacked: Set<u64>,
    newly: Seq<u64>,
) -> bool {
    &&& cursor_wf(post_next, post_sacked)
    &&& pre_next <= post_next
    &&& (post_next == pre_next || post_next <= received_up_to + 1)
    &&& newly.no_duplicates()
    &&& newly.len() <= MAX_PER_ACK
    &&& newly.to_set().disjoint(attributed(pre_next, pre_sacked))
    &&& newly.to_set().subset_of(seq_span(0, received_up_to as int).union(sacked_targets(ranges, post_next)))
    &&& attributed(post_next, post_sacked) == attributed(pre_next, pre_sacked).union(newly.to_set())
    &&& ranges_ascending(ranges) ==> forall|a: int, b: int| 0 <= a < b < newly.len() ==> newly[a] < newly[b]
    &&& newly.len() < MAX_PER_ACK ==> {
        &&& post_next == (if received_up_to >= pre_next { received_up_to + 1 } else { pre_next as int })
        &&& attributed(post_next, post_sacked) == attributed(pre_next, pre_sacked).union(
            seq_span(0, received_up_to as int),
        ).union(sacked_targets(ranges, post_next))
    }
}

/// The low end of SACK range `r` as scanned from frontier `next`.
pub open spec fn clip_lo(r: (u64, u64), next: u64) -> int {
    if r.0 >= next { r.0 as int } else { next as int }
}

/// The high end of SACK range `r` as scanned from frontier `next`: at most
/// `MAX_PER_ACK` past its low end.
pub open spec fn clip_hi(r: (u64, u64), next: u64) -> int {
    if r.1 as int <= clip_lo(r, next) + MAX_PER_ACK { r.1 as int } else { clip_lo(r, next) + MAX_PER_ACK }
}

/// The seqs `lo, lo + 1, ..., lo + n - 1` that `seen` does not hold, in order.
pub open spec fn span_scan(lo: int, n: int, seen: Set<u64>) -> Seq<u64>
    decreases n,
{
    if n <= 0 {
        Seq::empty()
    } else {
        let prev = span_scan(lo, n - 1, seen);
        if seen.contains((lo + n - 1) as u64) { prev } else { prev.push((lo + n - 1) as u64) }
    }
}

/// The SACKed seqs a scan of the first `m` ranges from frontier `next`
/// attributes, in scan order: each clipped range ascending, skipping seqs
/// `seen` holds or an earlier range already gave.
pub open spec fn sack_scan_seq(ranges: Seq<(u64, u64)>, next: u64, seen: Set<u64>, m: int) -> Seq<u64>
    decreases m,
{
    if m <= 0 {
        Seq::empty()
    } else {
        let prev = sack_scan_seq(ranges, next, seen, m - 1);
        let lo = clip_lo(ranges[m - 1], next);
        prev + span_scan(lo, clip_hi(ranges[m - 1], next) - lo + 1, seen.union(prev.to_set()))
    }
}

/// `a` is a prefix of `b`.
pub open spec fn prefix_of(a: Seq<u64>, b: Seq<u64>) -> bool {
    a.len() <= b.len() && forall|i: int| 0 <= i < a.len() ==> #[trigger] a[i] == b[i]
}

/// The order of one ack's diff: the first `f` seqs are the frontier walk,
/// ascending, exactly the unattributed seqs below the new frontier (and the
/// walk reached the ack's frontier unless the per-ack bound stopped it);
/// the rest are the SACK scan from the new frontier in scan order, cut off
/// only by the per-ack bound.
pub open spec fn delivered_in_order(
    pre_next: u64,
    pre_sacked: Set<u64>,
    received_up_to: u64,
    ranges: Seq<(u64, u64)>,
    post_next: u64,
    newly: Seq<u64>,
    f: int,
) -> bool {
    let fw = newly.take(f);
    let sp = newly.skip(f);
    let full = sack_scan_seq(ranges, post_next, sacked_from(pre_sacked, post_next), ranges.len() as int);
    &&& 0 <= f <= newly.len()
    &&& forall|a: int, b: int| 0 <= a < b < f ==> fw[a] < fw[b]
    &&& fw.to_set() == seq_span(pre_next as int, post_next - 1).difference(pre_sacked)
    &&& f < MAX_PER_ACK ==> post_next == (if received_up_to >= pre_next { received_up_to + 1 } else { pre_next as int })
    &&& f >= MAX_PER_ACK ==> sp.len() == 0 && fw.last() == post_next - 1
    &&& prefix_of(sp, full)
    &&& newly.len() < MAX_PER_ACK ==> sp == full
}

proof fn lemma_span_scan_bounds(lo: int, n: int, seen: Set<u64>)
    requires
        0 <= lo,
        lo + n - 1 <= u64::MAX,
    ensures
        forall|k: int| 0 <= k < span_scan(lo, n, seen).len() ==> lo <= #[trigger] span_scan(lo, n, seen)[k] < lo + n,
        forall|a: int, b: int| 0 <= a < b < span_scan(lo, n, seen).len() ==> span_scan(lo, n, seen)[a] < span_scan(lo, n, seen)[b],
        forall|k: int| 0 <= k < span_scan(lo, n, seen).len() ==> !seen.contains(#[trigger] span_scan(lo, n, seen)[k]),
    decreases n,
{
    if n > 0 {
        lemma_span_scan_bounds(lo, n - 1, seen);
        let prev = span_scan(lo, n - 1, seen);
        let cur = span_scan(lo, n, seen);
        let q = (lo + n - 1) as u64;
        assert(q == lo + n - 1);
        if !seen.contains(q) {
            assert(cur == prev.push(q));
            assert forall|k: int| 0 <= k < cur.len() implies lo <= #[trigger] cur[k] < lo + n by {
                if k < prev.len() {
                    assert(cur[k] == prev[k]);
                }
            }
            assert forall|a: int, b: int| 0 <= a < b < cur.len() implies cur[a] < cur[b] by {
                assert(cur[a] == prev[a]);
                if b < prev.len() {
                    assert(cur[b] == prev[b]);
                }
            }
            assert forall|k: int| 0 <= k < cur.len() implies !seen.contains(#[trigger] cur[k]) by {
                if k < prev.len() {
                    assert(cur[k] == prev[k]);
                }
            }
        }
    }
}

proof fn lemma_span_scan_prefix(lo: int, a: int, b: int, seen: Set<u64>)
    requires
        a <= b,
    ensures
        prefix_of(span_scan(lo, a, seen), span_scan(lo, b, seen)),
    decreases b - a,
{
    if a < b {
        lemma_span_scan_prefix(lo, a, b - 1, seen);
        if b > 0 {
            let x = span_scan(lo, b - 1, seen);
            let y = span_scan(lo, b, seen);
            assert forall|i: int| 0 <= i < x.len() implies #[trigger] x[i] == y[i] by {}
        }
    }
}

/// The acks on which the frontier walk would step past `u64::MAX`: the
/// frontier reaches `u64::MAX` before the per-ack bound stops it.
pub open spec fn frontier_walk_fits(next: u64, sacked: Set<u64>, received_up_to: u64) -> bool {
    received_up_to < u64::MAX || seq_span(next as int, u64::MAX - 1).difference(sacked).len() >= MAX_PER_ACK
}

impl CopaFeed {
    /// Diff one WindowAck against the cursor: the seqs it newly proves
    /// delivered (the frontier advance up to `received_up_to`, then the
    /// not-yet-attributed SACKed seqs above it), each exactly once across the
    /// ack stream, at most `MAX_PER_ACK` of them.
    pub fn newly_delivered(&mut self, received_up_to: u64, sack_ranges: &[(u64, u64)]) -> (newly: Vec<u64>)
        requires
            old(self).wf(),
            frontier_walk_fits(old(self).cursor.next, old(self).cursor.sacked@, received_up_to),
        ensures
            final(self).wf(),
            delivered_step(
                old(self).cursor.next,
                old(self).cursor.sacked@,
                received_up_to,
                sack_ranges@,
                final(self).cursor.next,
                final(self).cursor.sacked@,
                newly@,
            ),
            exists|f: int|
                #[trigger] delivered_in_order(
                    old(self).cursor.next,
                    old(self).cursor.sacked@,
                    received_up_to,
                    sack_ranges@,
                    final(self).cursor.next,
                    newly@,
                    f,
                ),
            final(self).seq_path == old(self).seq_path,
            final(self).sampling_only == old(self).sampling_only,
            final(self).attr_witness == old(self).attr_witness,
            final(self).attr_cross == old(self).attr_cross,
            final(self).attr_witness_prev == old(self).attr_witness_prev,
            final(self).n1_pause == old(self).n1_pause,
    {
        let ghost old_next = self.cursor.next;
        let ghost old_sacked = self.cursor.sacked@;
        let ghost old_attr = attributed(old_next, old_sacked);
        let mut newly: Vec<u64> = Vec::new();
        proof {
            assert(self.cursor.sacked@ =~= sacked_from(old_sacked, old_next));
            assert(newly@.to_set() =~= seq_span(old_next as int, old_next - 1).difference(old_sacked));
        }
        while self.cursor.next <= received_up_to && newly.len() < MAX_PER_ACK
            invariant
                old_next <= self.cursor.next,
                self.cursor.next == old_next || self.cursor.next <= received_up_to + 1,
                frontier_walk_fits(old_next, old_sacked, received_up_to),
                cursor_wf(old_next, old_sacked),
                self.cursor.sacked@ == sacked_from(old_sacked, self.cursor.next),
                newly.len() <= MAX_PER_ACK,
                forall|k: int| 0 <= k < newly.len() ==> #[trigger] newly[k] < self.cursor.next,
                forall|a: int, b: int| 0 <= a < b < newly.len() ==> newly[a] < newly[b],
                newly.len() == MAX_PER_ACK ==> newly@.last() == self.cursor.next - 1,
                newly@.no_duplicates(),
                newly@.to_set() == seq_span(old_next as int, self.cursor.next - 1).difference(old_sacked),
                self.seq_path == old(self).seq_path,
                self.sampling_only == old(self).sampling_only,
                self.attr_witness == old(self).attr_witness,
                self.attr_cross == old(self).attr_cross,
                self.attr_witness_prev == old(self).attr_witness_prev,
                self.n1_pause == old(self).n1_pause,
            decreases received_up_to + 1 - self.cursor.next,
        {
            let s = self.cursor.next;
            proof {
                if s == u64::MAX {
                    newly@.lemma_cardinality_of_set();
                    assert(seq_span(old_next as int, s - 1) =~= seq_span(old_next as int, u64::MAX - 1));
                }
            }
            self.cursor.next = s + 1;
            let was_sacked = self.cursor.sacked.remove(&s);
            assert(self.cursor.sacked@ =~= sacked_from(old_sacked, self.cursor.next));
            if !was_sacked {
                let ghost old_newly = newly@;
                newly.push(s);
                proof {
                    old_newly.lemma_push_to_set_commute(s);
                    assert(!old_newly.contains(s)) by {
                        if old_newly.contains(s) {
                            let k = choose|k: int| 0 <= k < old_newly.len() && old_newly[k] == s;
                            assert(old_newly[k] < s);
                        }
                    }
                }
                assert(newly@.to_set() =~= seq_span(old_next as int, self.cursor.next - 1).difference(old_sacked));
            } else {
                assert(newly@.to_set() =~= seq_span(old_next as int, self.cursor.next - 1).difference(old_sacked));
            }
        }
        let ghost next_f = self.cursor.next;
        proof {
            assert(attributed(next_f, self.cursor.sacked@) =~= old_attr.union(newly@.to_set()));
            assert forall|x: u64| #[trigger] newly@.to_set().contains(x) implies seq_span(0, received_up_to as int).contains(x) by {
                assert(seq_span(old_next as int, next_f - 1).contains(x));
            }
            if newly.len() < MAX_PER_ACK {
                assert(attributed(next_f, self.cursor.sacked@) =~= old_attr.union(seq_span(0, received_up_to as int)));
            }
        }
        let ghost attr_mid = attributed(next_f, self.cursor.sacked@);
        let ghost fw = newly@;
        let ghost sk_f = self.cursor.sacked@;
        let ghost mut sp: Seq<u64> = Seq::empty();
        proof {
            assert(newly@ =~= fw + sp);
            assert(sk_f.union(sp.to_set()) =~= sk_f);
        }
        let mut i: usize = 0;
        while i < sack_ranges.len()
            invariant
                0 <= i <= sack_ranges.len(),
                self.cursor.next == next_f,
                old_next <= next_f,
                next_f == old_next || next_f <= received_up_to + 1,
                cursor_wf(self.cursor.next, self.cursor.sacked@),
                attributed(next_f, self.cursor.sacked@) == old_attr.union(newly@.to_set()),
                newly@.no_duplicates(),
                newly@.to_set().disjoint(old_attr),
                newly@.to_set().subset_of(seq_span(0, received_up_to as int).union(sacked_targets(sack_ranges@, next_f))),
                newly.len() <= MAX_PER_ACK,
                ranges_ascending(sack_ranges@) ==> forall|a: int, b: int| 0 <= a < b < newly.len() ==> newly[a] < newly[b],
                ranges_ascending(sack_ranges@) ==> forall|k: int|
                    0 <= k < newly.len() ==> #[trigger] newly[k] < next_f || (i > 0 && newly[k] <= sack_ranges@[i - 1].1),
                newly.len() < MAX_PER_ACK ==> {
                    &&& next_f == (if received_up_to >= old_next { received_up_to + 1 } else { old_next as int })
                    &&& attr_mid == old_attr.union(seq_span(0, received_up_to as int))
                    &&& attributed(next_f, self.cursor.sacked@) == attr_mid.union(
                        sacked_targets(sack_ranges@.take(i as int), next_f),
                    )
                },
                self.seq_path == old(self).seq_path,
                self.sampling_only == old(self).sampling_only,
                self.attr_witness == old(self).attr_witness,
                self.attr_cross == old(self).attr_cross,
                self.attr_witness_prev == old(self).attr_witness_prev,
                self.n1_pause == old(self).n1_pause,
                newly@ == fw + sp,
                sk_f == sacked_from(old_sacked, next_f),
                self.cursor.sacked@ == sk_f.union(sp.to_set()),
                prefix_of(sp, sack_scan_seq(sack_ranges@, next_f, sk_f, i as int)),
                newly.len() < MAX_PER_ACK ==> sp == sack_scan_seq(sack_ranges@, next_f, sk_f, i as int),
                fw.len() >= MAX_PER_ACK ==> sp.len() == 0,
            decreases sack_ranges.len() - i,
        {
            let (a, b) = sack_ranges[i];
            let ghost scan_i = sack_scan_seq(sack_ranges@, next_f, sk_f, i as int);
            let ghost seen_i = sk_f.union(scan_i.to_set());
            let ghost sp_before = sp;
            let lo = a.max(self.cursor.next);
            let hi = b.min(lo.saturating_add(MAX_PER_ACK as u64));
            let ghost attr_before = attributed(next_f, self.cursor.sacked@);
            let ghost len_before = newly.len();
            proof {
                if ranges_ascending(sack_ranges@) {
                    assert forall|k: int| 0 <= k < newly.len() implies #[trigger] newly[k] < lo by {
                        if !(newly[k] < next_f) {
                            assert(sack_ranges@[i - 1].1 < sack_ranges@[i as int].0);
                        }
                    }
                }
            }
            if lo <= hi {
                let span = hi - lo;
                let mut j: u64 = 0;
                while j <= span
                    invariant
                        lo <= hi,
                        span == hi - lo,
                        span <= MAX_PER_ACK,
                        0 <= j <= span + 1,
                        lo >= next_f,
                        i < sack_ranges.len(),
                        sack_ranges@[i as int] == (a, b),
                        lo == (if a >= next_f { a } else { next_f }),
                        hi == (if b as int <= lo + MAX_PER_ACK { b as int } else { lo + MAX_PER_ACK }),
                        self.cursor.next == next_f,
                        cursor_wf(self.cursor.next, self.cursor.sacked@),
                        attributed(next_f, self.cursor.sacked@) == old_attr.union(newly@.to_set()),
                        newly@.no_duplicates(),
                        newly@.to_set().disjoint(old_attr),
                        newly@.to_set().subset_of(seq_span(0, received_up_to as int).union(sacked_targets(sack_ranges@, next_f))),
                        newly.len() <= MAX_PER_ACK,
                        len_before <= newly.len(),
                        ranges_ascending(sack_ranges@) ==> forall|x: int, y: int|
                            0 <= x < y < newly.len() ==> newly[x] < newly[y],
                        ranges_ascending(sack_ranges@) ==> forall|k: int| 0 <= k < newly.len() ==> #[trigger] newly[k] < lo + j,
                        newly.len() < MAX_PER_ACK ==> attributed(next_f, self.cursor.sacked@) == attr_before.union(
                            seq_span(lo as int, lo + j - 1),
                        ),
                        self.seq_path == old(self).seq_path,
                        self.sampling_only == old(self).sampling_only,
                        self.attr_witness == old(self).attr_witness,
                        self.attr_cross == old(self).attr_cross,
                        self.attr_witness_prev == old(self).attr_witness_prev,
                        self.n1_pause == old(self).n1_pause,
                        newly@ == fw + sp,
                        self.cursor.sacked@ == sk_f.union(sp.to_set()),
                        scan_i == sack_scan_seq(sack_ranges@, next_f, sk_f, i as int),
                        seen_i == sk_f.union(scan_i.to_set()),
                        prefix_of(sp, scan_i + span_scan(lo as int, j as int, seen_i)),
                        newly.len() < MAX_PER_ACK ==> sp == scan_i + span_scan(lo as int, j as int, seen_i),
                        fw.len() >= MAX_PER_ACK ==> sp.len() == 0,
                    ensures
                        newly.len() < MAX_PER_ACK ==> j == span + 1,
                    decreases span + 1 - j,
                {
                    if newly.len() >= MAX_PER_ACK {
                        break;
                    }
                    let q = lo + j;
                    let ghost attr_q = attributed(next_f, self.cursor.sacked@);
                    let ghost sp_q = sp;
                    let ghost ss = span_scan(lo as int, j as int, seen_i);
                    proof {
                        lemma_span_scan_bounds(lo as int, j as int, seen_i);
                        assert(sp_q == scan_i + ss);
                        assert(self.cursor.sacked@.contains(q) == seen_i.contains(q)) by {
                            if sp_q.to_set().contains(q) && !scan_i.to_set().contains(q) {
                                let t = choose|t: int| 0 <= t < sp_q.len() && sp_q[t] == q;
                                if t < scan_i.len() {
                                    assert(scan_i.to_set().contains(scan_i[t]));
                                } else {
                                    assert(sp_q[t] == ss[t - scan_i.len()]);
                                }
                            }
                            if scan_i.to_set().contains(q) {
                                let t = choose|t: int| 0 <= t < scan_i.len() && scan_i[t] == q;
                                assert(sp_q[t] == q);
                                assert(sp_q.to_set().contains(q));
                            }
                        }
                        assert(span_scan(lo as int, j as int + 1, seen_i) == (if seen_i.contains(q) {
                            ss
                        } else {
                            ss.push(q)
                        }));
                    }
                    if self.cursor.sacked.insert(q) {
                        let ghost old_newly = newly@;
                        newly.push(q);
                        proof {
                            sp = sp.push(q);
                            assert(newly@ =~= fw + sp);
                            assert(sp =~= scan_i + span_scan(lo as int, j as int + 1, seen_i));
                            assert(self.cursor.sacked@ =~= sk_f.union(sp.to_set())) by {
                                sp_q.lemma_push_to_set_commute(q);
                            }
                            old_newly.lemma_push_to_set_commute(q);
                            assert(!attr_q.contains(q));
                            assert(!old_newly.contains(q)) by {
                                if old_newly.contains(q) {
                                    assert(old_newly.to_set().contains(q));
                                }
                            }
                            assert(clipped_range(sack_ranges@[i as int], next_f).contains(q));
                            assert(sacked_targets(sack_ranges@, next_f).contains(q));
                        }
                        assert(attributed(next_f, self.cursor.sacked@) =~= attr_q.insert(q));
                    } else {
                        assert(attributed(next_f, self.cursor.sacked@) =~= attr_q);
                        assert(sp =~= scan_i + span_scan(lo as int, j as int + 1, seen_i));
                    }
                    proof {
                        if newly.len() < MAX_PER_ACK {
                            assert(attributed(next_f, self.cursor.sacked@) =~= attr_before.union(seq_span(lo as int, lo + j)));
                        }
                    }
                    j += 1;
                }
            }
            proof {
                let nfull = clip_hi((a, b), next_f) - clip_lo((a, b), next_f) + 1;
                assert(clip_lo(sack_ranges@[i as int], next_f) == lo);
                assert(sack_scan_seq(sack_ranges@, next_f, sk_f, i as int + 1) == scan_i + span_scan(lo as int, nfull, seen_i));
                if lo > hi {
                    assert(span_scan(lo as int, nfull, seen_i) =~= Seq::<u64>::empty());
                    assert(scan_i + span_scan(lo as int, nfull, seen_i) =~= scan_i);
                } else {
                    assert(nfull == hi - lo + 1);
                }
                assert(prefix_of(sp, sack_scan_seq(sack_ranges@, next_f, sk_f, i as int + 1))) by {
                    if lo <= hi {
                        let je = if newly.len() < MAX_PER_ACK { nfull } else { choose|je: int| 0 <= je <= nfull && prefix_of(sp, scan_i + span_scan(lo as int, je, seen_i)) };
                        lemma_span_scan_prefix(lo as int, je, nfull, seen_i);
                        let x = scan_i + span_scan(lo as int, je, seen_i);
                        let y = scan_i + span_scan(lo as int, nfull, seen_i);
                        assert forall|t: int| 0 <= t < x.len() implies #[trigger] x[t] == y[t] by {
                            if t >= scan_i.len() {
                                assert(span_scan(lo as int, je, seen_i)[t - scan_i.len()] == span_scan(lo as int, nfull, seen_i)[t - scan_i.len()]);
                            }
                        }
                    }
                }
                if ranges_ascending(sack_ranges@) {
                    assert forall|k: int| 0 <= k < newly.len() implies #[trigger] newly[k] < next_f || newly[k] <= sack_ranges@[i as int].1 by {
                        assert(sack_ranges@[i as int].0 <= sack_ranges@[i as int].1);
                    }
                }
                let pre = sack_ranges@.take(i as int);
                let cur = sack_ranges@.take(i as int + 1);
                assert(cur =~= pre.push((a, b)));
                assert(clipped_range((a, b), next_f) =~= (if lo <= hi { seq_span(lo as int, hi as int) } else { Set::empty() }));
                if newly.len() < MAX_PER_ACK {
                    assert(sacked_targets(cur, next_f) =~= sacked_targets(pre, next_f).union(clipped_range((a, b), next_f))) by {
                        assert forall|x: u64| #[trigger] sacked_targets(cur, next_f).contains(x) implies sacked_targets(pre, next_f).union(clipped_range((a, b), next_f)).contains(x) by {
                            let k = choose|k: int| 0 <= k < cur.len() && #[trigger] clipped_range(cur[k], next_f).contains(x);
                            if k < i {
                                assert(clipped_range(pre[k], next_f).contains(x));
                            }
                        }
                        assert forall|x: u64| #[trigger] sacked_targets(pre, next_f).union(clipped_range((a, b), next_f)).contains(x) implies sacked_targets(cur, next_f).contains(x) by {
                            if sacked_targets(pre, next_f).contains(x) {
                                let k = choose|k: int| 0 <= k < pre.len() && #[trigger] clipped_range(pre[k], next_f).contains(x);
                                assert(clipped_range(cur[k], next_f).contains(x));
                            } else {
                                assert(clipped_range(cur[i as int], next_f).contains(x));
                            }
                        }
                    }
                    if lo <= hi {
                        assert(attributed(next_f, self.cursor.sacked@) =~= attr_before.union(seq_span(lo as int, hi as int)));
                    }
                    assert(attributed(next_f, self.cursor.sacked@) =~= attr_before.union(clipped_range((a, b), next_f)));
                    assert(attributed(next_f, self.cursor.sacked@) =~= attr_mid.union(sacked_targets(cur, next_f)));
                }
            }
            i += 1;
        }
        proof {
            assert(sack_ranges@.take(sack_ranges.len() as int) =~= sack_ranges@);
            let f = fw.len() as int;
            assert(newly@.take(f) =~= fw);
            assert(newly@.skip(f) =~= sp);
            assert(delivered_in_order(old_next, old_sacked, received_up_to, sack_ranges@, next_f, newly@, f));
        }
        newly
    }
}

/// No ack delivers a seq twice: an ack whose frontier is already passed and
/// whose SACKed seqs are all attributed (a duplicate or reordered ack)
/// yields an empty diff.
pub proof fn stale_ack_delivers_nothing(
    pre_next: u64,
    pre_sacked: Set<u64>,
    received_up_to: u64,
    ranges: Seq<(u64, u64)>,
    post_next: u64,
    post_sacked: Set<u64>,
    newly: Seq<u64>,
)
    requires
        cursor_wf(pre_next, pre_sacked),
        delivered_step(pre_next, pre_sacked, received_up_to, ranges, post_next, post_sacked, newly),
        received_up_to < pre_next,
        sacked_targets(ranges, pre_next).subset_of(attributed(pre_next, pre_sacked)),
    ensures
        newly.len() == 0,
{
    assert(post_next == pre_next);
    if newly.len() > 0 {
        assert(newly.to_set().contains(newly[0]));
        assert(seq_span(0, received_up_to as int).contains(newly[0]) || sacked_targets(ranges, pre_next).contains(newly[0]));
        assert(attributed(pre_next, pre_sacked).contains(newly[0]));
    }
}

/// Replaying an ack that was fully applied delivers nothing new.
pub proof fn replayed_ack_delivers_nothing(
    pre_next: u64,
    pre_sacked: Set<u64>,
    received_up_to: u64,
    ranges: Seq<(u64, u64)>,
    mid_next: u64,
    mid_sacked: Set<u64>,
    first: Seq<u64>,
    post_next: u64,
    post_sacked: Set<u64>,
    second: Seq<u64>,
)
    requires
        cursor_wf(pre_next, pre_sacked),
        delivered_step(pre_next, pre_sacked, received_up_to, ranges, mid_next, mid_sacked, first),
        first.len() < MAX_PER_ACK,
        delivered_step(mid_next, mid_sacked, received_up_to, ranges, post_next, post_sacked, second),
    ensures
        second.len() == 0,
{
    assert forall|x: u64| #[trigger] sacked_targets(ranges, mid_next).contains(x) implies attributed(mid_next, mid_sacked).contains(x) by {
        assert(attributed(pre_next, pre_sacked).union(seq_span(0, received_up_to as int)).union(sacked_targets(ranges, mid_next)).contains(x));
    }
    stale_ack_delivers_nothing(mid_next, mid_sacked, received_up_to, ranges, post_next, post_sacked, second);
}

/// Across two successive acks, no seq is delivered twice, and every seq
/// attributed before stays attributed.
pub proof fn successive_acks_never_reattribute(
    pre_next: u64,
    pre_sacked: Set<u64>,
    r1: u64,
    ranges1: Seq<(u64, u64)>,
    mid_next: u64,
    mid_sacked: Set<u64>,
    first: Seq<u64>,
    r2: u64,
    ranges2: Seq<(u64, u64)>,
    post_next: u64,
    post_sacked: Set<u64>,
    second: Seq<u64>,
)
    requires
        delivered_step(pre_next, pre_sacked, r1, ranges1, mid_next, mid_sacked, first),
        delivered_step(mid_next, mid_sacked, r2, ranges2, post_next, post_sacked, second),
    ensures
        first.to_set().disjoint(second.to_set()),
        attributed(pre_next, pre_sacked).subset_of(attributed(post_next, post_sacked)),
{
    assert forall|x: u64| #[trigger] first.to_set().contains(x) implies !second.to_set().contains(x) by {
        assert(attributed(mid_next, mid_sacked).contains(x));
    }
}

/// A stream of acks applied one after another: cursor `k` (`nexts[k]`,
/// `sackeds[k]`) takes ack `k` (`rs[k]`, `rangess[k]`) to cursor `k + 1`,
/// delivering `newlys[k]`.
pub open spec fn ack_stream(
    nexts: Seq<u64>,
    sackeds: Seq<Set<u64>>,
    rs: Seq<u64>,
    rangess: Seq<Seq<(u64, u64)>>,
    newlys: Seq<Seq<u64>>,
) -> bool {
    &&& nexts.len() == rs.len() + 1
    &&& sackeds.len() == rs.len() + 1
    &&& rangess.len() == rs.len()
    &&& newlys.len() == rs.len()
    &&& forall|k: int|
        0 <= k < rs.len() ==> #[trigger] delivered_step(
            nexts[k],
            sackeds[k],
            rs[k],
            rangess[k],
            nexts[k + 1],
            sackeds[k + 1],
            newlys[k],
        )
}

/// Every seq the first `m` acks of a stream delivered.
pub open spec fn delivered_so_far(newlys: Seq<Seq<u64>>, m: int) -> Set<u64>
    decreases m,
{
    if m <= 0 { Set::empty() } else { delivered_so_far(newlys, m - 1).union(newlys[m - 1].to_set()) }
}

proof fn lemma_ack_stream_prefix(
    nexts: Seq<u64>,
    sackeds: Seq<Set<u64>>,
    rs: Seq<u64>,
    rangess: Seq<Seq<(u64, u64)>>,
    newlys: Seq<Seq<u64>>,
    m: int,
)
    requires
        ack_stream(nexts, sackeds, rs, rangess, newlys),
        0 <= m <= rs.len(),
    ensures
        attributed(nexts[m], sackeds[m]) == attributed(nexts[0], sackeds[0]).union(delivered_so_far(newlys, m)),
        forall|k: int| 0 <= k < m ==> (#[trigger] newlys[k]).to_set().subset_of(delivered_so_far(newlys, m)),
        forall|k: int|
            0 <= k < m && (#[trigger] newlys[k]).len() < MAX_PER_ACK ==> seq_span(0, rs[k] as int).union(
                sacked_targets(rangess[k], nexts[k + 1]),
            ).subset_of(attributed(nexts[m], sackeds[m])),
        forall|k1: int, k2: int|
            #![trigger newlys[k1], newlys[k2]]
            0 <= k1 < k2 < m ==> newlys[k1].to_set().disjoint(newlys[k2].to_set()),
        forall|k: int| 0 <= k < m ==> (#[trigger] newlys[k]).to_set().disjoint(attributed(nexts[0], sackeds[0])),
    decreases m,
{
    if m > 0 {
        lemma_ack_stream_prefix(nexts, sackeds, rs, rangess, newlys, m - 1);
        let j = m - 1;
        assert(delivered_step(nexts[j], sackeds[j], rs[j], rangess[j], nexts[j + 1], sackeds[j + 1], newlys[j]));
        let d = delivered_so_far(newlys, m);
        assert(d == delivered_so_far(newlys, j).union(newlys[j].to_set()));
        assert(attributed(nexts[m], sackeds[m]) =~= attributed(nexts[0], sackeds[0]).union(d));
        assert forall|k1: int, k2: int|
            #![trigger newlys[k1], newlys[k2]]
            0 <= k1 < k2 < m implies newlys[k1].to_set().disjoint(newlys[k2].to_set()) by {
            if k2 == j {
                assert forall|x: u64| newlys[k1].to_set().contains(x) implies !newlys[k2].to_set().contains(x) by {
                    assert(delivered_so_far(newlys, j).contains(x));
                    assert(attributed(nexts[j], sackeds[j]).contains(x));
                }
            }
        }
    }
}

/// Over any stream of acks, each seq is delivered at most once: the acks'
/// diffs are pairwise disjoint and disjoint from what the cursor had
/// attributed, the attributed set grows by exactly their union, and every
/// ack not cut short by the per-ack bound leaves its frontier and SACKed
/// seqs attributed for good. From a fresh cursor, the union of the diffs
/// then holds every seq up to every such ack's frontier.
pub proof fn ack_stream_attributes_each_seq_once(
    nexts: Seq<u64>,
    sackeds: Seq<Set<u64>>,
    rs: Seq<u64>,
    rangess: Seq<Seq<(u64, u64)>>,
    newlys: Seq<Seq<u64>>,
)
    requires
        ack_stream(nexts, sackeds, rs, rangess, newlys),
    ensures
        forall|k1: int, k2: int|
            #![trigger newlys[k1], newlys[k2]]
            0 <= k1 < k2 < rs.len() ==> newlys[k1].to_set().disjoint(newlys[k2].to_set()),
        forall|k: int| 0 <= k < rs.len() ==> (#[trigger] newlys[k]).to_set().disjoint(attributed(nexts[0], sackeds[0])),
        attributed(nexts[rs.len() as int], sackeds[rs.len() as int]) == attributed(nexts[0], sackeds[0]).union(
            delivered_so_far(newlys, rs.len() as int),
        ),
        forall|k: int|
            0 <= k < rs.len() && (#[trigger] newlys[k]).len() < MAX_PER_ACK ==> seq_span(0, rs[k] as int).subset_of(
                attributed(nexts[rs.len() as int], sackeds[rs.len() as int]),
            ),
        nexts[0] == 0 && sackeds[0] == Set::<u64>::empty() ==> forall|k: int|
            0 <= k < rs.len() && (#[trigger] newlys[k]).len() < MAX_PER_ACK ==> seq_span(0, rs[k] as int).subset_of(
                delivered_so_far(newlys, rs.len() as int),
            ),
{
    let n = rs.len() as int;
    lemma_ack_stream_prefix(nexts, sackeds, rs, rangess, newlys, n);
    if nexts[0] == 0 && sackeds[0] == Set::<u64>::empty() {
        assert(attributed(nexts[0], sackeds[0]) =~= Set::<u64>::empty());
        assert forall|k: int|
            0 <= k < rs.len() && (#[trigger] newlys[k]).len() < MAX_PER_ACK implies seq_span(0, rs[k] as int).subset_of(
                delivered_so_far(newlys, n),
            ) by {
            assert(seq_span(0, rs[k] as int).subset_of(attributed(nexts[n], sackeds[n])));
        }
    }
}

/// The flight-time witness on a known (or unknown) RTprop of the last
/// commitment's path: a single-path history credits the last path; a
/// cross-path history credits the last path only if its flight is at least
/// RTprop old at `now_us` (an unknown RTprop qualifies), else the previous
/// path.
pub open spec fn flight_path_given(commit: SendCommit, now_us: u64, rtprop_us: Option<u64>) -> u32 {
    match commit.prev {
        None => commit.last.0,
        Some(prev) => {
            let age: int = if now_us >= commit.last.1 { now_us - commit.last.1 } else { 0 };
            match rtprop_us {
                None => commit.last.0,
                Some(rtp) => if age >= rtp { commit.last.0 } else { prev.0 },
            }
        },
    }
}

/// The flight-time witness, given what the last path's RTprop reads.
pub fn flight_witness(commit: &SendCommit, now_us: u64, rtprop_us: Option<u64>) -> (p: u32)
    ensures
        p == flight_path_given(*commit, now_us, rtprop_us),
{
    match commit.prev {
        None => commit.last.0,
        Some((prev_path, _)) => {
            let age = now_us.saturating_sub(commit.last.1);
            let qualified = match rtprop_us {
                None => true,
                Some(rtp) => age >= rtp,
            };
            if qualified {
                commit.last.0
            } else {
                prev_path
            }
        },
    }
}

/// Which path's flight delivered an attributed seq: the flight-time witness,
/// reading the last path's RTprop through `rtprop_us_of` (asked only for a
/// cross-path history).
pub fn resolve_flight_path<F: Fn(u32) -> Option<u64>>(commit: &SendCommit, now_us: u64, rtprop_us_of: F) -> (p: u32)
    requires
        call_requires(rtprop_us_of, (commit.last.0,)),
    ensures
        commit.prev is None ==> p == commit.last.0,
        commit.prev is Some ==> exists|rtp: Option<u64>|
            call_ensures(rtprop_us_of, (commit.last.0,), rtp) && p == #[trigger] flight_path_given(*commit, now_us, rtp),
{
    match commit.prev {
        None => commit.last.0,
        Some(_) => {
            let rtp = rtprop_us_of(commit.last.0);
            let p = flight_witness(commit, now_us, rtp);
            assert(call_ensures(rtprop_us_of, (commit.last.0,), rtp) && p == flight_path_given(*commit, now_us, rtp));
            p
        },
    }
}

/// The commitment a (re)send of a seq on `path` at `now_us` leaves: a
/// cross-path retransmit keeps the previous commitment as the witness
/// fallback; a same-path resend only refreshes the send time.
pub open spec fn commit_after_send(prior: Option<SendCommit>, path: u32, now_us: u64) -> SendCommit {
    match prior {
        None => SendCommit { last: (path, now_us), prev: None },
        Some(cur) => SendCommit {
            last: (path, now_us),
            prev: if cur.last.0 != path { Some(cur.last) } else { cur.prev },
        },
    }
}

/// A commitment whose previous commitment, if any, is on another path.
pub open spec fn distinct_history(c: SendCommit) -> bool {
    c.prev matches Some(p) ==> p.0 != c.last.0
}

/// Every (re)send keeps a seq's previous commitment on a path other than
/// its last one: the witness fallback is always the previous distinct path
/// (an A, B, A bounce falls back to B).
pub proof fn sends_keep_the_previous_path_distinct(prior: Option<SendCommit>, path: u32, now_us: u64)
    requires
        prior matches Some(c) ==> distinct_history(c),
    ensures
        distinct_history(commit_after_send(prior, path, now_us)),
        commit_after_send(prior, path, now_us).last == (path, now_us),
{
}

/// A seq's commitment in a commitment map, if it has one.
pub open spec fn prior_commit(commits: Map<u64, SendCommit>, seq: u64) -> Option<SendCommit> {
    if commits.contains_key(seq) { Some(commits[seq]) } else { None }
}

/// A commitment history that crossed paths.
pub open spec fn crossed(c: Option<SendCommit>) -> bool {
    c matches Some(cm) && cm.prev is Some
}

/// The path credited with a seq whose commitment is `c`: the ack's arrival
/// path without a record; the witness on a cross-path history when it is on;
/// else the last-sent path.
pub open spec fn attributed_path(c: Option<SendCommit>, ack_path: u32, witness_on: bool, now_us: u64, rtprop_us: Option<u64>) -> u32 {
    match c {
        None => ack_path,
        Some(cm) => if cm.prev is Some && witness_on { flight_path_given(cm, now_us, rtprop_us) } else { cm.last.0 },
    }
}

/// A cross-path history whose witness credits the previous flight.
pub open spec fn witness_moved(c: Option<SendCommit>, now_us: u64, rtprop_us: Option<u64>) -> bool {
    crossed(c) && flight_path_given(c->0, now_us, rtprop_us) != c->0.last.0
}

/// How many of `seqs` have a cross-path history in `commits`.
pub open spec fn count_cross(commits: Map<u64, SendCommit>, seqs: Seq<u64>) -> nat
    decreases seqs.len(),
{
    if seqs.len() == 0 {
        0
    } else {
        count_cross(commits, seqs.drop_last()) + if crossed(prior_commit(commits, seqs.last())) { 1nat } else { 0nat }
    }
}

/// How many of `seqs` the witness moved to the previous flight, given the
/// RTprop readings `rtps`.
pub open spec fn count_moved(commits: Map<u64, SendCommit>, seqs: Seq<u64>, now_us: u64, rtps: Seq<Option<u64>>) -> nat
    decreases seqs.len(),
{
    if seqs.len() == 0 {
        0
    } else {
        count_moved(commits, seqs.drop_last(), now_us, rtps) + if witness_moved(
            prior_commit(commits, seqs.last()),
            now_us,
            rtps[seqs.len() - 1],
        ) {
            1nat
        } else {
            0nat
        }
    }
}

/// A diagnostic counter after one wrapping increment.
pub open spec fn bump(a: u64) -> u64 {
    if a == u64::MAX { 0 } else { (a + 1) as u64 }
}

/// A diagnostic counter after `n` wrapping increments.
pub open spec fn bumped(a: u64, n: nat) -> u64
    decreases n,
{
    if n == 0 { a } else { bump(bumped(a, (n - 1) as nat)) }
}

/// The seqs of an attribution list.
pub open spec fn out_seqs(out: Seq<(u64, u32)>) -> Seq<u64> {
    out.map_values(|x: (u64, u32)| x.0)
}

/// `out` credits each of `seqs` in order, given the RTprop readings `rtps`
/// that `rtprop_us_of` returned for the cross-path histories.
pub open spec fn attribution_matches<F: Fn(u32) -> Option<u64>>(
    commits: Map<u64, SendCommit>,
    seqs: Seq<u64>,
    out: Seq<(u64, u32)>,
    ack_path: u32,
    witness_on: bool,
    now_us: u64,
    rtprop_us_of: F,
    rtps: Seq<Option<u64>>,
) -> bool {
    &&& out.len() == seqs.len()
    &&& rtps.len() == seqs.len()
    &&& forall|k: int| 0 <= k < seqs.len() ==> (#[trigger] out[k]).0 == seqs[k]
    &&& forall|k: int| 0 <= k < seqs.len() && crossed(prior_commit(commits, seqs[k])) ==> call_ensures(
        rtprop_us_of,
        (commits[seqs[k]].last.0,),
        #[trigger] rtps[k],
    )
    &&& forall|k: int| 0 <= k < seqs.len() ==> (#[trigger] out[k]).1 == attributed_path(
        prior_commit(commits, seqs[k]),
        ack_path,
        witness_on,
        now_us,
        rtps[k],
    )
}

impl CopaFeed {
    /// Record a (re)send of source seq `seq` on `path` at `now_us`; nothing
    /// while the N1-scoped sampler is paused.
    pub fn on_sent_at(&mut self, seq: u64, path: u32, now_us: u64)
        ensures
            old(self).n1_pause ==> commits_of(final(self).seq_path) == commits_of(old(self).seq_path),
            !old(self).n1_pause ==> commits_of(final(self).seq_path) == commits_of(old(self).seq_path).insert(
                seq,
                commit_after_send(prior_commit(commits_of(old(self).seq_path), seq), path, now_us),
            ),
            final(self).cursor == old(self).cursor,
            final(self).sampling_only == old(self).sampling_only,
            final(self).attr_witness == old(self).attr_witness,
            final(self).attr_cross == old(self).attr_cross,
            final(self).attr_witness_prev == old(self).attr_witness_prev,
            final(self).n1_pause == old(self).n1_pause,
    {
        if self.n1_pause {
            return;
        }
        let next = match commits_get(&self.seq_path, seq) {
            Some(cur) => SendCommit {
                last: (path, now_us),
                prev: if cur.last.0 != path { Some(cur.last) } else { cur.prev },
            },
            None => SendCommit { last: (path, now_us), prev: None },
        };
        commits_insert(&mut self.seq_path, seq, next);
    }

    /// Record a (re)send of source seq `seq` on `path`, stamped with the wall
    /// clock; nothing while the N1-scoped sampler is paused.
    pub fn on_sent(&mut self, seq: u64, path: u32)
        ensures
            old(self).n1_pause ==> commits_of(final(self).seq_path) == commits_of(old(self).seq_path),
            !old(self).n1_pause ==> exists|now_us: u64|
                commits_of(final(self).seq_path) == #[trigger] commits_of(old(self).seq_path).insert(
                    seq,
                    commit_after_send(prior_commit(commits_of(old(self).seq_path), seq), path, now_us),
                ),
            final(self).cursor == old(self).cursor,
            final(self).sampling_only == old(self).sampling_only,
            final(self).attr_witness == old(self).attr_witness,
            final(self).attr_cross == old(self).attr_cross,
            final(self).attr_witness_prev == old(self).attr_witness_prev,
            final(self).n1_pause == old(self).n1_pause,
    {
        if self.n1_paused() {
            return;
        }
        let now = now_us();
        self.on_sent_at(seq, path, now);
    }

    /// The paused sampler's ack handling: fast-forward the cursor past
    /// `received_up_to` and drop every SACK marker and send record at or
    /// below it, attributing nothing.
    pub fn fast_forward(&mut self, received_up_to: u64)
        requires
            old(self).wf(),
            received_up_to < u64::MAX,
        ensures
            final(self).wf(),
            final(self).cursor.next == (if received_up_to >= old(self).cursor.next {
                received_up_to + 1
            } else {
                old(self).cursor.next as int
            }),
            final(self).cursor.sacked@ == old(self).cursor.sacked@.filter(|s: u64| s > received_up_to),
            commits_of(final(self).seq_path) == commits_of(old(self).seq_path).restrict(
                Set::new(|s: u64| s > received_up_to),
            ),
            final(self).sampling_only == old(self).sampling_only,
            final(self).attr_witness == old(self).attr_witness,
            final(self).attr_cross == old(self).attr_cross,
            final(self).attr_witness_prev == old(self).attr_witness_prev,
            final(self).n1_pause == old(self).n1_pause,
    {
        if received_up_to >= self.cursor.next {
            self.cursor.next = received_up_to + 1;
        }
        let kept = btree_set_split_off(&mut self.cursor.sacked, received_up_to + 1);
        self.cursor.sacked = kept;
        assert(self.cursor.sacked@ =~= old(self).cursor.sacked@.filter(|s: u64| s > received_up_to));
        commits_retain_above(&mut self.seq_path, received_up_to);
    }

    /// Credit each newly delivered seq to the path whose flight delivered
    /// it, consuming its send record and counting the cross-path histories
    /// (and the witness's moves to the previous flight) in the diagnostics.
    pub fn attribute_seqs<F: Fn(u32) -> Option<u64>>(
        &mut self,
        newly: &Vec<u64>,
        ack_path: u32,
        now_us: u64,
        rtprop_us_of: F,
    ) -> (out: Vec<(u64, u32)>)
        requires
            newly@.no_duplicates(),
            forall|p: u32| call_requires(rtprop_us_of, (p,)),
        ensures
            commits_of(final(self).seq_path) == commits_of(old(self).seq_path).remove_keys(newly@.to_set()),
            out_seqs(out@) == newly@,
            final(self).attr_cross == bumped(old(self).attr_cross, count_cross(commits_of(old(self).seq_path), newly@)),
            exists|rtps: Seq<Option<u64>>| #[trigger]
                attribution_matches(
                    commits_of(old(self).seq_path),
                    newly@,
                    out@,
                    ack_path,
                    old(self).attr_witness,
                    now_us,
                    rtprop_us_of,
                    rtps,
                ) && final(self).attr_witness_prev == bumped(
                    old(self).attr_witness_prev,
                    count_moved(commits_of(old(self).seq_path), newly@, now_us, rtps),
                ),
            final(self).cursor == old(self).cursor,
            final(self).sampling_only == old(self).sampling_only,
            final(self).attr_witness == old(self).attr_witness,
            final(self).n1_pause == old(self).n1_pause,
    {
        let ghost prior = commits_of(self.seq_path);
        let ghost mut rtps: Seq<Option<u64>> = Seq::empty();
        let mut out: Vec<(u64, u32)> = Vec::new();
        let mut k: usize = 0;
        while k < newly.len()
            invariant
                0 <= k <= newly.len(),
                newly@.no_duplicates(),
                forall|p: u32| call_requires(rtprop_us_of, (p,)),
                prior == commits_of(old(self).seq_path),
                commits_of(self.seq_path) == prior.remove_keys(newly@.take(k as int).to_set()),
                self.attr_cross == bumped(old(self).attr_cross, count_cross(prior, newly@.take(k as int))),
                self.attr_witness_prev == bumped(old(self).attr_witness_prev, count_moved(prior, newly@.take(k as int), now_us, rtps)),
                attribution_matches(prior, newly@.take(k as int), out@, ack_path, self.attr_witness, now_us, rtprop_us_of, rtps),
                self.attr_witness == old(self).attr_witness,
                self.cursor == old(self).cursor,
                self.sampling_only == old(self).sampling_only,
                self.n1_pause == old(self).n1_pause,
            decreases newly.len() - k,
        {
            let seq = newly[k];
            let ghost pre_take = newly@.take(k as int);
            let ghost cur_take = newly@.take(k as int + 1);
            proof {
                assert(cur_take.drop_last() =~= pre_take);
                assert(cur_take.last() == seq);
                assert(!pre_take.to_set().contains(seq)) by {
                    if pre_take.to_set().contains(seq) {
                        let j = choose|j: int| 0 <= j < pre_take.len() && pre_take[j] == seq;
                        assert(newly@[j] == newly@[k as int]);
                    }
                }
            }
            let mut rtp: Option<u64> = None;
            let p = match commits_remove(&mut self.seq_path, seq) {
                Some((_, commit)) => {
                    match commit.prev {
                        Some(_) => {
                            self.attr_cross = self.attr_cross.wrapping_add(1);
                            rtp = rtprop_us_of(commit.last.0);
                            let witness = flight_witness(&commit, now_us, rtp);
                            if witness != commit.last.0 {
                                self.attr_witness_prev = self.attr_witness_prev.wrapping_add(1);
                            }
                            if self.attr_witness {
                                witness
                            } else {
                                commit.last.0
                            }
                        },
                        None => commit.last.0,
                    }
                },
                None => ack_path,
            };
            let ghost old_out = out@;
            out.push((seq, p));
            proof {
                let old_rtps = rtps;
                rtps = rtps.push(rtp);
                assert(commits_of(self.seq_path) =~= prior.remove_keys(cur_take.to_set()));
                assert(count_moved(prior, pre_take, now_us, rtps) == count_moved(prior, pre_take, now_us, old_rtps)) by {
                    lemma_count_moved_prefix(prior, pre_take, now_us, old_rtps, rtps);
                }
                assert forall|j: int| 0 <= j < cur_take.len() implies (#[trigger] out@[j]).0 == cur_take[j] by {
                    if j < k {
                        assert(out@[j] == old_out[j]);
                    }
                }
            }
            k += 1;
        }
        proof {
            assert(newly@.take(newly.len() as int) =~= newly@);
            assert(out_seqs(out@) =~= newly@);
        }
        out
    }
}

/// The witness count over a prefix reads only the prefix's RTprop readings.
proof fn lemma_count_moved_prefix(
    commits: Map<u64, SendCommit>,
    seqs: Seq<u64>,
    now_us: u64,
    a: Seq<Option<u64>>,
    b: Seq<Option<u64>>,
)
    requires
        seqs.len() <= a.len(),
        seqs.len() <= b.len(),
        forall|j: int| 0 <= j < seqs.len() ==> a[j] == b[j],
    ensures
        count_moved(commits, seqs, now_us, a) == count_moved(commits, seqs, now_us, b),
    decreases seqs.len(),
{
    if seqs.len() > 0 {
        lemma_count_moved_prefix(commits, seqs.drop_last(), now_us, a, b);
    }
}

/// The acks a feed can take without its frontier arithmetic overflowing.
pub open spec fn ack_fits(feed: CopaFeed, received_up_to: u64) -> bool {
    if feed.n1_pause {
        received_up_to < u64::MAX
    } else {
        frontier_walk_fits(feed.cursor.next, feed.cursor.sacked@, received_up_to)
    }
}

/// What one WindowAck does to the feed, attributing `out` with the wall
/// clock at `now_us`: a paused sampler only fast-forwards; otherwise the
/// newly delivered seqs are diffed off the cursor and each is credited, in
/// order, to the path whose flight delivered it.
pub open spec fn ack_applied<F: Fn(u32) -> Option<u64>>(
    pre: CopaFeed,
    post: CopaFeed,
    ack_path: u32,
    received_up_to: u64,
    ranges: Seq<(u64, u64)>,
    now_us: u64,
    rtprop_us_of: F,
    out: Seq<(u64, u32)>,
) -> bool {
    &&& post.wf()
    &&& post.sampling_only == pre.sampling_only
    &&& post.attr_witness == pre.attr_witness
    &&& post.n1_pause == pre.n1_pause
    &&& if pre.n1_pause {
        &&& out.len() == 0
        &&& post.cursor.next == (if received_up_to >= pre.cursor.next {
            received_up_to + 1
        } else {
            pre.cursor.next as int
        })
        &&& post.cursor.sacked@ == pre.cursor.sacked@.filter(|s: u64| s > received_up_to)
        &&& commits_of(post.seq_path) == commits_of(pre.seq_path).restrict(Set::new(|s: u64| s > received_up_to))
        &&& post.attr_cross == pre.attr_cross
        &&& post.attr_witness_prev == pre.attr_witness_prev
    } else {
        &&& delivered_step(
            pre.cursor.next,
            pre.cursor.sacked@,
            received_up_to,
            ranges,
            post.cursor.next,
            post.cursor.sacked@,
            out_seqs(out),
        )
        &&& commits_of(post.seq_path) == commits_of(pre.seq_path).remove_keys(out_seqs(out).to_set())
        &&& post.attr_cross == bumped(pre.attr_cross, count_cross(commits_of(pre.seq_path), out_seqs(out)))
        &&& exists|rtps: Seq<Option<u64>>| #[trigger]
            attribution_matches(
                commits_of(pre.seq_path),
                out_seqs(out),
                out,
                ack_path,
                pre.attr_witness,
                now_us,
                rtprop_us_of,
                rtps,
            ) && post.attr_witness_prev == bumped(
                pre.attr_witness_prev,
                count_moved(commits_of(pre.seq_path), out_seqs(out), now_us, rtps),
            )
    }
}

/// Apply one WindowAck to the feed with the wall clock at `now_us`: the
/// `(seq, path)` attributions it yields, in order (the caller feeds each to
/// its path's rate sampler).
pub fn copa_feed_attribute_at<F: Fn(u32) -> Option<u64>>(
    feed: &mut CopaFeed,
    ack_path: u32,
    received_up_to: u64,
    sack_ranges: &[(u64, u64)],
    now_us: u64,
    rtprop_us_of: F,
) -> (out: Vec<(u64, u32)>)
    requires
        old(feed).wf(),
        ack_fits(*old(feed), received_up_to),
        forall|p: u32| call_requires(rtprop_us_of, (p,)),
    ensures
        ack_applied(*old(feed), *final(feed), ack_path, received_up_to, sack_ranges@, now_us, rtprop_us_of, out@),
{
    if feed.n1_paused() {
        feed.fast_forward(received_up_to);
        return Vec::new();
    }
    let newly = feed.newly_delivered(received_up_to, sack_ranges);
    let out = feed.attribute_seqs(&newly, ack_path, now_us, rtprop_us_of);
    out
}

/// Apply one WindowAck to the feed, stamping the attributions with the wall
/// clock: the `(seq, path)` attributions it yields, in order.
pub fn copa_feed_attribute<F: Fn(u32) -> Option<u64>>(
    feed: &mut CopaFeed,
    ack_path: u32,
    received_up_to: u64,
    sack_ranges: &[(u64, u64)],
    rtprop_us_of: F,
) -> (out: Vec<(u64, u32)>)
    requires
        old(feed).wf(),
        ack_fits(*old(feed), received_up_to),
        forall|p: u32| call_requires(rtprop_us_of, (p,)),
    ensures
        exists|now_us: u64|
            #[trigger] ack_applied(*old(feed), *final(feed), ack_path, received_up_to, sack_ranges@, now_us, rtprop_us_of, out@),
{
    if feed.n1_paused() {
        feed.fast_forward(received_up_to);
        let out: Vec<(u64, u32)> = Vec::new();
        assert(ack_applied(*old(feed), *feed, ack_path, received_up_to, sack_ranges@, 0, rtprop_us_of, out@));
        return out;
    }
    let newly = feed.newly_delivered(received_up_to, sack_ranges);
    if newly.len() == 0 {
        let out: Vec<(u64, u32)> = Vec::new();
        proof {
            assert(out_seqs(out@) =~= newly@);
            assert(commits_of(feed.seq_path) =~= commits_of(old(feed).seq_path).remove_keys(newly@.to_set()));
            assert(attribution_matches(
                commits_of(old(feed).seq_path),
                out_seqs(out@),
                out@,
                ack_path,
                old(feed).attr_witness,
                0,
                rtprop_us_of,
                Seq::empty(),
            ));
            assert(ack_applied(*old(feed), *feed, ack_path, received_up_to, sack_ranges@, 0, rtprop_us_of, out@));
        }
        return out;
    }
    let now = now_us();
    let out = feed.attribute_seqs(&newly, ack_path, now, rtprop_us_of);
    assert(ack_applied(*old(feed), *feed, ack_path, received_up_to, sack_ranges@, now, rtprop_us_of, out@));
    out
}

} // verus!
