//! Generation-mode deficit feedback on the receiver: the per-generation
//! residual deficits, and the repair-coverage horizon that withholds a
//! deficit until the proactive repair had its chance.

use crate::collections::btree_map_range_keys;
use crate::timing::{duration_as_nanos, duration_nanos, instant_saturating_since, instant_since};
use std::collections::BTreeMap;
use std::time::{Duration, Instant};
use vstd::prelude::*;

verus! {

broadcast use vstd::std_specs::btree::group_btree_axioms;

/// The anchors of `widths` in ascending order.
pub open spec fn ascending_anchors(widths: Map<u64, u16>, anchors: Seq<u64>) -> bool {
    &&& forall|i: int, j: int| 0 <= i < j < anchors.len() ==> anchors[i] < anchors[j]
    &&& forall|a: u64| #[trigger] anchors.contains(a) <==> widths.contains_key(a)
}

/// The deficit report built from the first `n` anchors, given the rank each
/// examined generation reported: `(anchor, K - rank)` for every generation
/// still short of its width, stopping once `report_gens` are listed.
pub open spec fn deficit_scan(
    anchors: Seq<u64>,
    widths: Map<u64, u16>,
    ranks: Seq<u64>,
    report_gens: int,
    n: int,
) -> Seq<(u64, u32)>
    decreases n,
{
    if n <= 0 {
        Seq::empty()
    } else {
        let prev = deficit_scan(anchors, widths, ranks, report_gens, n - 1);
        if prev.len() >= report_gens {
            prev
        } else {
            let a = anchors[n - 1];
            let k = widths[a] as int;
            let r = ranks[n - 1] as int;
            if k > r { prev.push((a, (k - r) as u32)) } else { prev }
        }
    }
}

/// The rank outputs behind a report: every generation the scan examined got
/// its rank from `rank_of`.
pub open spec fn ranks_reported<F: Fn(u64, u64) -> u64>(
    rank_of: F,
    anchors: Seq<u64>,
    widths: Map<u64, u16>,
    ranks: Seq<u64>,
    report_gens: int,
) -> bool {
    &&& ranks.len() == anchors.len()
    &&& forall|i: int|
        0 <= i < anchors.len() && deficit_scan(anchors, widths, ranks, report_gens, i).len() < report_gens
            ==> call_ensures(rank_of, (anchors[i], widths[anchors[i]] as u64), #[trigger] ranks[i])
}

/// Collect per-generation residual deficits in anchor order, skipping
/// fully-decoded generations, up to `report_gens` `(anchor, K - rank)` pairs.
pub fn collect_gen_deficits<F: Fn(u64, u64) -> u64>(
    gen_widths: &BTreeMap<u64, u16>,
    report_gens: usize,
    rank_of: F,
) -> (deficits: Vec<(u64, u32)>)
    requires
        forall|anchor: u64, k: u64| rank_of.requires((anchor, k)),
    ensures
        exists|anchors: Seq<u64>, ranks: Seq<u64>|
            #[trigger] ascending_anchors(gen_widths@, anchors)
            && #[trigger] ranks_reported(rank_of, anchors, gen_widths@, ranks, report_gens as int)
            && deficits@ == deficit_scan(anchors, gen_widths@, ranks, report_gens as int, anchors.len() as int),
{
    let anchors = btree_map_range_keys(gen_widths, 0, u64::MAX);
    let ghost widths = gen_widths@;
    let ghost mut ranks: Seq<u64> = Seq::new(anchors.len() as nat, |i: int| 0u64);
    let mut deficits: Vec<(u64, u32)> = Vec::new();
    let mut i: usize = 0;
    while i < anchors.len()
        invariant
            0 <= i <= anchors.len(),
            widths == gen_widths@,
            forall|x: u64| #[trigger] anchors@.contains(x) <==> (widths.contains_key(x) && 0 <= x <= u64::MAX),
            forall|a: int, b: int| 0 <= a < b < anchors.len() ==> anchors[a] < anchors[b],
            forall|a: u64, k: u64| rank_of.requires((a, k)),
            ranks.len() == anchors.len(),
            forall|j: int|
                0 <= j < i && deficit_scan(anchors@, widths, ranks, report_gens as int, j).len() < report_gens
                    ==> call_ensures(rank_of, (anchors@[j], widths[anchors@[j]] as u64), #[trigger] ranks[j]),
            deficits@ == deficit_scan(anchors@, widths, ranks, report_gens as int, i as int),
        decreases anchors.len() - i,
    {
        if deficits.len() >= report_gens {
            proof {
                lemma_deficit_scan_frozen(anchors@, widths, ranks, report_gens as int, i as int, anchors.len() as int);
                assert forall|j: int|
                    0 <= j < anchors.len() && deficit_scan(anchors@, widths, ranks, report_gens as int, j).len() < report_gens
                    implies call_ensures(rank_of, (anchors@[j], widths[anchors@[j]] as u64), #[trigger] ranks[j]) by {
                    if j >= i {
                        lemma_deficit_scan_frozen(anchors@, widths, ranks, report_gens as int, i as int, j);
                    }
                }
                assert(ascending_anchors(widths, anchors@));
                assert(ranks_reported(rank_of, anchors@, widths, ranks, report_gens as int));
            }
            return deficits;
        }
        let anchor = anchors[i];
        assert(anchors@.contains(anchor));
        let k = *gen_widths.get(&anchor).unwrap();
        let rank = rank_of(anchor, k as u64);
        let deficit = (k as u64).saturating_sub(rank);
        proof {
            let ghost old_ranks = ranks;
            ranks = ranks.update(i as int, rank);
            lemma_deficit_scan_ranks_prefix(anchors@, widths, old_ranks, ranks, report_gens as int, i as int);
            assert forall|j: int| 0 <= j <= i implies deficit_scan(anchors@, widths, ranks, report_gens as int, j)
                == deficit_scan(anchors@, widths, old_ranks, report_gens as int, j) by {
                lemma_deficit_scan_ranks_prefix(anchors@, widths, old_ranks, ranks, report_gens as int, j);
            }
        }
        if deficit > 0 {
            deficits.push((anchor, deficit as u32));
        }
        i += 1;
    }
    proof {
        assert(ascending_anchors(widths, anchors@));
        assert(ranks_reported(rank_of, anchors@, widths, ranks, report_gens as int));
    }
    deficits
}

/// With a report bound at least the number of generations, one report
/// lists every deficient generation with its full deficit, and only
/// deficient ones: the whole residual is requested in a single round.
pub proof fn all_deficits_reported_in_one_round(
    anchors: Seq<u64>,
    widths: Map<u64, u16>,
    ranks: Seq<u64>,
    report_gens: int,
    n: int,
)
    requires
        0 <= n <= anchors.len(),
        n <= report_gens,
    ensures
        deficit_scan(anchors, widths, ranks, report_gens, n).len() <= n,
        forall|i: int| #![trigger ranks[i]]
            0 <= i < n && widths[anchors[i]] > ranks[i] ==> deficit_scan(anchors, widths, ranks, report_gens, n).contains(
                (anchors[i], (widths[anchors[i]] - ranks[i]) as u32),
            ),
        forall|k: int|
            0 <= k < deficit_scan(anchors, widths, ranks, report_gens, n).len() ==> (#[trigger] deficit_scan(
                anchors,
                widths,
                ranks,
                report_gens,
                n,
            )[k]).1 > 0,
    decreases n,
{
    if n > 0 {
        all_deficits_reported_in_one_round(anchors, widths, ranks, report_gens, n - 1);
        let prev = deficit_scan(anchors, widths, ranks, report_gens, n - 1);
        let cur = deficit_scan(anchors, widths, ranks, report_gens, n);
        let a = anchors[n - 1];
        let k = widths[a] as int;
        let r = ranks[n - 1] as int;
        if k > r {
            let x = (a, (k - r) as u32);
            assert(cur == prev.push(x));
            assert forall|i: int| #![trigger ranks[i]]
                0 <= i < n && widths[anchors[i]] > ranks[i] implies cur.contains(
                    (anchors[i], (widths[anchors[i]] - ranks[i]) as u32),
                ) by {
                if i < n - 1 {
                    let j = choose|j: int| 0 <= j < prev.len() && prev[j] == (anchors[i], (widths[anchors[i]] - ranks[i]) as u32);
                    assert(cur[j] == prev[j]);
                } else {
                    assert(cur[prev.len() as int] == x);
                }
            }
            assert forall|m: int| 0 <= m < cur.len() implies (#[trigger] cur[m]).1 > 0 by {
                if m < prev.len() {
                    assert(cur[m] == prev[m]);
                }
            }
        }
    }
}

/// How many of the first `n` generations are still short of their width.
pub open spec fn count_deficient(anchors: Seq<u64>, widths: Map<u64, u16>, ranks: Seq<u64>, n: int) -> nat
    decreases n,
{
    if n <= 0 {
        0
    } else {
        count_deficient(anchors, widths, ranks, n - 1) + if widths[anchors[n - 1]] > ranks[n - 1] {
            1nat
        } else {
            0nat
        }
    }
}

/// A report lists exactly the first `min(report_gens, #deficient)`
/// deficient generations in anchor order, each with its deficit `K - rank`:
/// a deficient generation with `c` deficient generations before it is the
/// entry at position `c` whenever the report reaches that far. A fully
/// decoded generation is never listed and never uses up the report bound.
pub proof fn deficit_report_is_first_deficient(
    anchors: Seq<u64>,
    widths: Map<u64, u16>,
    ranks: Seq<u64>,
    report_gens: int,
    n: int,
)
    requires
        0 <= n <= anchors.len(),
        0 <= report_gens,
    ensures
        deficit_scan(anchors, widths, ranks, report_gens, n).len() == if report_gens
            < count_deficient(anchors, widths, ranks, n) {
            report_gens
        } else {
            count_deficient(anchors, widths, ranks, n) as int
        },
        forall|i: int|
            0 <= i < n && widths[anchors[i]] > ranks[i] && #[trigger] count_deficient(anchors, widths, ranks, i)
                < deficit_scan(anchors, widths, ranks, report_gens, n).len() ==> deficit_scan(
                anchors,
                widths,
                ranks,
                report_gens,
                n,
            )[count_deficient(anchors, widths, ranks, i) as int] == (
                anchors[i],
                (widths[anchors[i]] - ranks[i]) as u32,
            ),
    decreases n,
{
    if n > 0 {
        deficit_report_is_first_deficient(anchors, widths, ranks, report_gens, n - 1);
        let prev = deficit_scan(anchors, widths, ranks, report_gens, n - 1);
        let cur = deficit_scan(anchors, widths, ranks, report_gens, n);
        let a = anchors[n - 1];
        let k = widths[a] as int;
        let r = ranks[n - 1] as int;
        if prev.len() >= report_gens || k <= r {
            assert(cur == prev);
        } else {
            let x = (a, (k - r) as u32);
            assert(cur == prev.push(x));
            assert forall|i: int|
                0 <= i < n && widths[anchors[i]] > ranks[i] && #[trigger] count_deficient(anchors, widths, ranks, i)
                    < cur.len() implies cur[count_deficient(anchors, widths, ranks, i) as int] == (
                    anchors[i],
                    (widths[anchors[i]] - ranks[i]) as u32,
                ) by {
                if i < n - 1 {
                    lemma_count_deficient_mono(anchors, widths, ranks, i + 1, n - 1);
                    assert(count_deficient(anchors, widths, ranks, i + 1) == count_deficient(anchors, widths, ranks, i) + 1);
                    assert(cur[count_deficient(anchors, widths, ranks, i) as int] == prev[count_deficient(anchors, widths, ranks, i) as int]);
                }
            }
        }
    }
}

/// Counting deficient generations is monotone in how many are examined.
proof fn lemma_count_deficient_mono(anchors: Seq<u64>, widths: Map<u64, u16>, ranks: Seq<u64>, i: int, j: int)
    requires
        0 <= i <= j,
    ensures
        count_deficient(anchors, widths, ranks, i) <= count_deficient(anchors, widths, ranks, j),
    decreases j - i,
{
    if i < j {
        lemma_count_deficient_mono(anchors, widths, ranks, i, j - 1);
    }
}

proof fn lemma_deficit_scan_frozen(anchors: Seq<u64>, widths: Map<u64, u16>, ranks: Seq<u64>, report_gens: int, n0: int, n: int)
    requires
        0 <= n0 <= n,
        deficit_scan(anchors, widths, ranks, report_gens, n0).len() >= report_gens,
    ensures
        deficit_scan(anchors, widths, ranks, report_gens, n) == deficit_scan(anchors, widths, ranks, report_gens, n0),
    decreases n - n0,
{
    if n > n0 {
        lemma_deficit_scan_frozen(anchors, widths, ranks, report_gens, n0, n - 1);
    }
}

proof fn lemma_deficit_scan_ranks_prefix(
    anchors: Seq<u64>,
    widths: Map<u64, u16>,
    r1: Seq<u64>,
    r2: Seq<u64>,
    report_gens: int,
    n: int,
)
    requires
        forall|j: int| 0 <= j < n ==> r1[j] == r2[j],
    ensures
        deficit_scan(anchors, widths, r1, report_gens, n) == deficit_scan(anchors, widths, r2, report_gens, n),
    decreases n,
{
    if n > 0 {
        lemma_deficit_scan_ranks_prefix(anchors, widths, r1, r2, report_gens, n - 1);
    }
}

/// The instant a deficient generation was first seen: its armed instant,
/// or `now` when it is newly armed.
pub open spec fn armed_at(armed: Map<u64, Instant>, anchor: u64, now: Instant) -> Instant {
    if armed.contains_key(anchor) { armed[anchor] } else { now }
}

/// The arming map after one gate pass: exactly the anchors still deficient,
/// each keeping its first-seen instant.
pub open spec fn rearmed(deficits: Seq<(u64, u32)>, armed: Map<u64, Instant>, now: Instant) -> Map<u64, Instant> {
    Map::new(|a: u64| has_anchor(deficits, a), |a: u64| armed_at(armed, a, now))
}

/// Some deficit entry names generation `anchor`.
pub open spec fn has_anchor(deficits: Seq<(u64, u32)>, anchor: u64) -> bool {
    exists|i: int| 0 <= i < deficits.len() && (#[trigger] deficits[i]).0 == anchor
}

proof fn lemma_has_anchor_push(pre: Seq<(u64, u32)>, x: (u64, u32), a: u64)
    ensures
        has_anchor(pre.push(x), a) == (has_anchor(pre, a) || x.0 == a),
{
    let s = pre.push(x);
    if has_anchor(pre, a) {
        let j = choose|j: int| 0 <= j < pre.len() && (#[trigger] pre[j]).0 == a;
        assert(s[j] == pre[j]);
    }
    if x.0 == a {
        assert(s[pre.len() as int] == x);
    }
    if has_anchor(s, a) {
        let j = choose|j: int| 0 <= j < s.len() && (#[trigger] s[j]).0 == a;
        if j < pre.len() {
            assert(s[j] == pre[j]);
        }
    }
}

/// The deficits whose horizon has expired, in report order.
pub open spec fn ripe_deficits(deficits: Seq<(u64, u32)>, armed: Map<u64, Instant>, horizon: Duration, now: Instant) -> Seq<(u64, u32)> {
    deficits.filter(|d: (u64, u32)| duration_nanos(instant_since(now, armed_at(armed, d.0, now))) >= duration_nanos(horizon))
}

fn copy_deficits(deficits: &[(u64, u32)]) -> (v: Vec<(u64, u32)>)
    ensures
        v@ == deficits@,
{
    let mut v: Vec<(u64, u32)> = Vec::new();
    let mut i: usize = 0;
    while i < deficits.len()
        invariant
            0 <= i <= deficits.len(),
            v@ == deficits@.take(i as int),
        decreases deficits.len() - i,
    {
        v.push(deficits[i]);
        assert(deficits@.take(i as int + 1) =~= deficits@.take(i as int).push(deficits@[i as int]));
        i += 1;
    }
    assert(deficits@.take(deficits.len() as int) =~= deficits@);
    v
}

/// Repair-coverage horizon gate: a generation's deficit is reported only
/// once it has been outstanding for `horizon`; anchors that decoded drop out
/// of `armed`. A zero horizon reports every deficit at once.
pub fn horizon_gate_deficits(
    deficits: &[(u64, u32)],
    armed: &mut BTreeMap<u64, Instant>,
    horizon: Duration,
    now: Instant,
) -> (ready: Vec<(u64, u32)>)
    ensures
        duration_nanos(horizon) == 0 ==> ready@ == deficits@ && final(armed)@ == old(armed)@,
        duration_nanos(horizon) != 0 ==> ready@ == ripe_deficits(deficits@, old(armed)@, horizon, now)
            && final(armed)@ == rearmed(deficits@, old(armed)@, now),
        duration_nanos(horizon) != 0 ==> forall|k: int|
            0 <= k < ready.len() ==> old(armed)@.contains_key(#[trigger] ready@[k].0),
{
    if duration_as_nanos(&horizon) == 0 {
        return copy_deficits(deficits);
    }
    let ghost old_armed = armed@;
    let horizon_ns = duration_as_nanos(&horizon);
    let mut next: BTreeMap<u64, Instant> = BTreeMap::new();
    let mut ready: Vec<(u64, u32)> = Vec::new();
    let mut i: usize = 0;
    while i < deficits.len()
        invariant
            0 <= i <= deficits.len(),
            armed@ == old_armed,
            horizon_ns == duration_nanos(horizon),
            next@ == rearmed(deficits@.take(i as int), old_armed, now),
            ready@ == ripe_deficits(deficits@.take(i as int), old_armed, horizon, now),
            horizon_ns != 0,
            forall|k: int| 0 <= k < ready.len() ==> old_armed.contains_key(#[trigger] ready@[k].0),
        decreases deficits.len() - i,
    {
        let (anchor, deficit) = deficits[i];
        let first = match armed.get(&anchor) {
            Some(t) => *t,
            None => now,
        };
        next.insert(anchor, first);
        if duration_as_nanos(&instant_saturating_since(now, first)) >= horizon_ns {
            assert(old_armed.contains_key(anchor));
            ready.push((anchor, deficit));
        }
        proof {
            let pre = deficits@.take(i as int);
            assert(deficits@.take(i as int + 1) =~= pre.push((anchor, deficit)));
            let f = |d: (u64, u32)| duration_nanos(instant_since(now, armed_at(old_armed, d.0, now))) >= duration_nanos(horizon);
            pre.lemma_filter_push((anchor, deficit), f);
            assert forall|a: u64| #[trigger] has_anchor(pre.push((anchor, deficit)), a) == (has_anchor(pre, a) || anchor == a) by {
                lemma_has_anchor_push(pre, (anchor, deficit), a);
            }
            assert(next@ =~= rearmed(deficits@.take(i as int + 1), old_armed, now));
        }
        i += 1;
    }
    proof {
        assert(deficits@.take(deficits.len() as int) =~= deficits@);
    }
    *armed = next;
    ready
}

} // verus!
