//! Run lists: ascending, separated, inclusive `(lo, hi)` ranges of sequence
//! numbers, and the characterization of "the maximal missing runs of a set
//! inside a window", which both the receiver's gap computation and the
//! sender's SACK inversion produce.

use vstd::prelude::*;

verus! {

/// `x` is a sequence number that the set holds.
pub open spec fn present(s: Set<u64>, x: int) -> bool {
    0 <= x <= u64::MAX && s.contains(x as u64)
}

/// `x` lies inside run `i` of `r`.
pub open spec fn in_run(r: Seq<(u64, u64)>, i: int, x: int) -> bool {
    0 <= i < r.len() && r[i].0 <= x <= r[i].1
}

/// Some run of `r` holds `x`.
pub open spec fn covered(r: Seq<(u64, u64)>, x: int) -> bool {
    exists|i: int| #[trigger] in_run(r, i, x)
}

/// Runs are non-empty, ascending and separated by at least one seq.
pub open spec fn runs_sorted(r: Seq<(u64, u64)>) -> bool {
    &&& forall|i: int| 0 <= i < r.len() ==> (#[trigger] r[i]).0 <= r[i].1
    &&& forall|i: int, j: int|
        0 <= i < j < r.len() ==> (#[trigger] r[i]).1 + 1 < (#[trigger] r[j]).0
}

/// Sorted runs inside `[ws, we]` holding only seqs absent from `s`.
pub open spec fn runs_sound(r: Seq<(u64, u64)>, s: Set<u64>, ws: int, we: int) -> bool {
    &&& runs_sorted(r)
    &&& forall|i: int| 0 <= i < r.len() ==> ws <= (#[trigger] r[i]).0 && r[i].1 <= we
    &&& forall|i: int, x: int| #[trigger] in_run(r, i, x) ==> !present(s, x)
}

/// Every seq of `[ws, bound]` absent from `s` lies in some run.
pub open spec fn runs_complete_upto(r: Seq<(u64, u64)>, s: Set<u64>, ws: int, bound: int) -> bool {
    forall|x: int|
        #![trigger present(s, x)]
        #![trigger covered(r, x)]
        ws <= x <= bound && !present(s, x) ==> covered(r, x)
}

/// `r` is exactly the list of maximal runs of seqs of `[ws, we]` absent from `s`.
pub open spec fn runs_exact(r: Seq<(u64, u64)>, s: Set<u64>, ws: int, we: int) -> bool {
    &&& runs_sound(r, s, ws, we)
    &&& runs_complete_upto(r, s, ws, we)
}

/// `r` is the first `min(cap, n)` of the `n` maximal missing runs of
/// `[ws, we]`: complete when shorter than `cap`; otherwise complete up to its
/// last run, whose end is maximal.
pub open spec fn runs_capped(r: Seq<(u64, u64)>, s: Set<u64>, ws: int, we: int, cap: int) -> bool {
    &&& runs_sound(r, s, ws, we)
    &&& r.len() <= cap
    &&& r.len() < cap ==> runs_complete_upto(r, s, ws, we)
    &&& r.len() == cap && cap > 0 ==> {
        &&& runs_complete_upto(r, s, ws, r.last().1 as int)
        &&& (r.last().1 == we || present(s, r.last().1 + 1))
    }
}

/// Two sets that agree on every seq of `[ws, we]`.
pub open spec fn agree_on(s1: Set<u64>, s2: Set<u64>, ws: int, we: int) -> bool {
    forall|x: int| ws <= x <= we ==> present(s1, x) == present(s2, x)
}

/// The set of seqs that some run of `r` holds.
pub open spec fn cover_set(r: Seq<(u64, u64)>) -> Set<u64> {
    Set::new(|x: u64| covered(r, x as int))
}

proof fn lemma_last_bounds(r: Seq<(u64, u64)>, i: int)
    requires
        runs_sorted(r),
        0 <= i < r.len(),
    ensures
        r[i].1 <= r.last().1,
        i < r.len() - 1 ==> r[i].1 + 1 < r.last().0,
{
    if i < r.len() - 1 {
        assert(r[i].1 + 1 < r[r.len() - 1].0);
    }
}

/// A window seq that list `rb` would have to cover, but that lies strictly
/// between the runs before `i` and run `i`, is present.
proof fn lemma_missing_between(
    rb: Seq<(u64, u64)>,
    sb: Set<u64>,
    ws: int,
    we: int,
    cap: int,
    i: int,
    x: int,
)
    requires
        runs_capped(rb, sb, ws, we, cap),
        cap > 0,
        0 <= i <= rb.len(),
        ws <= x <= we,
        rb.len() < cap || (rb.len() > 0 && x <= rb.last().1),
        forall|k: int| 0 <= k < i ==> (#[trigger] rb[k]).1 < x,
        i < rb.len() ==> x < rb[i].0,
    ensures
        present(sb, x),
{
    if !present(sb, x) {
        assert(covered(rb, x));
        let k = choose|k: int| #[trigger] in_run(rb, k, x);
        if k < i {
            assert(rb[k].1 < x);
        } else if k > i {
            assert(rb[i].1 + 1 < rb[k].0);
        }
    }
}

proof fn lemma_runs_capped_entry_eq(
    r1: Seq<(u64, u64)>,
    r2: Seq<(u64, u64)>,
    s1: Set<u64>,
    s2: Set<u64>,
    ws: int,
    we: int,
    cap: int,
    i: int,
)
    requires
        runs_capped(r1, s1, ws, we, cap),
        runs_capped(r2, s2, ws, we, cap),
        agree_on(s1, s2, ws, we),
        cap > 0,
        0 <= i < r1.len(),
        i < r2.len(),
        forall|k: int| 0 <= k < i ==> r1[k] == r2[k],
    ensures
        r1[i] == r2[i],
{
    let (a1, b1) = r1[i];
    let (a2, b2) = r2[i];
    assert(in_run(r1, i, a1 as int));
    assert(in_run(r2, i, a2 as int));
    lemma_last_bounds(r1, i);
    lemma_last_bounds(r2, i);
    assert forall|k: int| 0 <= k < i implies (#[trigger] r1[k]).1 + 1 < r1[i].0 by {}
    assert forall|k: int| 0 <= k < i implies (#[trigger] r2[k]).1 + 1 < r2[i].0 by {}
    if a1 < a2 {
        assert forall|k: int| 0 <= k < i implies (#[trigger] r2[k]).1 < a1 by {
            assert(r1[k] == r2[k]);
        }
        lemma_missing_between(r2, s2, ws, we, cap, i, a1 as int);
    }
    if a2 < a1 {
        assert forall|k: int| 0 <= k < i implies (#[trigger] r1[k]).1 < a2 by {
            assert(r1[k] == r2[k]);
        }
        lemma_missing_between(r1, s1, ws, we, cap, i, a2 as int);
    }
    assert(a1 == a2);
    if b1 < b2 {
        let x = b1 + 1;
        assert(in_run(r2, i, x));
        assert(!present(s1, x));
        if r1.len() == cap && i == r1.len() - 1 {
            assert(r1.last() == r1[i]);
        }
        assert forall|k: int| 0 <= k < i + 1 implies (#[trigger] r1[k]).1 < x by {
            if k < i {
                assert(r1[k].1 + 1 < r1[i].0);
            }
        }
        if i + 1 < r1.len() {
            assert(r1[i].1 + 1 < r1[i + 1].0);
            lemma_last_bounds(r1, i + 1);
        }
        lemma_missing_between(r1, s1, ws, we, cap, i + 1, x);
    }
    if b2 < b1 {
        let x = b2 + 1;
        assert(in_run(r1, i, x));
        assert(!present(s2, x));
        if r2.len() == cap && i == r2.len() - 1 {
            assert(r2.last() == r2[i]);
        }
        assert forall|k: int| 0 <= k < i + 1 implies (#[trigger] r2[k]).1 < x by {
            if k < i {
                assert(r2[k].1 + 1 < r2[i].0);
            }
        }
        if i + 1 < r2.len() {
            assert(r2[i].1 + 1 < r2[i + 1].0);
            lemma_last_bounds(r2, i + 1);
        }
        lemma_missing_between(r2, s2, ws, we, cap, i + 1, x);
    }
}

proof fn lemma_runs_capped_prefix_eq(
    r1: Seq<(u64, u64)>,
    r2: Seq<(u64, u64)>,
    s1: Set<u64>,
    s2: Set<u64>,
    ws: int,
    we: int,
    cap: int,
    n: int,
)
    requires
        runs_capped(r1, s1, ws, we, cap),
        runs_capped(r2, s2, ws, we, cap),
        agree_on(s1, s2, ws, we),
        cap > 0,
        0 <= n <= r1.len(),
        n <= r2.len(),
    ensures
        forall|k: int| 0 <= k < n ==> r1[k] == r2[k],
    decreases n,
{
    if n > 0 {
        lemma_runs_capped_prefix_eq(r1, r2, s1, s2, ws, we, cap, n - 1);
        lemma_runs_capped_entry_eq(r1, r2, s1, s2, ws, we, cap, n - 1);
    }
}

/// The first `cap` maximal missing runs of a window are unique: two lists
/// that both satisfy `runs_capped` over sets agreeing on the window are equal.
pub proof fn lemma_runs_capped_unique(
    r1: Seq<(u64, u64)>,
    r2: Seq<(u64, u64)>,
    s1: Set<u64>,
    s2: Set<u64>,
    ws: int,
    we: int,
    cap: int,
)
    requires
        runs_capped(r1, s1, ws, we, cap),
        runs_capped(r2, s2, ws, we, cap),
        agree_on(s1, s2, ws, we),
        cap > 0,
    ensures
        r1 == r2,
{
    let n = if r1.len() <= r2.len() { r1.len() as int } else { r2.len() as int };
    lemma_runs_capped_prefix_eq(r1, r2, s1, s2, ws, we, cap, n);
    if r1.len() < r2.len() {
        let x = r2[n].0 as int;
        assert(in_run(r2, n, x));
        assert forall|k: int| 0 <= k < n implies (#[trigger] r1[k]).1 < x by {
            assert(r2[k].1 + 1 < r2[n].0);
        }
        lemma_missing_between(r1, s1, ws, we, cap, n, x);
    }
    if r2.len() < r1.len() {
        let x = r1[n].0 as int;
        assert(in_run(r1, n, x));
        assert forall|k: int| 0 <= k < n implies (#[trigger] r2[k]).1 < x by {
            assert(r1[k].1 + 1 < r1[n].0);
        }
        lemma_missing_between(r2, s2, ws, we, cap, n, x);
    }
    assert(r1 =~= r2);
}

} // verus!

verus! {

/// Every window has a list of maximal missing runs.
pub proof fn lemma_runs_exact_exist(s: Set<u64>, ws: int, we: int) -> (r: Seq<(u64, u64)>)
    requires
        0 <= ws,
        we <= u64::MAX,
    ensures
        runs_exact(r, s, ws, we),
    decreases we - ws + 1,
{
    if ws > we {
        Seq::empty()
    } else {
        let r1 = lemma_runs_exact_exist(s, ws + 1, we);
        if present(s, ws) {
            assert forall|x: int|
                #![trigger present(s, x)]
                #![trigger covered(r1, x)]
                ws <= x <= we && !present(s, x) implies covered(r1, x) by {}
            r1
        } else if r1.len() > 0 && r1[0].0 == ws + 1 {
            let r = seq![(ws as u64, r1[0].1)] + r1.drop_first();
            assert forall|i: int, j: int| 0 <= i < j < r.len() implies (#[trigger] r[i]).1 + 1 < (#[trigger] r[j]).0 by {
                assert(r1[i].1 + 1 < r1[j].0);
            }
            assert forall|i: int, x: int| #[trigger] in_run(r, i, x) implies !present(s, x) by {
                if i == 0 {
                    if x > ws {
                        assert(in_run(r1, 0, x));
                    }
                } else {
                    assert(in_run(r1, i, x));
                }
            }
            assert forall|x: int|
                #![trigger present(s, x)]
                #![trigger covered(r, x)]
                ws <= x <= we && !present(s, x) implies covered(r, x) by {
                if x == ws {
                    assert(in_run(r, 0, x));
                } else {
                    assert(covered(r1, x));
                    let k = choose|k: int| #[trigger] in_run(r1, k, x);
                    if k == 0 {
                        assert(in_run(r, 0, x));
                    } else {
                        assert(in_run(r, k, x));
                    }
                }
            }
            r
        } else {
            let r = seq![(ws as u64, ws as u64)] + r1;
            assert forall|i: int, j: int| 0 <= i < j < r.len() implies (#[trigger] r[i]).1 + 1 < (#[trigger] r[j]).0 by {
                if i == 0 {
                    assert(r1[0].0 <= r1[j - 1].0);
                    if j - 1 > 0 {
                        assert(r1[0].1 + 1 < r1[j - 1].0);
                    }
                } else {
                    assert(r1[i - 1].1 + 1 < r1[j - 1].0);
                }
            }
            assert forall|i: int, x: int| #[trigger] in_run(r, i, x) implies !present(s, x) by {
                if i > 0 {
                    assert(in_run(r1, i - 1, x));
                }
            }
            assert forall|x: int|
                #![trigger present(s, x)]
                #![trigger covered(r, x)]
                ws <= x <= we && !present(s, x) implies covered(r, x) by {
                if x == ws {
                    assert(in_run(r, 0, x));
                } else {
                    assert(covered(r1, x));
                    let k = choose|k: int| #[trigger] in_run(r1, k, x);
                    assert(in_run(r, k + 1, x));
                }
            }
            r
        }
    }
}

/// The first `cap` runs of an exact run list satisfy `runs_capped`.
pub proof fn lemma_runs_exact_take(r: Seq<(u64, u64)>, s: Set<u64>, ws: int, we: int, cap: int)
    requires
        runs_exact(r, s, ws, we),
        cap > 0,
    ensures
        runs_capped(r.take(if r.len() < cap { r.len() as int } else { cap }), s, ws, we, cap),
{
    let n = if r.len() < cap { r.len() as int } else { cap };
    let t = r.take(n);
    assert forall|i: int, x: int| #[trigger] in_run(t, i, x) implies !present(s, x) by {
        assert(in_run(r, i, x));
    }
    if r.len() < cap {
        assert(t =~= r);
    } else {
        assert forall|x: int|
            #![trigger present(s, x)]
            #![trigger covered(t, x)]
            ws <= x <= t.last().1 && !present(s, x) implies covered(t, x) by {
            assert(covered(r, x));
            let k = choose|k: int| #[trigger] in_run(r, k, x);
            if k >= cap {
                assert(r[cap - 1].1 + 1 < r[k].0);
            }
            assert(in_run(t, k, x));
        }
        let y = t.last().1 + 1;
        if t.last().1 < we && !present(s, y) {
            assert(covered(r, y));
            let k = choose|k: int| #[trigger] in_run(r, k, y);
            if k < cap - 1 {
                assert(r[k].1 + 1 < r[cap - 1].0);
            } else if k > cap - 1 {
                assert(r[cap - 1].1 + 1 < r[k].0);
            }
        }
    }
}

} // verus!

verus! {

/// Exact run lists of one window are unique.
pub proof fn lemma_runs_exact_unique(r1: Seq<(u64, u64)>, r2: Seq<(u64, u64)>, s1: Set<u64>, s2: Set<u64>, ws: int, we: int)
    requires
        runs_exact(r1, s1, ws, we),
        runs_exact(r2, s2, ws, we),
        agree_on(s1, s2, ws, we),
    ensures
        r1 == r2,
{
    let cap = if r1.len() <= r2.len() { r2.len() + 1 } else { r1.len() + 1 };
    lemma_runs_capped_unique(r1, r2, s1, s2, ws, we, cap as int);
}

/// A run list over an empty window is empty.
pub proof fn lemma_runs_empty_window(r: Seq<(u64, u64)>, s: Set<u64>, ws: int, we: int)
    requires
        runs_sound(r, s, ws, we),
        we < ws,
    ensures
        r.len() == 0,
{
    if r.len() > 0 {
        assert(ws <= r[0].0 && r[0].0 <= r[0].1 && r[0].1 <= we);
    }
}

} // verus!
