//! Per-path admission gates and placement: a path's full account never
//! starves another path, and redirects only land within a dwell bound.

use std::collections::BTreeMap;
use vstd::prelude::*;

verus! {

broadcast use vstd::std_specs::btree::group_btree_axioms;

/// `cap` with a zero cap read as one (no account is permanently closed).
pub open spec fn at_least_one(cap: int) -> int {
    if cap >= 1 { cap } else { 1 }
}

/// Per-path in-flight cap: the sender is full only when no path is below
/// its own cap.
pub fn infl_percap_full(per_path: &[(u64, u64)]) -> (full: bool)
    ensures
        full == forall|i: int| 0 <= i < per_path.len() ==> (#[trigger] per_path[i]).0 >= at_least_one(per_path[i].1 as int),
{
    let mut i: usize = 0;
    while i < per_path.len()
        invariant
            0 <= i <= per_path.len(),
            forall|j: int| 0 <= j < i ==> (#[trigger] per_path[j]).0 >= at_least_one(per_path[j].1 as int),
        decreases per_path.len() - i,
    {
        let (in_flight, cap) = per_path[i];
        if in_flight < cap.max(1) {
            return false;
        }
        i += 1;
    }
    true
}

/// Per-path admission gate: intake pauses only when no path's outstanding
/// account has headroom below its own cap.
pub fn percap_store_full(accounts: &[(usize, usize)]) -> (full: bool)
    ensures
        full == forall|i: int| 0 <= i < accounts.len() ==> (#[trigger] accounts[i]).0 >= at_least_one(accounts[i].1 as int),
{
    let mut i: usize = 0;
    while i < accounts.len()
        invariant
            0 <= i <= accounts.len(),
            forall|j: int| 0 <= j < i ==> (#[trigger] accounts[j]).0 >= at_least_one(accounts[j].1 as int),
        decreases accounts.len() - i,
    {
        let (out, cap) = accounts[i];
        if out < cap.max(1) {
            return false;
        }
        i += 1;
    }
    true
}

/// The redirect limit of an account: `min(cap, bound)`, at least one.
pub open spec fn redirect_limit(cap: int, bound: int) -> int {
    at_least_one(if cap <= bound { cap } else { bound })
}

/// Some account has headroom below its own cap.
pub open spec fn any_open(accounts: Seq<(usize, usize, usize)>) -> bool {
    exists|i: int| 0 <= i < accounts.len() && (#[trigger] accounts[i]).0 < at_least_one(accounts[i].1 as int)
}

/// Some account is at or over its own cap.
pub open spec fn any_capfull(accounts: Seq<(usize, usize, usize)>) -> bool {
    exists|i: int| 0 <= i < accounts.len() && (#[trigger] accounts[i]).0 >= at_least_one(accounts[i].1 as int)
}

/// Some account can take a redirect within its dwell bound.
pub open spec fn any_redirect_target(accounts: Seq<(usize, usize, usize)>) -> bool {
    exists|i: int|
        0 <= i < accounts.len() && (#[trigger] accounts[i]).0 < redirect_limit(accounts[i].1 as int, accounts[i].2 as int)
}

/// Guard-aware admission gate over `(outstanding, cap, redirect_bound)`:
/// full when every account is cap-full, open when none is, and otherwise
/// open only while some account can take a redirect within its bound.
pub fn percap_store_full_guarded(accounts: &[(usize, usize, usize)]) -> (full: bool)
    ensures
        full == (!any_open(accounts@) || (any_capfull(accounts@) && !any_redirect_target(accounts@))),
{
    let mut open = false;
    let mut capfull = false;
    let mut target = false;
    let mut i: usize = 0;
    while i < accounts.len()
        invariant
            0 <= i <= accounts.len(),
            open == exists|j: int| 0 <= j < i && (#[trigger] accounts@[j]).0 < at_least_one(accounts@[j].1 as int),
            capfull == exists|j: int| 0 <= j < i && (#[trigger] accounts@[j]).0 >= at_least_one(accounts@[j].1 as int),
            target == exists|j: int|
                0 <= j < i && (#[trigger] accounts@[j]).0 < redirect_limit(accounts@[j].1 as int, accounts@[j].2 as int),
        decreases accounts.len() - i,
    {
        let (out, cap, bound) = accounts[i];
        let c1 = cap.max(1);
        let lim = cap.min(bound).max(1);
        if out < c1 {
            open = true;
        } else {
            capfull = true;
        }
        if out < lim {
            target = true;
        }
        proof {
            assert(accounts@[i as int] == (out, cap, bound));
        }
        i += 1;
    }
    if !open {
        return true;
    }
    if !capfull {
        return false;
    }
    !target
}

/// With every redirect bound at its account's cap the guard is off, and the
/// guarded gate reads exactly the unguarded per-path gate.
pub proof fn guarded_gate_without_a_guard_is_the_percap_gate(accounts: Seq<(usize, usize, usize)>)
    requires
        forall|i: int| 0 <= i < accounts.len() ==> (#[trigger] accounts[i]).2 == accounts[i].1,
    ensures
        (!any_open(accounts) || (any_capfull(accounts) && !any_redirect_target(accounts))) == (forall|i: int|
            0 <= i < accounts.len() ==> (#[trigger] accounts[i]).0 >= at_least_one(accounts[i].1 as int)),
{
    assert(any_redirect_target(accounts) == any_open(accounts)) by {
        if any_redirect_target(accounts) {
            let i = choose|i: int|
                0 <= i < accounts.len() && (#[trigger] accounts[i]).0 < redirect_limit(accounts[i].1 as int, accounts[i].2 as int);
            assert(accounts[i].0 < at_least_one(accounts[i].1 as int));
        }
        if any_open(accounts) {
            let i = choose|i: int| 0 <= i < accounts.len() && (#[trigger] accounts[i]).0 < at_least_one(accounts[i].1 as int);
            assert(accounts[i].0 < redirect_limit(accounts[i].1 as int, accounts[i].2 as int));
        }
    }
}

/// Relative headroom of account `a` is at least that of account `b`:
/// `1 - out_a / lim_a >= 1 - out_b / lim_b`, compared exactly.
pub open spec fn headroom_ge(a: (u32, usize, usize, usize), b: (u32, usize, usize, usize)) -> bool {
    a.1 * redirect_limit(b.2 as int, b.3 as int) <= b.1 * redirect_limit(a.2 as int, a.3 as int)
}

/// An account that can take a redirect within its dwell bound.
pub open spec fn redirect_eligible(a: (u32, usize, usize, usize)) -> bool {
    a.1 < redirect_limit(a.2 as int, a.3 as int)
}

/// The pick's own account has headroom below its cap.
pub open spec fn own_headroom(chosen: u32, accounts: Seq<(u32, usize, usize, usize)>) -> bool {
    exists|i: int|
        0 <= i < accounts.len() && (#[trigger] accounts[i]).0 == chosen && accounts[i].1 < at_least_one(accounts[i].2 as int)
}

/// Index `j` is the last eligible account of maximal relative headroom.
pub open spec fn best_redirect(accounts: Seq<(u32, usize, usize, usize)>, j: int) -> bool {
    &&& 0 <= j < accounts.len()
    &&& redirect_eligible(accounts[j])
    &&& forall|k: int| 0 <= k < accounts.len() && redirect_eligible(#[trigger] accounts[k]) ==> headroom_ge(accounts[j], accounts[k])
    &&& forall|k: int| j < k < accounts.len() && redirect_eligible(#[trigger] accounts[k]) ==> !headroom_ge(accounts[k], accounts[j])
}

fn redirect_limit_of(cap: usize, bound: usize) -> (r: usize)
    ensures
        r == redirect_limit(cap as int, bound as int),
{
    cap.min(bound).max(1)
}

/// Per-path placement over `(path, outstanding, cap, redirect_bound)`: keep
/// the pick while its own account is below its cap; otherwise redirect to
/// the eligible path (outstanding below `min(cap, bound)`) with the most
/// relative headroom, the last such on ties; with no eligible path, keep
/// the pick.
pub fn percap_place_path(chosen: u32, accounts: &[(u32, usize, usize, usize)]) -> (p: u32)
    ensures
        own_headroom(chosen, accounts@) ==> p == chosen,
        !own_headroom(chosen, accounts@) ==> (
            (exists|j: int| best_redirect(accounts@, j) && p == accounts@[j].0)
            || (p == chosen && forall|k: int| 0 <= k < accounts.len() ==> !redirect_eligible(#[trigger] accounts@[k]))
        ),
{
    let mut i: usize = 0;
    while i < accounts.len()
        invariant
            0 <= i <= accounts.len(),
            forall|j: int| 0 <= j < i ==> !((#[trigger] accounts@[j]).0 == chosen && accounts@[j].1 < at_least_one(accounts@[j].2 as int)),
        decreases accounts.len() - i,
    {
        let (p, out, cap, _) = accounts[i];
        if p == chosen && out < cap.max(1) {
            return chosen;
        }
        i += 1;
    }
    let mut best: Option<usize> = None;
    let mut k: usize = 0;
    while k < accounts.len()
        invariant
            0 <= k <= accounts.len(),
            !own_headroom(chosen, accounts@),
            best matches Some(b) ==> {
                &&& b < k
                &&& redirect_eligible(accounts@[b as int])
                &&& forall|m: int| 0 <= m < k && redirect_eligible(#[trigger] accounts@[m]) ==> headroom_ge(accounts@[b as int], accounts@[m])
                &&& forall|m: int| b < m < k && redirect_eligible(#[trigger] accounts@[m]) ==> !headroom_ge(accounts@[m], accounts@[b as int])
            },
            best is None ==> forall|m: int| 0 <= m < k ==> !redirect_eligible(#[trigger] accounts@[m]),
        decreases accounts.len() - k,
    {
        let (_, out, cap, bound) = accounts[k];
        let lim = redirect_limit_of(cap, bound);
        if out < lim {
            match best {
                None => {
                    best = Some(k);
                },
                Some(b) => {
                    let (_, bout, bcap, bbound) = accounts[b];
                    let blim = redirect_limit_of(bcap, bbound);
                    // headroom(k) >= headroom(b)  <=>  out_k * lim_b <= out_b * lim_k
                    let wide_k = out as u128;
                    let wide_b = bout as u128;
                    let wide_lim = lim as u128;
                    let wide_blim = blim as u128;
                    assert(wide_k * wide_blim <= u128::MAX && wide_b * wide_lim <= u128::MAX) by (nonlinear_arith)
                        requires
                            wide_k <= u64::MAX,
                            wide_b <= u64::MAX,
                            wide_lim <= u64::MAX,
                            wide_blim <= u64::MAX,
                    ;
                    if wide_k * wide_blim <= wide_b * wide_lim {
                        best = Some(k);
                        proof {
                            assert forall|m: int| 0 <= m < k + 1 && redirect_eligible(#[trigger] accounts@[m]) implies headroom_ge(accounts@[k as int], accounts@[m]) by {
                                if m < k {
                                    let a = accounts@[k as int];
                                    let bb = accounts@[b as int];
                                    let c = accounts@[m];
                                    let la = redirect_limit(a.2 as int, a.3 as int);
                                    let lb = redirect_limit(bb.2 as int, bb.3 as int);
                                    let lc = redirect_limit(c.2 as int, c.3 as int);
                                    assert(headroom_ge(bb, c));
                                    // a.1 * lb <= bb.1 * la and bb.1 * lc <= c.1 * lb  ==>  a.1 * lc <= c.1 * la
                                    assert(a.1 * lc * lb <= c.1 * la * lb) by (nonlinear_arith)
                                        requires
                                            a.1 * lb <= bb.1 * la,
                                            bb.1 * lc <= c.1 * lb,
                                            la >= 1,
                                            lb >= 1,
                                            lc >= 1,
                                            a.1 >= 0,
                                            bb.1 >= 0,
                                            c.1 >= 0,
                                    ;
                                    assert(a.1 * lc <= c.1 * la) by (nonlinear_arith)
                                        requires
                                            a.1 * lc * lb <= c.1 * la * lb,
                                            lb >= 1,
                                    ;
                                }
                            }
                        }
                    } else {
                        proof {
                            assert(!headroom_ge(accounts@[k as int], accounts@[b as int]));
                        }
                    }
                },
            }
        }
        k += 1;
    }
    match best {
        Some(b) => {
            assert(best_redirect(accounts@, b as int));
            accounts[b].0
        },
        None => chosen,
    }
}

/// Index `j` holds the largest positive lend room, the last such on ties.
pub open spec fn best_room(rooms: Seq<(u32, usize)>, j: int) -> bool {
    &&& 0 <= j < rooms.len()
    &&& rooms[j].1 > 0
    &&& forall|k: int| 0 <= k < rooms.len() ==> (#[trigger] rooms[k]).1 <= rooms[j].1
    &&& forall|k: int| j < k < rooms.len() ==> (#[trigger] rooms[k]).1 < rooms[j].1
}

/// The lender for a loan, given each candidate lender's `(path, lend room)`:
/// the one with the largest positive room (the last on ties); none when no
/// candidate has room.
pub fn best_lender(rooms: &[(u32, usize)]) -> (p: Option<u32>)
    ensures
        p is None <==> forall|i: int| 0 <= i < rooms.len() ==> (#[trigger] rooms[i]).1 == 0,
        p matches Some(x) ==> exists|j: int| best_room(rooms@, j) && (#[trigger] rooms@[j]).0 == x,
{
    let mut best: Option<usize> = None;
    let mut i: usize = 0;
    while i < rooms.len()
        invariant
            0 <= i <= rooms.len(),
            best is None <==> forall|k: int| 0 <= k < i ==> (#[trigger] rooms@[k]).1 == 0,
            best matches Some(b) ==> {
                &&& b < i
                &&& rooms@[b as int].1 > 0
                &&& forall|k: int| 0 <= k < i ==> (#[trigger] rooms@[k]).1 <= rooms@[b as int].1
                &&& forall|k: int| b < k < i ==> (#[trigger] rooms@[k]).1 < rooms@[b as int].1
            },
        decreases rooms.len() - i,
    {
        let room = rooms[i].1;
        if room > 0 {
            match best {
                None => {
                    best = Some(i);
                },
                Some(b) => {
                    if room >= rooms[b].1 {
                        best = Some(i);
                    }
                },
            }
        }
        i += 1;
    }
    match best {
        Some(b) => {
            assert(best_room(rooms@, b as int));
            Some(rooms[b].0)
        },
        None => None,
    }
}

/// The source paths that carried the symbols of the coding window
/// `[win_start, win_end]`: one entry per in-window seq with a recorded path,
/// in seq order.
pub fn window_source_paths(win_start: u64, win_end: u64, source_path_map: &BTreeMap<u64, u32>) -> (paths: Vec<u32>)
    ensures
        paths@ == window_paths_spec(source_path_map@, win_start as int, win_end as int + 1),
{
    let mut paths: Vec<u32> = Vec::new();
    if win_start > win_end {
        return paths;
    }
    let mut seq = win_start;
    loop
        invariant
            win_start <= seq <= win_end,
            paths@ == window_paths_spec(source_path_map@, win_start as int, seq as int),
        decreases win_end - seq,
    {
        match source_path_map.get(&seq) {
            Some(p) => paths.push(*p),
            None => {},
        }
        if seq == win_end {
            return paths;
        }
        seq += 1;
    }
}

/// The recorded paths of the seqs of `[lo, hi)`, in seq order.
pub open spec fn window_paths_spec(m: Map<u64, u32>, lo: int, hi: int) -> Seq<u32>
    decreases hi - lo,
{
    if hi <= lo {
        Seq::empty()
    } else {
        let prev = window_paths_spec(m, lo, hi - 1);
        if 0 <= hi - 1 <= u64::MAX && m.contains_key((hi - 1) as u64) { prev.push(m[(hi - 1) as u64]) } else { prev }
    }
}

} // verus!
