//! Wire sizing: the MTU-aware symbol size of a block, the greedy packing of
//! symbols into datagram-sized batches, and the reroute of a symbol whose
//! path's datagram limit shrank below it.

use vstd::prelude::*;

verus! {

/// Datagram wire header plus serialization overhead estimate.
pub const WIRE_OVERHEAD: usize = 48;

/// Serialized symbol-batch envelope.
pub const BATCH_WIRE_HEADER: usize = 48;

/// Per-symbol serialization overhead inside a batch.
pub const PER_SYMBOL_WIRE_OVERHEAD: usize = 32;

/// The symbol size of a block: the smallest live path MTU less the wire
/// and repair overheads, within `[64, symbol_size]`; before path MTU
/// discovery, the 1200-byte initial QUIC datagram less those overheads
/// (never below 64), capped at `symbol_size`.
pub open spec fn effective_symbol_size_spec(min_mtu: Option<usize>, repair_overhead: usize, symbol_size: u16) -> int {
    let total = WIRE_OVERHEAD + repair_overhead;
    match min_mtu {
        Some(mtu) if mtu > total => {
            let mtu_based = (mtu - total) % 0x1_0000;
            if mtu_based < 64 { 64 } else if mtu_based > symbol_size { symbol_size as int } else { mtu_based }
        },
        _ => {
            let cap = 1200 - (if total <= 1136 { total } else { 1136 });
            if symbol_size <= cap { symbol_size as int } else { cap }
        },
    }
}

/// MTU-aware symbol sizing for one block (`min_mtu` is the smallest
/// discovered path MTU, `repair_overhead` the code's in-band repair header).
/// With a discovered MTU above the overheads the size is clamped to
/// `[64, symbol_size]`, which needs `symbol_size >= 64`.
pub fn effective_symbol_size(min_mtu: Option<usize>, repair_overhead: usize, symbol_size: u16) -> (r: u16)
    requires
        WIRE_OVERHEAD + repair_overhead <= usize::MAX,
        (min_mtu matches Some(mtu) && mtu > WIRE_OVERHEAD + repair_overhead) ==> symbol_size >= 64,
    ensures
        r == effective_symbol_size_spec(min_mtu, repair_overhead, symbol_size),
        r <= symbol_size,
{
    proof {
        effective_symbol_size_is_clamped(min_mtu, repair_overhead, symbol_size);
    }
    let total = WIRE_OVERHEAD + repair_overhead;
    match min_mtu {
        Some(mtu) if mtu > total => {
            let mtu_based = ((mtu - total) % 0x1_0000) as u16;
            if mtu_based < 64 {
                64
            } else if mtu_based > symbol_size {
                symbol_size
            } else {
                mtu_based
            }
        },
        _ => {
            let cap = (1200 - total.min(1136)) as u16;
            symbol_size.min(cap)
        },
    }
}

/// The symbol size never exceeds the profile's. With a discovered MTU above
/// the overheads it is the MTU room `m = (mtu - overheads) mod 2^16` clamped
/// to `[64, symbol_size]`; before discovery it is the profile size or the
/// room in a 1200-byte initial datagram, whichever is smaller.
pub proof fn effective_symbol_size_is_clamped(min_mtu: Option<usize>, repair_overhead: usize, symbol_size: u16)
    requires
        WIRE_OVERHEAD + repair_overhead <= usize::MAX,
        (min_mtu matches Some(mtu) && mtu > WIRE_OVERHEAD + repair_overhead) ==> symbol_size >= 64,
    ensures
        effective_symbol_size_spec(min_mtu, repair_overhead, symbol_size) <= symbol_size,
        min_mtu is Some && min_mtu.unwrap() > WIRE_OVERHEAD + repair_overhead ==> {
            let m = (min_mtu.unwrap() - WIRE_OVERHEAD - repair_overhead) % 0x1_0000;
            let r = effective_symbol_size_spec(min_mtu, repair_overhead, symbol_size);
            &&& 64 <= r
            &&& m <= 64 ==> r == 64
            &&& 64 <= m <= symbol_size ==> r == m
            &&& m >= symbol_size ==> r == symbol_size
        },
        !(min_mtu is Some && min_mtu.unwrap() > WIRE_OVERHEAD + repair_overhead) ==> {
            let room = if 1200 - WIRE_OVERHEAD - repair_overhead >= 64 {
                1200 - WIRE_OVERHEAD - repair_overhead
            } else {
                64
            };
            let r = effective_symbol_size_spec(min_mtu, repair_overhead, symbol_size);
            &&& r <= room
            &&& r == symbol_size || r == room
        },
{
}

/// A path's datagram limit as the sender reads it: the transport's limit,
/// 1200 bytes before discovery, never below 256.
pub open spec fn datagram_limit(max_dgram: Option<usize>) -> int {
    let d = match max_dgram {
        Some(d) => d as int,
        None => 1200,
    };
    if d >= 256 { d } else { 256 }
}

/// The symbol bytes one datagram's batch can carry.
pub open spec fn batch_budget(max_dgram: Option<usize>) -> int {
    datagram_limit(max_dgram) - BATCH_WIRE_HEADER
}

/// The wire bytes of a symbol with `size` payload bytes.
pub open spec fn wire_bytes(size: usize) -> int {
    size + PER_SYMBOL_WIRE_OVERHEAD
}

/// The wire bytes of the first `n` symbols.
pub open spec fn prefix_bytes(sizes: Seq<usize>, n: int) -> int
    decreases n,
{
    if n <= 0 { 0 } else { prefix_bytes(sizes, n - 1) + wire_bytes(sizes[n - 1]) }
}

/// The wire bytes of the symbols at the indices `g`.
pub open spec fn group_bytes(sizes: Seq<usize>, g: Seq<usize>) -> int
    decreases g.len(),
{
    if g.len() == 0 { 0 } else { group_bytes(sizes, g.drop_last()) + wire_bytes(sizes[g.last() as int]) }
}

/// The groups laid end to end.
pub open spec fn flatten(groups: Seq<Seq<usize>>) -> Seq<usize>
    decreases groups.len(),
{
    if groups.len() == 0 { Seq::empty() } else { flatten(groups.drop_last()) + groups.last() }
}

/// A symbol diverted from batching: it fits no batch of this datagram limit.
pub open spec fn diverted(sizes: Seq<usize>, budget: int, divert_oversized: bool, i: int) -> bool {
    divert_oversized && wire_bytes(sizes[i]) > budget
}

/// The indices below `n` that go into batches, in order.
pub open spec fn batched_indices(sizes: Seq<usize>, budget: int, divert_oversized: bool, n: int) -> Seq<usize>
    decreases n,
{
    if n <= 0 {
        Seq::empty()
    } else {
        let prev = batched_indices(sizes, budget, divert_oversized, n - 1);
        if diverted(sizes, budget, divert_oversized, n - 1) { prev } else { prev.push((n - 1) as usize) }
    }
}

/// The indices below `n` diverted from batching, in order.
pub open spec fn diverted_indices(sizes: Seq<usize>, budget: int, divert_oversized: bool, n: int) -> Seq<usize>
    decreases n,
{
    if n <= 0 {
        Seq::empty()
    } else {
        let prev = diverted_indices(sizes, budget, divert_oversized, n - 1);
        if diverted(sizes, budget, divert_oversized, n - 1) { prev.push((n - 1) as usize) } else { prev }
    }
}

/// Greedy batches: each non-empty, each within the budget unless it is a
/// single symbol, and each closed only because the next symbol would not
/// have fit.
pub open spec fn greedy_batches(sizes: Seq<usize>, budget: int, groups: Seq<Seq<usize>>) -> bool {
    &&& forall|g: int| 0 <= g < groups.len() ==> (#[trigger] groups[g]).len() > 0
    &&& forall|g: int| 0 <= g < groups.len() ==> (#[trigger] groups[g]).len() == 1 || group_bytes(sizes, groups[g]) <= budget
    &&& forall|g: int|
        0 <= g < groups.len() - 1 ==> group_bytes(sizes, #[trigger] groups[g]) + wire_bytes(sizes[groups[g + 1][0] as int]) > budget
}

/// The batches as index sequences.
pub open spec fn batch_views(groups: Seq<Vec<usize>>) -> Seq<Seq<usize>> {
    groups.map_values(|g: Vec<usize>| g@)
}

proof fn lemma_prefix_bytes_monotone(sizes: Seq<usize>, i: int, n: int)
    requires
        0 <= i <= n <= sizes.len(),
    ensures
        prefix_bytes(sizes, i) <= prefix_bytes(sizes, n),
    decreases n - i,
{
    if i < n {
        lemma_prefix_bytes_monotone(sizes, i, n - 1);
    }
}

/// Pack symbols of the given payload sizes into datagram-sized batches for
/// a path whose datagram limit reads `max_dgram`, greedily and in order:
/// the batches (as indices into `sizes`) and, when `divert_oversized` is
/// set, the symbols too large for any batch on this path, which are left
/// out of the batches. Without diversion such a symbol rides alone.
pub fn datagram_batches(sizes: &[usize], max_dgram: Option<usize>, divert_oversized: bool) -> (r: (
    Vec<Vec<usize>>,
    Vec<usize>,
))
    requires
        prefix_bytes(sizes@, sizes.len() as int) <= usize::MAX,
    ensures
        flatten(batch_views(r.0@)) == batched_indices(
            sizes@,
            batch_budget(max_dgram),
            divert_oversized,
            sizes.len() as int,
        ),
        r.1@ == diverted_indices(sizes@, batch_budget(max_dgram), divert_oversized, sizes.len() as int),
        greedy_batches(sizes@, batch_budget(max_dgram), batch_views(r.0@)),
{
    let limit: usize = match max_dgram {
        Some(d) => d,
        None => 1200,
    };
    let limit = if limit >= 256 { limit } else { 256 };
    let budget = limit - BATCH_WIRE_HEADER;
    let ghost b = batch_budget(max_dgram);
    let mut groups: Vec<Vec<usize>> = Vec::new();
    let mut chunk: Vec<usize> = Vec::new();
    let mut chunk_bytes: usize = 0;
    let mut oversized: Vec<usize> = Vec::new();
    let mut i: usize = 0;
    while i < sizes.len()
        invariant
            0 <= i <= sizes.len(),
            budget == b,
            prefix_bytes(sizes@, sizes.len() as int) <= usize::MAX,
            flatten(batch_views(groups@)) + chunk@ == batched_indices(sizes@, b, divert_oversized, i as int),
            oversized@ == diverted_indices(sizes@, b, divert_oversized, i as int),
            chunk_bytes == group_bytes(sizes@, chunk@),
            chunk_bytes <= prefix_bytes(sizes@, i as int),
            forall|k: int| 0 <= k < chunk.len() ==> (#[trigger] chunk@[k]) < i,
            greedy_batches(sizes@, b, batch_views(groups@)),
            chunk.len() == 1 || chunk_bytes <= b,
            groups.len() > 0 ==> chunk.len() > 0,
            groups.len() > 0 ==> group_bytes(sizes@, batch_views(groups@).last()) + wire_bytes(sizes@[chunk@[0] as int]) > b,
        decreases sizes.len() - i,
    {
        proof {
            lemma_prefix_bytes_monotone(sizes@, i as int + 1, sizes.len() as int);
        }
        let sym_bytes = sizes[i] + PER_SYMBOL_WIRE_OVERHEAD;
        if divert_oversized && sym_bytes > budget {
            oversized.push(i);
        } else {
            let ghost groups_before = batch_views(groups@);
            if chunk.len() > 0 && chunk_bytes + sym_bytes > budget {
                let ghost old_chunk = chunk@;
                let full = chunk;
                groups.push(full);
                chunk = Vec::new();
                chunk_bytes = 0;
                proof {
                    let gv = batch_views(groups@);
                    assert(gv =~= groups_before.push(old_chunk));
                    assert(gv.drop_last() =~= groups_before);
                    assert(flatten(gv) =~= flatten(groups_before) + old_chunk);
                    assert forall|g: int| 0 <= g < gv.len() - 1 implies group_bytes(sizes@, #[trigger] gv[g]) + wire_bytes(
                        sizes@[gv[g + 1][0] as int],
                    ) > b by {
                        if g < gv.len() - 2 {
                            assert(gv[g] == groups_before[g]);
                            assert(gv[g + 1] == groups_before[g + 1]);
                        } else {
                            assert(gv[g] == groups_before.last());
                            assert(gv[g + 1] == old_chunk);
                        }
                    }
                    assert forall|g: int| 0 <= g < gv.len() implies (#[trigger] gv[g]).len() > 0 by {
                        if g < gv.len() - 1 {
                            assert(gv[g] == groups_before[g]);
                        }
                    }
                    assert forall|g: int| 0 <= g < gv.len() implies (#[trigger] gv[g]).len() == 1 || group_bytes(sizes@, gv[g]) <= b by {
                        if g < gv.len() - 1 {
                            assert(gv[g] == groups_before[g]);
                        }
                    }
                }
            }
            let ghost pre_chunk = chunk@;
            chunk.push(i);
            chunk_bytes = chunk_bytes + sym_bytes;
            proof {
                assert(chunk@.drop_last() =~= pre_chunk);
                assert(chunk@.last() == i);
                assert(group_bytes(sizes@, chunk@) == group_bytes(sizes@, pre_chunk) + wire_bytes(sizes@[i as int]));
                assert(chunk@[0] == if pre_chunk.len() > 0 { pre_chunk[0] } else { i });
            }
        }
        proof {
            let n = i as int + 1;
            assert(batched_indices(sizes@, b, divert_oversized, n) == (if diverted(sizes@, b, divert_oversized, i as int) {
                batched_indices(sizes@, b, divert_oversized, i as int)
            } else {
                batched_indices(sizes@, b, divert_oversized, i as int).push(i)
            }));
        }
        i += 1;
    }
    if chunk.len() > 0 {
        let ghost groups_before = batch_views(groups@);
        let ghost last_chunk = chunk@;
        groups.push(chunk);
        proof {
            let gv = batch_views(groups@);
            assert(gv =~= groups_before.push(last_chunk));
            assert(gv.drop_last() =~= groups_before);
            assert(flatten(gv) =~= flatten(groups_before) + last_chunk);
            assert forall|g: int| 0 <= g < gv.len() - 1 implies group_bytes(sizes@, #[trigger] gv[g]) + wire_bytes(
                sizes@[gv[g + 1][0] as int],
            ) > b by {
                if g < gv.len() - 2 {
                    assert(gv[g] == groups_before[g]);
                    assert(gv[g + 1] == groups_before[g + 1]);
                } else {
                    assert(gv[g] == groups_before.last());
                    assert(gv[g + 1] == last_chunk);
                }
            }
            assert forall|g: int| 0 <= g < gv.len() implies (#[trigger] gv[g]).len() > 0 by {
                if g < gv.len() - 1 {
                    assert(gv[g] == groups_before[g]);
                }
            }
            assert forall|g: int| 0 <= g < gv.len() implies (#[trigger] gv[g]).len() == 1 || group_bytes(sizes@, gv[g]) <= b by {
                if g < gv.len() - 1 {
                    assert(gv[g] == groups_before[g]);
                }
            }
        }
    } else {
        assert(chunk@ =~= Seq::<usize>::empty());
        assert(flatten(batch_views(groups@)) + chunk@ =~= flatten(batch_views(groups@)));
    }
    (groups, oversized)
}

/// A path whose datagram limit still carries a symbol of `sym_bytes` wire
/// bytes in a batch.
pub open spec fn reroute_fits(max_dgram: Option<usize>, sym_bytes: usize) -> bool {
    batch_budget(max_dgram) >= sym_bytes
}

/// The limit a reroute ranks paths by: the transport's limit, 1200 before
/// discovery.
pub open spec fn reroute_rank(max_dgram: Option<usize>) -> int {
    match max_dgram {
        Some(d) => d as int,
        None => 1200,
    }
}

/// Index `j` is the widest path that fits, the last such on ties.
pub open spec fn widest_fitting(live: Seq<(u32, Option<usize>)>, sym_bytes: usize, j: int) -> bool {
    &&& 0 <= j < live.len()
    &&& reroute_fits(live[j].1, sym_bytes)
    &&& forall|k: int|
        0 <= k < live.len() && reroute_fits((#[trigger] live[k]).1, sym_bytes) ==> reroute_rank(live[k].1) <= reroute_rank(
            live[j].1,
        )
    &&& forall|k: int|
        j < k < live.len() && reroute_fits((#[trigger] live[k]).1, sym_bytes) ==> reroute_rank(live[k].1) < reroute_rank(
            live[j].1,
        )
}

/// Where a symbol too large for its own path's datagrams goes: the widest
/// live path (by datagram limit) whose batches still carry it; none when no
/// live path does.
pub fn reroute_target(live: &[(u32, Option<usize>)], sym_bytes: usize) -> (t: Option<u32>)
    ensures
        t is None <==> forall|k: int| 0 <= k < live.len() ==> !reroute_fits((#[trigger] live@[k]).1, sym_bytes),
        t matches Some(p) ==> exists|j: int| widest_fitting(live@, sym_bytes, j) && (#[trigger] live@[j]).0 == p,
{
    let mut best: Option<usize> = None;
    let mut i: usize = 0;
    while i < live.len()
        invariant
            0 <= i <= live.len(),
            best is None <==> forall|k: int| 0 <= k < i ==> !reroute_fits((#[trigger] live@[k]).1, sym_bytes),
            best matches Some(b) ==> {
                &&& b < i
                &&& reroute_fits(live@[b as int].1, sym_bytes)
                &&& forall|k: int|
                    0 <= k < i && reroute_fits((#[trigger] live@[k]).1, sym_bytes) ==> reroute_rank(live@[k].1)
                        <= reroute_rank(live@[b as int].1)
                &&& forall|k: int|
                    b < k < i && reroute_fits((#[trigger] live@[k]).1, sym_bytes) ==> reroute_rank(live@[k].1)
                        < reroute_rank(live@[b as int].1)
            },
        decreases live.len() - i,
    {
        let d = live[i].1;
        let lim: usize = match d {
            Some(x) => x,
            None => 1200,
        };
        let lim = if lim >= 256 { lim } else { 256 };
        if lim - BATCH_WIRE_HEADER >= sym_bytes {
            let rank: usize = match d {
                Some(x) => x,
                None => 1200,
            };
            match best {
                None => {
                    best = Some(i);
                },
                Some(b) => {
                    let best_rank: usize = match live[b].1 {
                        Some(x) => x,
                        None => 1200,
                    };
                    if rank >= best_rank {
                        best = Some(i);
                    }
                },
            }
        }
        i += 1;
    }
    match best {
        Some(b) => {
            assert(widest_fitting(live@, sym_bytes, b as int));
            Some(live[b].0)
        },
        None => None,
    }
}

/// Symbols a path may send this pace tick from a carry queue of
/// `queue_len`: the whole queue when forced (a flush) or when the path is
/// unknown to the scheduler (`tokens` is `None`), else no more than its
/// whole pacing tokens.
pub fn pace_budget(queue_len: usize, force: bool, tokens: Option<usize>) -> (n: usize)
    ensures
        n == (if force {
            queue_len
        } else {
            match tokens {
                Some(t) => if t <= queue_len { t } else { queue_len },
                None => queue_len,
            }
        }),
{
    let n = if force {
        queue_len
    } else {
        match tokens {
            Some(t) => t,
            None => queue_len,
        }
    };
    if n <= queue_len { n } else { queue_len }
}

/// The earliest token refill (us) among the first `n` pending paths, starting
/// from 50 ms; paths unknown to the scheduler (`None`) do not count.
pub open spec fn earliest_refill_us(pending: Seq<Option<u64>>, n: int) -> int
    decreases n,
{
    if n <= 0 {
        50_000
    } else {
        let m = earliest_refill_us(pending, n - 1);
        match pending[n - 1] {
            Some(d) => if d < m { d as int } else { m },
            None => m,
        }
    }
}

/// The earliest refill is the smallest known refill delay among the paths
/// examined, or 50 ms when none is smaller: it bounds every known delay
/// from below and is one of them or the 50 ms cap.
pub proof fn earliest_refill_is_min(pending: Seq<Option<u64>>, n: int)
    requires
        0 <= n <= pending.len(),
    ensures
        earliest_refill_us(pending, n) <= 50_000,
        forall|i: int| 0 <= i < n && #[trigger] pending[i] is Some ==> earliest_refill_us(pending, n) <= pending[i].unwrap(),
        earliest_refill_us(pending, n) == 50_000 || exists|i: int|
            0 <= i < n && #[trigger] pending[i] == Some(earliest_refill_us(pending, n) as u64),
    decreases n,
{
    if n > 0 {
        earliest_refill_is_min(pending, n - 1);
        match pending[n - 1] {
            Some(d) => {
                if d < earliest_refill_us(pending, n - 1) {
                    assert(pending[n - 1] == Some(earliest_refill_us(pending, n) as u64));
                }
            },
            None => {},
        }
    }
}

/// When to retry the paced drain, given each path still holding carried
/// symbols and its next-token delay in us (`None` for a path the scheduler
/// no longer knows): no retry when nothing is carried; otherwise the
/// earliest refill, capped at 50 ms and raised to at least 500 us.
pub fn next_pace_delay_us(pending: &[Option<u64>]) -> (d: Option<u64>)
    ensures
        pending.len() == 0 ==> d is None,
        pending.len() > 0 ==> d == Some(
            (if earliest_refill_us(pending@, pending.len() as int) >= 500 {
                earliest_refill_us(pending@, pending.len() as int)
            } else {
                500
            }) as u64,
        ),
        pending.len() > 0 ==> {
            let v = d.unwrap();
            &&& 500 <= v <= 50_000
            &&& forall|i: int| 0 <= i < pending.len() && #[trigger] pending[i] is Some
                ==> v <= pending[i].unwrap() || v == 500
            &&& v == 500 || v == 50_000 || exists|i: int| 0 <= i < pending.len() && #[trigger] pending[i] == Some(v)
            &&& v == 500 ==> exists|i: int|
                0 <= i < pending.len() && #[trigger] pending[i] is Some && pending[i].unwrap() <= 500
        },
{
    if pending.len() == 0 {
        return None;
    }
    proof {
        earliest_refill_is_min(pending@, pending.len() as int);
    }
    let mut delay: u64 = 50_000;
    let mut i: usize = 0;
    while i < pending.len()
        invariant
            0 <= i <= pending.len(),
            delay == earliest_refill_us(pending@, i as int),
            delay <= 50_000,
        decreases pending.len() - i,
    {
        match pending[i] {
            Some(x) => {
                if x < delay {
                    delay = x;
                }
            },
            None => {},
        }
        i += 1;
    }
    Some(if delay >= 500 { delay } else { 500 })
}

} // verus!
