//! Laws of the contention model, stated over its mathematical definition.

use vstd::prelude::*;

use crate::access::TxnView;
use crate::location::{conflicting_in, Location, LocationId};
use crate::model::{
    analysis_of, hotspot_describes, hotspot_precedes, hotspots_ranked, lemma_precedes_antisymmetric,
    Analysis, Hotspot,
};
use crate::model_spec::{
    cost_at, dep_set, edge_count, first_min_index, is_pred, last_writer, lemma_first_min_index,
    lemma_last_writer_bound, lemma_pred_max_bound, lemma_pred_max_props, lemma_schedule,
    lemma_seq_max_bounds, lemma_seq_max_push, lemma_span_finishes, lemma_total_work_mono,
    loc_edges, makespan_of, max_int, pred_max, raw_dep, schedule, seq_max, span_finishes, span_of,
    total_work,
};

verus! {

proof fn lemma_pred_max_mono(
    txns: Seq<TxnView>,
    m: Map<LocationId, Location>,
    j: int,
    v1: Seq<int>,
    v2: Seq<int>,
    k: int,
)
    requires
        k <= v1.len(),
        k <= v2.len(),
        forall|i: int| 0 <= i < k ==> v1[i] <= v2[i],
    ensures
        pred_max(txns, m, j, v1, k) <= pred_max(txns, m, j, v2, k),
    decreases k,
{
    if k > 0 {
        lemma_pred_max_mono(txns, m, j, v1, v2, k - 1);
    }
}

proof fn lemma_seq_max_le(s: Seq<int>, b: int)
    requires
        0 <= b,
        forall|i: int| 0 <= i < s.len() ==> s[i] <= b,
    ensures
        seq_max(s) <= b,
    decreases s.len(),
{
    if s.len() > 0 {
        assert forall|i: int| 0 <= i < s.len() - 1 implies s.drop_last()[i] <= b by {
            assert(s.drop_last()[i] == s[i]);
        }
        lemma_seq_max_le(s.drop_last(), b);
    }
}

/// Each transaction finishes no earlier under the schedule than with
/// unbounded workers.
proof fn lemma_span_le_schedule(
    txns: Seq<TxnView>,
    m: Map<LocationId, Location>,
    threads: nat,
    n: int,
)
    requires
        0 <= n,
        threads >= 1,
    ensures
        forall|i: int|
            0 <= i < n ==> #[trigger] span_finishes(txns, m, n)[i] <= schedule(
                txns,
                m,
                threads,
                n,
            ).0[i],
    decreases n,
{
    if n > 0 {
        lemma_span_le_schedule(txns, m, threads, n - 1);
        lemma_span_finishes(txns, m, n - 1);
        lemma_schedule(txns, m, threads, n - 1);
        let s = span_finishes(txns, m, n - 1);
        let (f, w) = schedule(txns, m, threads, n - 1);
        lemma_pred_max_mono(txns, m, n - 1, s, f, n - 1);
        assert forall|i: int| 0 <= i < n implies #[trigger] span_finishes(txns, m, n)[i]
            <= schedule(txns, m, threads, n).0[i] by {
            if i < n - 1 {
                assert(span_finishes(txns, m, n)[i] == s[i]);
                assert(schedule(txns, m, threads, n).0[i] == f[i]);
            }
        }
    }
}

/// The sum of the elements of `s`.
pub open spec fn seq_sum(s: Seq<int>) -> int
    decreases s.len(),
{
    if s.len() == 0 {
        0
    } else {
        seq_sum(s.drop_last()) + s.last()
    }
}

proof fn lemma_seq_sum_update(s: Seq<int>, k: int, v: int)
    requires
        0 <= k < s.len(),
    ensures
        seq_sum(s.update(k, v)) == seq_sum(s) - s[k] + v,
    decreases s.len(),
{
    if k < s.len() - 1 {
        assert(s.update(k, v).drop_last() =~= s.drop_last().update(k, v));
        lemma_seq_sum_update(s.drop_last(), k, v);
    } else {
        assert(s.update(k, v).drop_last() =~= s.drop_last());
    }
}

proof fn lemma_seq_sum_le(s: Seq<int>, b: int)
    requires
        forall|i: int| 0 <= i < s.len() ==> s[i] <= b,
    ensures
        seq_sum(s) <= s.len() * b,
    decreases s.len(),
{
    if s.len() > 0 {
        assert forall|i: int| 0 <= i < s.len() - 1 implies s.drop_last()[i] <= b by {
            assert(s.drop_last()[i] == s[i]);
        }
        lemma_seq_sum_le(s.drop_last(), b);
        assert((s.len() - 1) * b + b == s.len() * b) by (nonlinear_arith);
    }
}

proof fn lemma_seq_sum_zeros(n: nat)
    ensures
        seq_sum(Seq::new(n, |i: int| 0int)) == 0,
    decreases n,
{
    if n > 0 {
        assert(Seq::new(n, |i: int| 0int).drop_last() =~= Seq::new((n - 1) as nat, |i: int| 0int));
        lemma_seq_sum_zeros((n - 1) as nat);
    }
}

/// The workers together have been busy for at least the total work, and no
/// worker frees up later than the latest finish.
proof fn lemma_workers_cover_work(
    txns: Seq<TxnView>,
    m: Map<LocationId, Location>,
    threads: nat,
    n: int,
)
    requires
        0 <= n,
        threads >= 1,
    ensures
        seq_sum(schedule(txns, m, threads, n).1) >= total_work(txns, n),
        forall|i: int|
            0 <= i < threads ==> #[trigger] schedule(txns, m, threads, n).1[i] <= seq_max(
                schedule(txns, m, threads, n).0,
            ),
    decreases n,
{
    lemma_schedule(txns, m, threads, n);
    if n == 0 {
        lemma_seq_sum_zeros(threads);
    } else {
        lemma_workers_cover_work(txns, m, threads, n - 1);
        lemma_schedule(txns, m, threads, n - 1);
        let (f, w) = schedule(txns, m, threads, n - 1);
        let k = first_min_index(w, w.len() as int);
        lemma_first_min_index(w, w.len() as int);
        let fin = max_int(pred_max(txns, m, n - 1, f, n - 1), w[k]) + cost_at(txns, n - 1);
        lemma_seq_sum_update(w, k, fin);
        lemma_seq_max_push(f, fin);
        assert forall|i: int| 0 <= i < threads implies #[trigger] schedule(
            txns,
            m,
            threads,
            n,
        ).1[i] <= seq_max(schedule(txns, m, threads, n).0) by {
            if i != k {
                assert(schedule(txns, m, threads, n).1[i] == w[i]);
            }
        }
    }
}

/// Work, span and makespan: the critical path is no longer than the greedy
/// schedule, the schedule is no longer than running everything serially, and
/// the workers cannot finish the total work faster than `threads` in
/// parallel. So the estimated speedup `total_work / estimated_time` lies
/// between 1 (for a non-empty workload) and `threads`, and the
/// parallelizability never exceeds 1.
pub proof fn law_work_span_makespan(txns: Seq<TxnView>, m: Map<LocationId, Location>, threads: nat)
    requires
        threads >= 1,
    ensures
        0 <= span_of(txns, m, txns.len() as int) <= makespan_of(txns, m, threads),
        makespan_of(txns, m, threads) <= total_work(txns, txns.len() as int),
        total_work(txns, txns.len() as int) <= threads * makespan_of(txns, m, threads),
        txns.len() > 0 ==> total_work(txns, txns.len() as int) >= 1,
{
    let n = txns.len() as int;
    lemma_span_finishes(txns, m, n);
    lemma_schedule(txns, m, threads, n);
    lemma_span_le_schedule(txns, m, threads, n);
    let s = span_finishes(txns, m, n);
    let f = schedule(txns, m, threads, n).0;
    let w = schedule(txns, m, threads, n).1;
    lemma_seq_max_bounds(s);
    lemma_seq_max_bounds(f);
    if s.len() > 0 {
        let i = choose|i: int| 0 <= i < s.len() && s[i] == seq_max(s);
        assert(f[i] <= seq_max(f));
    }
    lemma_total_work_mono(txns, 0, n);
    assert forall|i: int| 0 <= i < f.len() implies f[i] <= total_work(txns, n) by {
        lemma_total_work_mono(txns, i + 1, n);
    }
    lemma_seq_max_le(f, total_work(txns, n));
    lemma_workers_cover_work(txns, m, threads, n);
    lemma_seq_sum_le(w, seq_max(f));
    if n > 0 {
        lemma_total_work_mono(txns, 1, n);
    }
}

/// Read-after-write edges only come from conflicting locations: a location
/// whose class does not conflict (an aggregator, code, framework state) never
/// induces an edge, so it is never a hotspot.
pub proof fn law_non_conflicting_never_blocks(
    txns: Seq<TxnView>,
    m: Map<LocationId, Location>,
    r: LocationId,
    n: int,
)
    requires
        !conflicting_in(m, r),
    ensures
        loc_edges(txns, m, r, n) == 0,
    decreases n,
{
    if n > 0 {
        law_non_conflicting_never_blocks(txns, m, r, n - 1);
    }
}

/// Only reads create dependencies: the locations through which a
/// transaction waits are among the ones it reads, and each of them was
/// written by an earlier transaction.
pub proof fn law_edges_are_read_after_write(
    txns: Seq<TxnView>,
    m: Map<LocationId, Location>,
    j: int,
    r: LocationId,
)
    requires
        dep_set(txns, m, j).contains(r),
    ensures
        txns[j].reads.contains(r),
        conflicting_in(m, r),
        exists|i: int| 0 <= i < j && #[trigger] txns[i].writes.contains(r),
{
    lemma_last_writer_bound(txns, r, j);
    let i = last_writer(txns, r, j)->0;
    assert(txns[i].writes.contains(r));
}

/// A shared key fully serializes: when every transaction reads and writes the
/// same conflicting location, that location causes an edge into every
/// transaction but the first, the critical path is the total work, and so is
/// the schedule on any number of workers (speedup exactly 1, a
/// parallelizability of exactly `1 / threads`).
pub proof fn law_shared_key_serializes(
    txns: Seq<TxnView>,
    m: Map<LocationId, Location>,
    r: LocationId,
    threads: nat,
)
    requires
        threads >= 1,
        conflicting_in(m, r),
        forall|j: int|
            0 <= j < txns.len() ==> #[trigger] txns[j].reads.contains(r) && txns[j].writes.contains(
                r,
            ),
    ensures
        txns.len() > 0 ==> loc_edges(txns, m, r, txns.len() as int) == txns.len() - 1,
        span_of(txns, m, txns.len() as int) == total_work(txns, txns.len() as int),
        makespan_of(txns, m, threads) == total_work(txns, txns.len() as int),
{
    let n = txns.len() as int;
    lemma_shared_key_chain(txns, m, r, n);
    lemma_span_finishes(txns, m, n);
    let s = span_finishes(txns, m, n);
    if n > 0 {
        lemma_seq_max_bounds(s);
        assert(s[n - 1] <= seq_max(s));
        lemma_total_work_mono(txns, 0, n);
        assert forall|i: int| 0 <= i < s.len() implies s[i] <= total_work(txns, n) by {
            lemma_total_work_mono(txns, i + 1, n);
        }
        lemma_seq_max_le(s, total_work(txns, n));
    }
    law_work_span_makespan(txns, m, threads);
}

proof fn lemma_shared_key_chain(
    txns: Seq<TxnView>,
    m: Map<LocationId, Location>,
    r: LocationId,
    n: int,
)
    requires
        0 <= n <= txns.len(),
        conflicting_in(m, r),
        forall|j: int|
            0 <= j < txns.len() ==> #[trigger] txns[j].reads.contains(r) && txns[j].writes.contains(
                r,
            ),
    ensures
        n > 0 ==> loc_edges(txns, m, r, n) == n - 1,
        n > 0 ==> span_finishes(txns, m, n)[n - 1] == total_work(txns, n),
    decreases n,
{
    if n > 1 {
        lemma_shared_key_chain(txns, m, r, n - 1);
        let j = n - 1;
        assert(txns[j - 1].reads.contains(r));
        assert(txns[j].reads.contains(r));
        assert(txns[j - 1].writes.contains(r));
        assert(last_writer(txns, r, j) == Some(j - 1));
        assert(raw_dep(txns, m, j, r));
        let prev = span_finishes(txns, m, j);
        lemma_span_finishes(txns, m, j);
        assert(is_pred(txns, m, j, j - 1));
        lemma_pred_max_props(txns, m, j, prev, j);
        assert(prev[j - 1] <= pred_max(txns, m, j, prev, j));
        assert forall|i: int| 0 <= i < j implies prev[i] <= total_work(txns, j) by {
            lemma_total_work_mono(txns, i + 1, j);
        }
        lemma_total_work_mono(txns, 0, j);
        lemma_pred_max_bound(txns, m, j, prev, j, total_work(txns, j));
        assert(loc_edges(txns, m, r, n) == loc_edges(txns, m, r, j) + 1);
        assert(span_finishes(txns, m, n)[j] == pred_max(txns, m, j, prev, j) + cost_at(txns, j));
        assert(loc_edges(txns, m, r, n) == n - 1);
        assert(span_finishes(txns, m, n)[n - 1] == total_work(txns, n));
    } else if n == 1 {
        assert(last_writer(txns, r, 0) is None);
        assert(!raw_dep(txns, m, 0, r));
        assert(pred_max(txns, m, 0, span_finishes(txns, m, 0), 0) == 0);
        assert(loc_edges(txns, m, r, 0) == 0);
        assert(total_work(txns, 0) == 0);
        assert(loc_edges(txns, m, r, n) == n - 1);
        assert(span_finishes(txns, m, n)[n - 1] == total_work(txns, n));
    }
}

/// With a single shared key and no other contention, the number of edges is
/// exactly one less than the number of transactions: every transaction reads
/// and writes the conflicting location `r`, and reads no other conflicting
/// location.
pub proof fn law_single_shared_key_edges(txns: Seq<TxnView>, m: Map<LocationId, Location>, r: LocationId)
    requires
        txns.len() > 0,
        conflicting_in(m, r),
        forall|j: int|
            0 <= j < txns.len() ==> (#[trigger] txns[j]).reads.contains(r) && txns[j].writes.contains(
                r,
            ),
        forall|j: int, x: LocationId|
            0 <= j < txns.len() && #[trigger] txns[j].reads.contains(x) && conflicting_in(m, x) ==> x
                == r,
    ensures
        edge_count(txns, m, txns.len() as int) == txns.len() - 1,
{
    lemma_single_key_edges(txns, m, r, txns.len() as int);
}

proof fn lemma_single_key_edges(txns: Seq<TxnView>, m: Map<LocationId, Location>, r: LocationId, n: int)
    requires
        0 < n <= txns.len(),
        conflicting_in(m, r),
        forall|j: int|
            0 <= j < txns.len() ==> (#[trigger] txns[j]).reads.contains(r) && txns[j].writes.contains(
                r,
            ),
        forall|j: int, x: LocationId|
            0 <= j < txns.len() && #[trigger] txns[j].reads.contains(x) && conflicting_in(m, x) ==> x
                == r,
    ensures
        edge_count(txns, m, n) == n - 1,
    decreases n,
{
    let j = n - 1;
    if n == 1 {
        assert(dep_set(txns, m, 0) =~= Set::<LocationId>::empty());
        assert(edge_count(txns, m, 0) == 0);
    } else {
        lemma_single_key_edges(txns, m, r, n - 1);
        assert(txns[j - 1].reads.contains(r));
        assert(txns[j].reads.contains(r));
        assert(last_writer(txns, r, j) == Some(j - 1));
        assert(dep_set(txns, m, j) =~= set![r]);
    }
}

/// Independent transactions fully parallelize: when no transaction reads a
/// conflicting location that an earlier one wrote, there are no edges, each
/// transaction's critical path is its own cost, and with at least as many
/// workers as transactions each one starts at time 0.
pub proof fn law_independent_txns_parallelize(
    txns: Seq<TxnView>,
    m: Map<LocationId, Location>,
    threads: nat,
)
    requires
        threads >= 1,
        forall|j: int, r: LocationId| 0 <= j < txns.len() ==> !#[trigger] raw_dep(txns, m, j, r),
    ensures
        edge_count(txns, m, txns.len() as int) == 0,
        forall|r: LocationId| #[trigger] loc_edges(txns, m, r, txns.len() as int) == 0,
        forall|j: int|
            0 <= j < txns.len() ==> #[trigger] span_finishes(txns, m, txns.len() as int)[j]
                == cost_at(txns, j),
        threads >= txns.len() ==> forall|j: int|
            0 <= j < txns.len() ==> #[trigger] schedule(txns, m, threads, txns.len() as int).0[j]
                == cost_at(txns, j),
{
    let n = txns.len() as int;
    lemma_independent(txns, m, threads, n);
}

proof fn lemma_independent(txns: Seq<TxnView>, m: Map<LocationId, Location>, threads: nat, n: int)
    requires
        0 <= n <= txns.len(),
        threads >= 1,
        forall|j: int, r: LocationId| 0 <= j < txns.len() ==> !#[trigger] raw_dep(txns, m, j, r),
    ensures
        edge_count(txns, m, n) == 0,
        forall|r: LocationId| #[trigger] loc_edges(txns, m, r, n) == 0,
        forall|j: int| 0 <= j < n ==> #[trigger] span_finishes(txns, m, n)[j] == cost_at(txns, j),
        threads >= n ==> forall|j: int|
            0 <= j < n ==> #[trigger] schedule(txns, m, threads, n).0[j] == cost_at(txns, j),
        threads >= n ==> forall|i: int|
            0 <= i < threads ==> (#[trigger] schedule(txns, m, threads, n).1[i] == 0 <==> i >= n),
    decreases n,
{
    lemma_schedule(txns, m, threads, n);
    lemma_span_finishes(txns, m, n);
    if n > 0 {
        let j = n - 1;
        lemma_span_finishes(txns, m, j);
        lemma_independent(txns, m, threads, j);
        assert(dep_set(txns, m, j) =~= Set::<LocationId>::empty());
        assert forall|r: LocationId| #[trigger] loc_edges(txns, m, r, n) == 0 by {
            assert(!raw_dep(txns, m, j, r));
            assert(loc_edges(txns, m, r, j) == 0);
        }
        assert forall|i: int| 0 <= i < j implies !is_pred(txns, m, j, i) by {}
        lemma_pred_max_props(txns, m, j, span_finishes(txns, m, j), j);
        lemma_pred_max_props(txns, m, j, schedule(txns, m, threads, j).0, j);
        assert forall|q: int| 0 <= q < n implies #[trigger] span_finishes(txns, m, n)[q]
            == cost_at(txns, q) by {
            if q < j {
                assert(span_finishes(txns, m, n)[q] == span_finishes(txns, m, j)[q]);
            }
        }
        if threads >= n {
            lemma_schedule(txns, m, threads, j);
            let (f, w) = schedule(txns, m, threads, j);
            lemma_first_min_index(w, w.len() as int);
            let k = first_min_index(w, w.len() as int);
            assert(w[j] == 0);
            assert(k == j) by {
                if k < j {
                    assert(w[k] != 0);
                }
                if k > j {
                    assert(w[k] < w[j]);
                }
            }
            assert forall|q: int| 0 <= q < n implies #[trigger] schedule(txns, m, threads, n).0[q]
                == cost_at(txns, q) by {
                if q < j {
                    assert(schedule(txns, m, threads, n).0[q] == f[q]);
                }
            }
            assert forall|i: int| 0 <= i < threads implies (#[trigger] schedule(
                txns,
                m,
                threads,
                n,
            ).1[i] == 0 <==> i >= n) by {
                if i != j {
                    assert(schedule(txns, m, threads, n).1[i] == w[i]);
                }
            }
        }
    }
}

/// `a` and `b` report the same location with the same figures.
pub open spec fn same_hotspot(a: Hotspot, b: Hotspot) -> bool {
    &&& a.location == b.location
    &&& a.label@ == b.label@
    &&& a.class == b.class
    &&& a.edges_caused == b.edges_caused
    &&& a.blocked_cost == b.blocked_cost
}

proof fn lemma_ranked_agree_upto(
    hs1: Seq<Hotspot>,
    hs2: Seq<Hotspot>,
    txns: Seq<TxnView>,
    m: Map<LocationId, Location>,
    n: int,
    i: int,
)
    requires
        hotspots_ranked(hs1, txns, m, n),
        hotspots_ranked(hs2, txns, m, n),
        0 <= i <= hs1.len(),
        i <= hs2.len(),
    ensures
        forall|q: int| 0 <= q < i ==> (#[trigger] hs1[q]).location == hs2[q].location,
    decreases i,
{
    if i > 0 {
        lemma_ranked_agree_upto(hs1, hs2, txns, m, n, i - 1);
        let x = hs1[i - 1];
        let y = hs2[i - 1];
        assert(hotspot_describes(x, txns, m, n));
        assert(hotspot_describes(y, txns, m, n));
        assert(loc_edges(txns, m, x.location, n) > 0);
        let k = choose|k: int| 0 <= k < hs2.len() && (#[trigger] hs2[k]).location == x.location;
        assert(loc_edges(txns, m, y.location, n) > 0);
        let k1 = choose|k: int| 0 <= k < hs1.len() && (#[trigger] hs1[k]).location == y.location;
        if k < i - 1 {
            assert(hs1[k].location == hs2[k].location);
            assert(false);
        }
        if k1 < i - 1 {
            assert(hs1[k1].location == hs2[k1].location);
            assert(false);
        }
        if k != i - 1 && k1 != i - 1 {
            assert(hotspot_describes(hs2[k], txns, m, n));
            assert(hotspot_describes(hs1[k1], txns, m, n));
            assert(hotspot_precedes(hs2[i - 1], hs2[k]));
            assert(hotspot_precedes(hs1[i - 1], hs1[k1]));
            assert(hotspot_precedes(y, x));
            assert(hotspot_precedes(x, y));
            lemma_precedes_antisymmetric(x, y);
        }
    }
}

/// The hotspot ranking is exact: any two lists that rank the contention of
/// the same transactions agree entry by entry, ties included.
pub proof fn law_hotspot_ranking_unique(
    hs1: Seq<Hotspot>,
    hs2: Seq<Hotspot>,
    txns: Seq<TxnView>,
    m: Map<LocationId, Location>,
    n: int,
)
    requires
        hotspots_ranked(hs1, txns, m, n),
        hotspots_ranked(hs2, txns, m, n),
    ensures
        hs1.len() == hs2.len(),
        forall|i: int| 0 <= i < hs1.len() ==> same_hotspot(#[trigger] hs1[i], hs2[i]),
{
    if hs1.len() > hs2.len() {
        lemma_ranked_agree_upto(hs1, hs2, txns, m, n, hs2.len() as int);
        let i = hs2.len() as int;
        assert(hotspot_describes(hs1[i], txns, m, n));
        assert(loc_edges(txns, m, hs1[i].location, n) > 0);
        let k = choose|k: int| 0 <= k < hs2.len() && (#[trigger] hs2[k]).location == hs1[i].location;
        assert(hs1[k].location == hs2[k].location);
        assert(false);
    }
    if hs2.len() > hs1.len() {
        lemma_ranked_agree_upto(hs2, hs1, txns, m, n, hs1.len() as int);
        let i = hs1.len() as int;
        assert(hotspot_describes(hs2[i], txns, m, n));
        assert(loc_edges(txns, m, hs2[i].location, n) > 0);
        let k = choose|k: int| 0 <= k < hs1.len() && (#[trigger] hs1[k]).location == hs2[i].location;
        assert(hs2[k].location == hs1[k].location);
        assert(false);
    }
    lemma_ranked_agree_upto(hs1, hs2, txns, m, n, hs1.len() as int);
    assert forall|i: int| 0 <= i < hs1.len() implies same_hotspot(#[trigger] hs1[i], hs2[i]) by {
        assert(hotspot_describes(hs1[i], txns, m, n));
        assert(hotspot_describes(hs2[i], txns, m, n));
    }
}

/// An analysis is determined by the workload: two analyses of the same
/// transactions agree on the transaction count, the total work, the span, the
/// number of edges and every hotspot in order, whatever the thread counts;
/// at the same thread count they agree on everything.
pub proof fn law_analysis_determined(
    a: Analysis,
    b: Analysis,
    txns: Seq<TxnView>,
    m: Map<LocationId, Location>,
    p1: usize,
    p2: usize,
)
    requires
        analysis_of(a, txns, m, p1),
        analysis_of(b, txns, m, p2),
    ensures
        a.txn_count == b.txn_count,
        a.total_work == b.total_work,
        a.span == b.span,
        a.conflict_edges == b.conflict_edges,
        a.hotspots@.len() == b.hotspots@.len(),
        forall|i: int|
            0 <= i < a.hotspots@.len() ==> same_hotspot(#[trigger] a.hotspots@[i], b.hotspots@[i]),
        p1 == p2 ==> a.threads == b.threads && a.estimated_time == b.estimated_time,
{
    law_hotspot_ranking_unique(a.hotspots@, b.hotspots@, txns, m, txns.len() as int);
}


/// Hotspots are listed most contended first: along the list the number of
/// edges never rises, and among hotspots with as many edges the blocked cost
/// never rises.
pub proof fn law_hotspots_most_contended_first(
    a: Analysis,
    txns: Seq<TxnView>,
    m: Map<LocationId, Location>,
    p: usize,
)
    requires
        analysis_of(a, txns, m, p),
    ensures
        forall|i: int, k: int|
            0 <= i < k < a.hotspots@.len() ==> (#[trigger] a.hotspots@[i]).edges_caused
                >= (#[trigger] a.hotspots@[k]).edges_caused && (a.hotspots@[i].edges_caused
                == a.hotspots@[k].edges_caused ==> a.hotspots@[i].blocked_cost
                >= a.hotspots@[k].blocked_cost),
{
    assert forall|i: int, k: int| 0 <= i < k < a.hotspots@.len() implies (
    #[trigger] a.hotspots@[i]).edges_caused >= (#[trigger] a.hotspots@[k]).edges_caused && (
    a.hotspots@[i].edges_caused == a.hotspots@[k].edges_caused ==> a.hotspots@[i].blocked_cost
        >= a.hotspots@[k].blocked_cost) by {
        assert(hotspot_precedes(a.hotspots@[i], a.hotspots@[k]));
    }
}


proof fn lemma_enough_workers(
    txns: Seq<TxnView>,
    m: Map<LocationId, Location>,
    threads: nat,
    n: int,
)
    requires
        0 <= n <= threads,
        n <= txns.len(),
        threads >= 1,
    ensures
        schedule(txns, m, threads, n).0 == span_finishes(txns, m, n),
        schedule(txns, m, threads, n).1.len() == threads,
        forall|i: int| 0 <= i < n ==> #[trigger] schedule(txns, m, threads, n).1[i] >= 1,
        forall|i: int| n <= i < threads ==> #[trigger] schedule(txns, m, threads, n).1[i] == 0,
    decreases n,
{
    if n > 0 {
        lemma_enough_workers(txns, m, threads, n - 1);
        lemma_schedule(txns, m, threads, n - 1);
        let (fin, w) = schedule(txns, m, threads, n - 1);
        let k = first_min_index(w, w.len() as int);
        lemma_first_min_index(w, w.len() as int);
        assert(w[n - 1] == 0);
        if k < n - 1 {
            assert(w[k] >= 1);
            assert(w[k] <= w[n - 1]);
        }
        if k > n - 1 {
            assert(w[k] < w[n - 1]);
        }
        assert(k == n - 1);
        lemma_pred_max_props(txns, m, n - 1, fin, n - 1);
        let f = max_int(pred_max(txns, m, n - 1, fin, n - 1), w[k]) + cost_at(txns, n - 1);
        assert(f == pred_max(txns, m, n - 1, fin, n - 1) + cost_at(txns, n - 1));
        assert(schedule(txns, m, threads, n).0 =~= span_finishes(txns, m, n));
    }
}

/// With at least as many workers as transactions, the greedy schedule is as
/// short as the critical path: every transaction gets a worker that is free
/// from the start, so it waits only for its predecessors.
pub proof fn law_enough_workers_reach_the_span(
    txns: Seq<TxnView>,
    m: Map<LocationId, Location>,
    threads: nat,
)
    requires
        threads >= 1,
        threads >= txns.len(),
    ensures
        makespan_of(txns, m, threads) == span_of(txns, m, txns.len() as int),
{
    lemma_enough_workers(txns, m, threads, txns.len() as int);
}

} // verus!
