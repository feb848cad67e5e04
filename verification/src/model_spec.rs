//! The mathematical definition of the Block-STM contention model.
//!
//! A workload is a sequence of transactions in block order. Transaction `j`
//! depends on the last earlier transaction that wrote a conflicting location
//! `j` reads (a read-after-write edge). Over that DAG the model derives the
//! critical path (span) and the makespan of a greedy list schedule on a fixed
//! number of workers, where each transaction goes to the worker that frees up
//! first.

use vstd::prelude::*;

use crate::access::{cost_of, TxnView};
use crate::location::{conflicting_in, Location, LocationId};

verus! {

/// Execution cost of transaction `j`.
pub open spec fn cost_at(txns: Seq<TxnView>, j: int) -> int {
    cost_of(txns[j].gas_used)
}

/// Sum of the costs of the first `n` transactions.
pub open spec fn total_work(txns: Seq<TxnView>, n: int) -> int
    decreases n,
{
    if n <= 0 {
        0
    } else {
        total_work(txns, n - 1) + cost_at(txns, n - 1)
    }
}

/// Total number of recorded reads over the first `n` transactions.
pub open spec fn reads_volume(txns: Seq<TxnView>, n: int) -> int
    decreases n,
{
    if n <= 0 {
        0
    } else {
        reads_volume(txns, n - 1) + txns[n - 1].reads.len()
    }
}

/// The last transaction before `j` that wrote `r`, if any.
pub open spec fn last_writer(txns: Seq<TxnView>, r: LocationId, j: int) -> Option<int>
    decreases j,
{
    if j <= 0 {
        None
    } else if txns[j - 1].writes.contains(r) {
        Some(j - 1)
    } else {
        last_writer(txns, r, j - 1)
    }
}

/// Transaction `j` has a read-after-write dependency through `r`: it reads the
/// conflicting location `r`, which an earlier transaction wrote.
pub open spec fn raw_dep(
    txns: Seq<TxnView>,
    m: Map<LocationId, Location>,
    j: int,
    r: LocationId,
) -> bool {
    &&& txns[j].reads.contains(r)
    &&& conflicting_in(m, r)
    &&& last_writer(txns, r, j) is Some
}

/// The locations through which transaction `j` depends on earlier ones.
pub open spec fn dep_set(txns: Seq<TxnView>, m: Map<LocationId, Location>, j: int) -> Set<
    LocationId,
> {
    txns[j].reads.filter(|r: LocationId| raw_dep(txns, m, j, r))
}

/// Number of read-after-write edges among the first `n` transactions.
pub open spec fn edge_count(txns: Seq<TxnView>, m: Map<LocationId, Location>, n: int) -> int
    decreases n,
{
    if n <= 0 {
        0
    } else {
        edge_count(txns, m, n - 1) + dep_set(txns, m, n - 1).len()
    }
}

/// Number of edges that location `r` induced among the first `n` transactions.
pub open spec fn loc_edges(
    txns: Seq<TxnView>,
    m: Map<LocationId, Location>,
    r: LocationId,
    n: int,
) -> int
    decreases n,
{
    if n <= 0 {
        0
    } else {
        loc_edges(txns, m, r, n - 1) + if raw_dep(txns, m, n - 1, r) {
            1int
        } else {
            0int
        }
    }
}

/// Total cost of the transactions among the first `n` that waited on `r`.
pub open spec fn loc_blocked(
    txns: Seq<TxnView>,
    m: Map<LocationId, Location>,
    r: LocationId,
    n: int,
) -> int
    decreases n,
{
    if n <= 0 {
        0
    } else {
        loc_blocked(txns, m, r, n - 1) + if raw_dep(txns, m, n - 1, r) {
            cost_at(txns, n - 1)
        } else {
            0int
        }
    }
}

/// Transaction `i` is a direct predecessor of transaction `j` in the DAG.
pub open spec fn is_pred(txns: Seq<TxnView>, m: Map<LocationId, Location>, j: int, i: int) -> bool {
    exists|r: LocationId| #[trigger] raw_dep(txns, m, j, r) && last_writer(txns, r, j) == Some(i)
}

/// The largest `vals[i]` over the predecessors `i < k` of `j`, or 0 if none.
pub open spec fn pred_max(
    txns: Seq<TxnView>,
    m: Map<LocationId, Location>,
    j: int,
    vals: Seq<int>,
    k: int,
) -> int
    decreases k,
{
    if k <= 0 {
        0
    } else {
        let rest = pred_max(txns, m, j, vals, k - 1);
        if is_pred(txns, m, j, k - 1) && vals[k - 1] > rest {
            vals[k - 1]
        } else {
            rest
        }
    }
}

/// Earliest finish time of each of the first `n` transactions with unbounded
/// workers: its cost after the latest-finishing predecessor.
pub open spec fn span_finishes(txns: Seq<TxnView>, m: Map<LocationId, Location>, n: int) -> Seq<
    int,
>
    decreases n,
{
    if n <= 0 {
        Seq::empty()
    } else {
        let prev = span_finishes(txns, m, n - 1);
        prev.push(pred_max(txns, m, n - 1, prev, n - 1) + cost_at(txns, n - 1))
    }
}

/// Index of the first smallest value among `w[0..k]`.
pub open spec fn first_min_index(w: Seq<int>, k: int) -> int
    decreases k,
{
    if k <= 1 {
        0
    } else {
        let i = first_min_index(w, k - 1);
        if w[k - 1] < w[i] {
            k - 1
        } else {
            i
        }
    }
}

/// The larger of two integers.
pub open spec fn max_int(a: int, b: int) -> int {
    if a >= b {
        a
    } else {
        b
    }
}

/// Greedy list schedule of the first `n` transactions on `threads` workers:
/// the finish time of each transaction, and the time at which each worker
/// frees up. Each transaction goes to the first worker that frees up
/// earliest and starts once that worker and all its predecessors are done.
pub open spec fn schedule(
    txns: Seq<TxnView>,
    m: Map<LocationId, Location>,
    threads: nat,
    n: int,
) -> (Seq<int>, Seq<int>)
    decreases n,
{
    if n <= 0 {
        (Seq::empty(), Seq::new(threads, |i: int| 0int))
    } else {
        let (fin, w) = schedule(txns, m, threads, n - 1);
        let k = first_min_index(w, w.len() as int);
        let f = max_int(pred_max(txns, m, n - 1, fin, n - 1), w[k]) + cost_at(txns, n - 1);
        (fin.push(f), w.update(k, f))
    }
}

/// Largest element of a sequence, or 0 for the empty sequence.
pub open spec fn seq_max(s: Seq<int>) -> int
    decreases s.len(),
{
    if s.len() == 0 {
        0
    } else {
        max_int(seq_max(s.drop_last()), s.last())
    }
}

/// The number of workers actually modelled: at least one.
pub open spec fn effective_threads(threads: usize) -> nat {
    if threads == 0 {
        1
    } else {
        threads as nat
    }
}

/// Critical-path length of the first `n` transactions.
pub open spec fn span_of(txns: Seq<TxnView>, m: Map<LocationId, Location>, n: int) -> int {
    seq_max(span_finishes(txns, m, n))
}

/// Makespan of the greedy schedule of all transactions on `threads` workers.
pub open spec fn makespan_of(txns: Seq<TxnView>, m: Map<LocationId, Location>, threads: nat) -> int {
    seq_max(schedule(txns, m, threads, txns.len() as int).0)
}

// ---------------------------------------------------------------------------
// Lemmas
// ---------------------------------------------------------------------------

/// The last writer before `j` comes before `j` and wrote `r`.
pub proof fn lemma_last_writer_bound(txns: Seq<TxnView>, r: LocationId, j: int)
    ensures
        last_writer(txns, r, j) matches Some(i) ==> 0 <= i < j && txns[i].writes.contains(r),
    decreases j,
{
    if j > 0 {
        lemma_last_writer_bound(txns, r, j - 1);
    }
}

/// `pred_max` bounds every predecessor value below `k` and is attained by one
/// of them (or is 0).
pub proof fn lemma_pred_max_props(
    txns: Seq<TxnView>,
    m: Map<LocationId, Location>,
    j: int,
    vals: Seq<int>,
    k: int,
)
    ensures
        forall|i: int| 0 <= i < k && is_pred(txns, m, j, i) ==> vals[i] <= pred_max(txns, m, j, vals, k),
        pred_max(txns, m, j, vals, k) == 0 || exists|i: int|
            0 <= i < k && is_pred(txns, m, j, i) && vals[i] == pred_max(txns, m, j, vals, k),
        pred_max(txns, m, j, vals, k) >= 0,
    decreases k,
{
    if k > 0 {
        lemma_pred_max_props(txns, m, j, vals, k - 1);
    }
}

/// A value that bounds the predecessor values reached through every
/// dependency location of `j`, and is one of them (or 0), is `pred_max`.
pub proof fn lemma_pred_max_unique(
    txns: Seq<TxnView>,
    m: Map<LocationId, Location>,
    j: int,
    vals: Seq<int>,
    d: int,
)
    requires
        j <= vals.len(),
        forall|i: int| 0 <= i < j ==> vals[i] >= 0,
        forall|r: LocationId| #[trigger]
            raw_dep(txns, m, j, r) ==> vals[last_writer(txns, r, j)->0] <= d,
        d == 0 || exists|r: LocationId| #[trigger]
            raw_dep(txns, m, j, r) && vals[last_writer(txns, r, j)->0] == d,
    ensures
        d == pred_max(txns, m, j, vals, j),
{
    let p = pred_max(txns, m, j, vals, j);
    lemma_pred_max_props(txns, m, j, vals, j);
    if p != 0 {
        let i = choose|i: int| 0 <= i < j && is_pred(txns, m, j, i) && vals[i] == p;
        let r = choose|r: LocationId| #[trigger]
            raw_dep(txns, m, j, r) && last_writer(txns, r, j) == Some(i);
        assert(vals[i] <= d);
    }
    if d != 0 {
        let r = choose|r: LocationId| #[trigger]
            raw_dep(txns, m, j, r) && vals[last_writer(txns, r, j)->0] == d;
        lemma_last_writer_bound(txns, r, j);
        let i = last_writer(txns, r, j)->0;
        assert(is_pred(txns, m, j, i));
    }
}

/// A bound on every predecessor value bounds `pred_max`.
pub proof fn lemma_pred_max_bound(
    txns: Seq<TxnView>,
    m: Map<LocationId, Location>,
    j: int,
    vals: Seq<int>,
    k: int,
    b: int,
)
    requires
        0 <= b,
        k <= vals.len(),
        forall|i: int| 0 <= i < k ==> vals[i] <= b,
    ensures
        0 <= pred_max(txns, m, j, vals, k) <= b,
    decreases k,
{
    if k > 0 {
        lemma_pred_max_bound(txns, m, j, vals, k - 1, b);
    }
}

/// Total work only grows with more transactions.
pub proof fn lemma_total_work_mono(txns: Seq<TxnView>, a: int, b: int)
    requires
        0 <= a <= b,
    ensures
        total_work(txns, a) <= total_work(txns, b),
    decreases b,
{
    if a < b {
        lemma_total_work_mono(txns, a, b - 1);
    }
}

/// The number of recorded reads only grows with more transactions.
pub proof fn lemma_reads_volume_mono(txns: Seq<TxnView>, a: int, b: int)
    requires
        0 <= a <= b,
    ensures
        reads_volume(txns, a) <= reads_volume(txns, b),
    decreases b,
{
    if a < b {
        lemma_reads_volume_mono(txns, a, b - 1);
    }
}

/// Each critical-path finish time is positive and at most the work so far.
pub proof fn lemma_span_finishes(txns: Seq<TxnView>, m: Map<LocationId, Location>, n: int)
    requires
        0 <= n,
    ensures
        span_finishes(txns, m, n).len() == n,
        forall|i: int|
            0 <= i < n ==> 1 <= #[trigger] span_finishes(txns, m, n)[i] <= total_work(txns, i + 1),
    decreases n,
{
    if n > 0 {
        lemma_span_finishes(txns, m, n - 1);
        let prev = span_finishes(txns, m, n - 1);
        assert forall|i: int| 0 <= i < n - 1 implies prev[i] <= total_work(txns, n - 1) by {
            lemma_total_work_mono(txns, i + 1, n - 1);
        }
        lemma_total_work_mono(txns, 0, n - 1);
        lemma_pred_max_bound(txns, m, n - 1, prev, n - 1, total_work(txns, n - 1));
    }
}

/// `first_min_index` picks the first of the smallest elements.
pub proof fn lemma_first_min_index(w: Seq<int>, k: int)
    requires
        1 <= k <= w.len(),
    ensures
        0 <= first_min_index(w, k) < k,
        forall|i: int| 0 <= i < k ==> w[first_min_index(w, k)] <= #[trigger] w[i],
        forall|i: int| 0 <= i < first_min_index(w, k) ==> w[first_min_index(w, k)] < #[trigger] w[i],
    decreases k,
{
    if k > 1 {
        lemma_first_min_index(w, k - 1);
    }
}

/// Shape and bounds of the greedy schedule.
pub proof fn lemma_schedule(txns: Seq<TxnView>, m: Map<LocationId, Location>, threads: nat, n: int)
    requires
        0 <= n,
        threads >= 1,
    ensures
        schedule(txns, m, threads, n).0.len() == n,
        schedule(txns, m, threads, n).1.len() == threads,
        forall|i: int|
            0 <= i < n ==> 1 <= #[trigger] schedule(txns, m, threads, n).0[i] <= total_work(
                txns,
                i + 1,
            ),
        forall|i: int|
            0 <= i < threads ==> 0 <= #[trigger] schedule(txns, m, threads, n).1[i] <= total_work(
                txns,
                n,
            ),
    decreases n,
{
    if n > 0 {
        lemma_schedule(txns, m, threads, n - 1);
        let (fin, w) = schedule(txns, m, threads, n - 1);
        assert forall|i: int| 0 <= i < n - 1 implies fin[i] <= total_work(txns, n - 1) by {
            lemma_total_work_mono(txns, i + 1, n - 1);
        }
        lemma_total_work_mono(txns, 0, n - 1);
        lemma_pred_max_bound(txns, m, n - 1, fin, n - 1, total_work(txns, n - 1));
        lemma_first_min_index(w, w.len() as int);
        lemma_total_work_mono(txns, n - 1, n);
    }
}

/// The maximum after appending `x`.
pub proof fn lemma_seq_max_push(s: Seq<int>, x: int)
    ensures
        seq_max(s.push(x)) == max_int(seq_max(s), x),
{
    assert(s.push(x).drop_last() =~= s);
}

/// The maximum of non-negative values bounds each of them and is one of
/// them (0 for an empty sequence).
pub proof fn lemma_seq_max_bounds(s: Seq<int>)
    requires
        forall|i: int| 0 <= i < s.len() ==> s[i] >= 0,
    ensures
        forall|i: int| 0 <= i < s.len() ==> s[i] <= seq_max(s),
        s.len() == 0 ==> seq_max(s) == 0,
        s.len() > 0 ==> exists|i: int| 0 <= i < s.len() && s[i] == seq_max(s),
    decreases s.len(),
{
    if s.len() > 0 {
        assert forall|i: int| 0 <= i < s.len() - 1 implies s.drop_last()[i] >= 0 by {
            assert(s.drop_last()[i] == s[i]);
        }
        lemma_seq_max_bounds(s.drop_last());
        assert forall|i: int| 0 <= i < s.len() implies s[i] <= seq_max(s) by {
            if i < s.len() - 1 {
                assert(s.drop_last()[i] == s[i]);
            }
        }
        if s.len() > 1 && seq_max(s.drop_last()) >= s.last() {
            let i = choose|i: int| 0 <= i < s.len() - 1 && s.drop_last()[i] == seq_max(s.drop_last());
            assert(s[i] == seq_max(s));
        }
        if s.len() == 1 {
            assert(s.drop_last().len() == 0);
        }
        assert(s[s.len() - 1] == s.last());
    }
}

/// Bounds on the edges and blocked cost that one location causes.
pub proof fn lemma_loc_bounds(txns: Seq<TxnView>, m: Map<LocationId, Location>, r: LocationId, n: int)
    requires
        0 <= n,
    ensures
        0 <= loc_edges(txns, m, r, n) <= n,
        0 <= loc_blocked(txns, m, r, n) <= total_work(txns, n),
        loc_edges(txns, m, r, n) == 0 ==> loc_blocked(txns, m, r, n) == 0,
    decreases n,
{
    if n > 0 {
        lemma_loc_bounds(txns, m, r, n - 1);
    }
}

} // verus!
