//! The Block-STM contention model.
//!
//! Aptos executes a block optimistically in parallel and re-executes a
//! transaction whenever it read a location an earlier transaction wrote. That
//! read-after-write (RAW) relationship is the dominant serialization cost, so
//! a workload is modelled as the RAW dependency DAG over captured access sets,
//! and the parallel makespan is estimated with a greedy list scheduler.
//!
//! Write-after-write and write-after-read pairs are intentionally ignored:
//! Block-STM's multi-versioning resolves those at commit without serializing
//! execution. Aggregator, code and framework locations are excluded because
//! their updates commute, occur only at publish time, or cannot be refactored.

use std::collections::HashMap;
use vstd::prelude::*;
use vstd::std_specs::iter::IteratorSpec;

use crate::access::{txn_views, TxnAccess, TxnView, Workload};
use crate::location::{
    class_of, conflicting_in, label_of, KeyClass, Location, LocationId, LocationTable,
};
use crate::model_spec::{
    cost_at, edge_count, effective_threads, first_min_index, lemma_first_min_index,
    lemma_last_writer_bound, lemma_loc_bounds, lemma_pred_max_unique, lemma_reads_volume_mono,
    lemma_schedule, lemma_seq_max_push, lemma_span_finishes, lemma_total_work_mono, last_writer,
    loc_blocked, loc_edges, makespan_of, max_int, pred_max, raw_dep, reads_volume, schedule,
    seq_max, span_finishes, span_of, total_work, dep_set,
};
use crate::text::{
    chars_of, lemma_lex_le_antisymmetric, lemma_lex_le_reflexive, lemma_lex_le_total,
    lemma_lex_le_transitive, lex_le, lex_le_exec,
};

verus! {

/// A single storage location ranked by the contention it causes.
#[derive(Debug)]
pub struct Hotspot {
    pub location: LocationId,
    pub label: String,
    pub class: KeyClass,
    /// Number of read-after-write dependencies this location induced.
    pub edges_caused: usize,
    /// Total cost of the transactions that had to wait on this location.
    pub blocked_cost: u64,
}

/// The result of analyzing a workload at a given thread count.
///
/// The speedup (`total_work / estimated_time`) and the parallelizability
/// (speedup as a fraction of `threads`) are ratios of these fields.
#[derive(Debug)]
pub struct Analysis {
    pub threads: usize,
    pub txn_count: usize,
    /// Sum of all transaction costs: the time a single thread would take.
    pub total_work: u64,
    /// Critical-path length: the unavoidable serial span at infinite threads.
    pub span: u64,
    /// Makespan estimate from greedy list scheduling at `threads`, at least 1.
    pub estimated_time: u64,
    pub conflict_edges: usize,
    pub hotspots: Vec<Hotspot>,
}

/// `a` may be listed before `b`: more edges first, then more blocked cost,
/// then the label in lexicographic order, and last the smaller location id.
pub open spec fn hotspot_precedes(a: Hotspot, b: Hotspot) -> bool {
    ||| a.edges_caused > b.edges_caused
    ||| (a.edges_caused == b.edges_caused && a.blocked_cost > b.blocked_cost)
    ||| (a.edges_caused == b.edges_caused && a.blocked_cost == b.blocked_cost && a.label@
        != b.label@ && lex_le(a.label@, b.label@))
    ||| (a.edges_caused == b.edges_caused && a.blocked_cost == b.blocked_cost && a.label@
        == b.label@ && a.location <= b.location)
}

/// `h` reports the contention caused by its location over the first `n`
/// transactions.
pub open spec fn hotspot_describes(
    h: Hotspot,
    txns: Seq<TxnView>,
    m: Map<LocationId, Location>,
    n: int,
) -> bool {
    &&& loc_edges(txns, m, h.location, n) > 0
    &&& h.edges_caused == loc_edges(txns, m, h.location, n)
    &&& h.blocked_cost == loc_blocked(txns, m, h.location, n)
    &&& h.label@ == label_of(m, h.location)
    &&& h.class == class_of(m, h.location)
}

/// `hs` lists every location that induced an edge, once each, ranked.
pub open spec fn hotspots_ranked(
    hs: Seq<Hotspot>,
    txns: Seq<TxnView>,
    m: Map<LocationId, Location>,
    n: int,
) -> bool {
    &&& forall|i: int| 0 <= i < hs.len() ==> hotspot_describes(#[trigger] hs[i], txns, m, n)
    &&& forall|r: LocationId|
        #[trigger] loc_edges(txns, m, r, n) > 0 ==> exists|i: int|
            0 <= i < hs.len() && (#[trigger] hs[i]).location == r
    &&& forall|i: int, k: int|
        0 <= i < k < hs.len() ==> (#[trigger] hs[i]).location != (#[trigger] hs[k]).location
    &&& forall|i: int, k: int|
        0 <= i < k < hs.len() ==> hotspot_precedes(#[trigger] hs[i], #[trigger] hs[k])
}

/// The analysis of `txns` (registry `m`) at `threads` requested workers.
pub open spec fn analysis_of(
    a: Analysis,
    txns: Seq<TxnView>,
    m: Map<LocationId, Location>,
    threads: usize,
) -> bool {
    let n = txns.len() as int;
    &&& a.threads == effective_threads(threads)
    &&& a.txn_count == n
    &&& a.total_work == total_work(txns, n)
    &&& a.span == span_of(txns, m, n)
    &&& a.estimated_time == max_int(makespan_of(txns, m, effective_threads(threads)), 1)
    &&& a.conflict_edges == edge_count(txns, m, n)
    &&& hotspots_ranked(a.hotspots@, txns, m, n)
}

/// The workloads the model can evaluate without overflowing: total work fits
/// in a `u64` and the number of recorded reads in a `usize`.
pub open spec fn analyzable(txns: Seq<TxnView>) -> bool {
    &&& total_work(txns, txns.len() as int) <= u64::MAX
    &&& reads_volume(txns, txns.len() as int) <= usize::MAX
}

/// Per-location dependency tally built while scanning.
struct DepTally {
    location: LocationId,
    edges: usize,
    blocked: u64,
}

spec fn ints(s: Seq<u64>) -> Seq<int> {
    s.map_values(|x: u64| x as int)
}

spec fn lw_inv(
    lw: Map<LocationId, usize>,
    txns: Seq<TxnView>,
    m: Map<LocationId, Location>,
    j: int,
) -> bool {
    &&& forall|r: LocationId|
        #[trigger] lw.contains_key(r) <==> (conflicting_in(m, r) && last_writer(txns, r, j) is Some)
    &&& forall|r: LocationId| #[trigger]
        lw.contains_key(r) ==> last_writer(txns, r, j) == Some(lw[r] as int)
}

spec fn extra_edge(extra: spec_fn(LocationId) -> bool, r: LocationId) -> int {
    if extra(r) {
        1
    } else {
        0
    }
}

spec fn extra_cost(extra: spec_fn(LocationId) -> bool, r: LocationId, c: int) -> int {
    if extra(r) {
        c
    } else {
        0
    }
}

spec fn tally_inv(
    index: Map<LocationId, usize>,
    tallies: Seq<DepTally>,
    txns: Seq<TxnView>,
    m: Map<LocationId, Location>,
    j: int,
    extra: spec_fn(LocationId) -> bool,
    c: int,
) -> bool {
    &&& forall|r: LocationId| #[trigger]
        index.contains_key(r) <==> (loc_edges(txns, m, r, j) > 0 || extra(r))
    &&& forall|r: LocationId| #[trigger]
        index.contains_key(r) ==> index[r] < tallies.len() && tallies[index[r] as int].location
            == r
    &&& forall|k: int|
        0 <= k < tallies.len() ==> index.contains_key((#[trigger] tallies[k]).location)
            && index[tallies[k].location] == k
    &&& forall|k: int|
        0 <= k < tallies.len() ==> (#[trigger] tallies[k]).edges == loc_edges(
            txns,
            m,
            tallies[k].location,
            j,
        ) + extra_edge(extra, tallies[k].location)
    &&& forall|k: int|
        0 <= k < tallies.len() ==> (#[trigger] tallies[k]).blocked == loc_blocked(
            txns,
            m,
            tallies[k].location,
            j,
        ) + extra_cost(extra, tallies[k].location, c)
}

spec fn no_extra() -> spec_fn(LocationId) -> bool {
    |r: LocationId| false
}

/// Index of the first worker that frees up earliest.
fn first_free_worker(workers: &Vec<u64>) -> (k: usize)
    requires
        workers@.len() >= 1,
    ensures
        k == first_min_index(ints(workers@), workers@.len() as int),
{
    let mut best: usize = 0;
    let mut i: usize = 1;
    while i < workers.len()
        invariant
            1 <= i <= workers@.len(),
            best == first_min_index(ints(workers@), i as int),
        decreases workers@.len() - i,
    {
        proof {
            lemma_first_min_index(ints(workers@), i as int);
        }
        if workers[i] < workers[best] {
            best = i;
        }
        i = i + 1;
    }
    best
}

/// Scan the reads of transaction `j`: count its read-after-write edges, tally
/// them per location, and return the latest finish time among its
/// predecessors, unbounded and under the schedule.
#[verifier::loop_isolation(false)]
fn scan_reads(
    writers: &HashMap<LocationId, usize>,
    span_finish: &Vec<u64>,
    sched_finish: &Vec<u64>,
    tally_index: &mut HashMap<LocationId, usize>,
    tallies: &mut Vec<DepTally>,
    conflict_edges: &mut usize,
    txn: &TxnAccess,
    table: &LocationTable,
    j: usize,
    cost: u64,
    Ghost(txns): Ghost<Seq<TxnView>>,
    Ghost(threads): Ghost<nat>,
) -> (deps: (u64, u64))
    requires
        j < txns.len() <= usize::MAX,
        txns[j as int] == txn@,
        cost == cost_at(txns, j as int),
        threads >= 1,
        lw_inv(writers@, txns, table@, j as int),
        ints(span_finish@) == span_finishes(txns, table@, j as int),
        ints(sched_finish@) == schedule(txns, table@, threads, j as int).0,
        tally_inv(old(tally_index)@, old(tallies)@, txns, table@, j as int, no_extra(), 0),
        *old(conflict_edges) == edge_count(txns, table@, j as int),
        edge_count(txns, table@, j as int) <= reads_volume(txns, j as int),
        total_work(txns, j + 1) <= u64::MAX,
        reads_volume(txns, j + 1) <= usize::MAX,
    ensures
        tally_inv(final(tally_index)@, final(tallies)@, txns, table@, j + 1, no_extra(), 0),
        *final(conflict_edges) == edge_count(txns, table@, j + 1),
        edge_count(txns, table@, j + 1) <= reads_volume(txns, j + 1),
        deps.0 == pred_max(
            txns,
            table@,
            j as int,
            span_finishes(txns, table@, j as int),
            j as int,
        ),
        deps.1 == pred_max(
            txns,
            table@,
            j as int,
            schedule(txns, table@, threads, j as int).0,
            j as int,
        ),
{
    let ghost m = table@;
    let ghost jj = j as int;
    let ghost svals = span_finishes(txns, m, jj);
    let ghost qvals = schedule(txns, m, threads, jj).0;
    proof {
        lemma_span_finishes(txns, m, jj);
        lemma_schedule(txns, m, threads, jj);
        lemma_total_work_mono(txns, jj, jj + 1);
    }
    let mut dep_span: u64 = 0;
    let mut dep_sched: u64 = 0;
    let ghost mut done: Set<LocationId> = Set::empty();
    let ghost rs = vstd::std_specs::btree::spec_btree_keys_iter(&txn.reads).remaining().unref();
    proof {
        assert(Set::<LocationId>::empty().filter(|r: LocationId| raw_dep(txns, m, jj, r))
            =~= Set::<LocationId>::empty());
    }
    for r in it: txn.reads.iter()
        invariant
            it.seq().unref() == rs,
            it.seq().unref().to_set() == txn.reads@,
            it.seq().unref().no_duplicates(),
            done == it.seq().unref().take(it.index()).to_set(),
            tally_inv(
                tally_index@,
                tallies@,
                txns,
                m,
                jj,
                |r: LocationId| done.contains(r) && raw_dep(txns, m, jj, r),
                cost as int,
            ),
            *conflict_edges == edge_count(txns, m, jj) + done.filter(
                |r: LocationId| raw_dep(txns, m, jj, r),
            ).len(),
            forall|r: LocationId|
                done.contains(r) && #[trigger] raw_dep(txns, m, jj, r) ==> svals[last_writer(
                    txns,
                    r,
                    jj,
                )->0] <= dep_span && qvals[last_writer(txns, r, jj)->0] <= dep_sched,
            dep_span == 0 || exists|r: LocationId|
                done.contains(r) && #[trigger] raw_dep(txns, m, jj, r) && svals[last_writer(
                    txns,
                    r,
                    jj,
                )->0] == dep_span,
            dep_sched == 0 || exists|r: LocationId|
                done.contains(r) && #[trigger] raw_dep(txns, m, jj, r) && qvals[last_writer(
                    txns,
                    r,
                    jj,
                )->0] == dep_sched,
    {
        let id: LocationId = *r;
        let ghost old_done = done;
        let ghost k_idx = it.index();
        proof {
            assert(it.seq().unref().take(k_idx + 1) =~= it.seq().unref().take(k_idx).push(id));
            it.seq().unref().take(k_idx).lemma_push_to_set_commute(id);
            assert(!old_done.contains(id)) by {
                if old_done.contains(id) {
                    let q = choose|q: int|
                        0 <= q < k_idx && it.seq().unref().take(k_idx)[q] == id;
                    assert(it.seq().unref()[q] == it.seq().unref()[k_idx]);
                }
            }
            assert(txn.reads@.contains(id)) by {
                assert(it.seq().unref()[k_idx] == id);
            }
            done = done.insert(id);
        }
        if table.is_conflicting(id) {
            if let Some(i_ref) = writers.get(&id) {
                let i: usize = *i_ref;
                proof {
                    assert(raw_dep(txns, m, jj, id));
                    lemma_last_writer_bound(txns, id, jj);
                    lemma_loc_bounds(txns, m, id, jj);
                    // the edge count stays within the number of reads
                    let fd = old_done.filter(|r: LocationId| raw_dep(txns, m, jj, r));
                    let nd = done.filter(|r: LocationId| raw_dep(txns, m, jj, r));
                    assert(nd =~= fd.insert(id));
                    assert(nd.subset_of(txn.reads@));
                    vstd::set_lib::lemma_len_subset(nd, txn.reads@);
                }
                *conflict_edges = *conflict_edges + 1;
                match tally_index.get(&id) {
                    Some(k_ref) => {
                        let k: usize = *k_ref;
                        let e = tallies[k].edges;
                        let b = tallies[k].blocked;
                        tallies.set(k, DepTally { location: id, edges: e + 1, blocked: b + cost });
                    },
                    None => {
                        let k = tallies.len();
                        tallies.push(DepTally { location: id, edges: 1, blocked: cost });
                        tally_index.insert(id, k);
                    },
                }
                if span_finish[i] > dep_span {
                    dep_span = span_finish[i];
                }
                if sched_finish[i] > dep_sched {
                    dep_sched = sched_finish[i];
                }
                proof {
                    assert(svals[i as int] == span_finish@[i as int]);
                    assert(qvals[i as int] == sched_finish@[i as int]);
                    let fd = old_done.filter(|r: LocationId| raw_dep(txns, m, jj, r));
                    let nd = done.filter(|r: LocationId| raw_dep(txns, m, jj, r));
                    assert(nd =~= fd.insert(id));
                }
            } else {
                proof {
                    assert(!raw_dep(txns, m, jj, id));
                    let fd = old_done.filter(|r: LocationId| raw_dep(txns, m, jj, r));
                    let nd = done.filter(|r: LocationId| raw_dep(txns, m, jj, r));
                    assert(nd =~= fd);
                }
            }
        } else {
            proof {
                assert(!raw_dep(txns, m, jj, id));
                let fd = old_done.filter(|r: LocationId| raw_dep(txns, m, jj, r));
                let nd = done.filter(|r: LocationId| raw_dep(txns, m, jj, r));
                assert(nd =~= fd);
            }
        }
    }
    proof {
        assert(rs.take(rs.len() as int) =~= rs);
        assert(done =~= txn.reads@);
        assert(done.filter(|r: LocationId| raw_dep(txns, m, jj, r)) =~= dep_set(txns, m, jj));
        assert(txn.reads@.finite());
        vstd::set_lib::lemma_len_subset(dep_set(txns, m, jj), txn.reads@);
        let extra = |r: LocationId| done.contains(r) && raw_dep(txns, m, jj, r);
        assert forall|r: LocationId|
            loc_edges(txns, m, r, jj + 1) == loc_edges(txns, m, r, jj) + extra_edge(extra, r)
            && loc_blocked(txns, m, r, jj + 1) == loc_blocked(txns, m, r, jj) + extra_cost(
                extra,
                r,
                cost as int,
            ) by {}
        assert forall|r: LocationId| #[trigger]
            tally_index@.contains_key(r) <==> (loc_edges(txns, m, r, jj + 1) > 0 || no_extra()(
                r,
            )) by {
            lemma_loc_bounds(txns, m, r, jj);
        }
        assert forall|r: LocationId|
            #[trigger] raw_dep(txns, m, jj, r) implies svals[last_writer(txns, r, jj)->0]
                <= dep_span by {}
        assert forall|r: LocationId|
            #[trigger] raw_dep(txns, m, jj, r) implies qvals[last_writer(txns, r, jj)->0]
                <= dep_sched by {}
        lemma_pred_max_unique(txns, m, jj, svals, dep_span as int);
        lemma_pred_max_unique(txns, m, jj, qvals, dep_sched as int);
    }
    (dep_span, dep_sched)
}

/// Record the conflicting writes of transaction `j` as the latest writers.
#[verifier::loop_isolation(false)]
fn record_writes(
    writers: &mut HashMap<LocationId, usize>,
    txn: &TxnAccess,
    table: &LocationTable,
    j: usize,
    Ghost(txns): Ghost<Seq<TxnView>>,
)
    requires
        j < txns.len(),
        txns[j as int] == txn@,
        lw_inv(old(writers)@, txns, table@, j as int),
    ensures
        lw_inv(final(writers)@, txns, table@, j + 1),
{
    let ghost m = table@;
    let ghost jj = j as int;
    let ghost old_lw = writers@;
    let ghost mut done: Set<LocationId> = Set::empty();
    let ghost ws = vstd::std_specs::btree::spec_btree_keys_iter(&txn.writes).remaining().unref();
    for w in it: txn.writes.iter()
        invariant
            it.seq().unref() == ws,
            it.seq().unref().to_set() == txn.writes@,
            done == it.seq().unref().take(it.index()).to_set(),
            forall|r: LocationId| #[trigger]
                writers@.contains_key(r) <==> (old_lw.contains_key(r) || (done.contains(r)
                    && conflicting_in(m, r))),
            forall|r: LocationId| #[trigger]
                writers@.contains_key(r) ==> writers@[r] == if done.contains(r)
                    && conflicting_in(m, r) {
                    j
                } else {
                    old_lw[r]
                },
    {
        let id: LocationId = *w;
        let ghost k_idx = it.index();
        proof {
            assert(it.seq().unref().take(k_idx + 1) =~= it.seq().unref().take(k_idx).push(id));
            it.seq().unref().take(k_idx).lemma_push_to_set_commute(id);
            done = done.insert(id);
        }
        if table.is_conflicting(id) {
            writers.insert(id, j);
        }
    }
    proof {
        assert(ws.take(ws.len() as int) =~= ws);
        assert(done =~= txn.writes@);
    }
}

/// Hotspots for the tallied locations, in tally order.
fn tallies_to_hotspots(tallies: &Vec<DepTally>, table: &LocationTable) -> (hs: Vec<Hotspot>)
    ensures
        hs@.len() == tallies@.len(),
        forall|k: int|
            0 <= k < hs@.len() ==> {
                &&& (#[trigger] hs@[k]).location == tallies@[k].location
                &&& hs@[k].edges_caused == tallies@[k].edges
                &&& hs@[k].blocked_cost == tallies@[k].blocked
                &&& hs@[k].label@ == label_of(table@, tallies@[k].location)
                &&& hs@[k].class == class_of(table@, tallies@[k].location)
            },
{
    let mut hs: Vec<Hotspot> = Vec::new();
    for k in 0..tallies.len()
        invariant
            hs@.len() == k,
            forall|q: int|
                0 <= q < k ==> {
                    &&& (#[trigger] hs@[q]).location == tallies@[q].location
                    &&& hs@[q].edges_caused == tallies@[q].edges
                    &&& hs@[q].blocked_cost == tallies@[q].blocked
                    &&& hs@[q].label@ == label_of(table@, tallies@[q].location)
                    &&& hs@[q].class == class_of(table@, tallies@[q].location)
                },
    {
        let t = &tallies[k];
        let label = String::from_str(table.label(t.location));
        hs.push(
            Hotspot {
                location: t.location,
                label,
                class: table.class(t.location),
                edges_caused: t.edges,
                blocked_cost: t.blocked,
            },
        );
    }
    hs
}

/// Whether `a` may be listed before `b`, given `b`'s label as characters.
fn precedes_exec(a: &Hotspot, a_label: &Vec<char>, b: &Hotspot, b_label: &Vec<char>) -> (r: bool)
    requires
        a_label@ == a.label@,
        b_label@ == b.label@,
    ensures
        r == hotspot_precedes(*a, *b),
{
    if a.edges_caused != b.edges_caused {
        a.edges_caused > b.edges_caused
    } else if a.blocked_cost != b.blocked_cost {
        a.blocked_cost > b.blocked_cost
    } else {
        let ab = lex_le_exec(a_label, b_label);
        let ba = lex_le_exec(b_label, a_label);
        if ab && ba {
            proof {
                lemma_lex_le_antisymmetric(a.label@, b.label@);
            }
            a.location <= b.location
        } else {
            proof {
                lemma_lex_le_reflexive(a.label@);
            }
            ab
        }
    }
}

/// Any two hotspots can be ranked one way or the other.
pub proof fn lemma_precedes_total(a: Hotspot, b: Hotspot)
    ensures
        hotspot_precedes(a, b) || hotspot_precedes(b, a),
{
    lemma_lex_le_total(a.label@, b.label@);
}

/// The hotspot ranking is transitive.
pub proof fn lemma_precedes_transitive(a: Hotspot, b: Hotspot, c: Hotspot)
    requires
        hotspot_precedes(a, b),
        hotspot_precedes(b, c),
    ensures
        hotspot_precedes(a, c),
{
    if a.edges_caused == b.edges_caused && b.edges_caused == c.edges_caused && a.blocked_cost
        == b.blocked_cost && b.blocked_cost == c.blocked_cost {
        lemma_lex_le_reflexive(a.label@);
        lemma_lex_le_reflexive(b.label@);
        lemma_lex_le_transitive(a.label@, b.label@, c.label@);
        if a.label@ == c.label@ && a.label@ != b.label@ {
            lemma_lex_le_antisymmetric(a.label@, b.label@);
        }
        if a.label@ == c.label@ && b.label@ != c.label@ {
            lemma_lex_le_antisymmetric(b.label@, c.label@);
        }
    }
}

/// Two hotspots that rank no later than each other are about the same
/// location.
pub proof fn lemma_precedes_antisymmetric(a: Hotspot, b: Hotspot)
    requires
        hotspot_precedes(a, b),
        hotspot_precedes(b, a),
    ensures
        a.location == b.location,
{
    if a.label@ != b.label@ && a.edges_caused == b.edges_caused && a.blocked_cost == b.blocked_cost {
        lemma_lex_le_antisymmetric(a.label@, b.label@);
    }
}

/// Rank hotspots: the result holds each input once and is ordered by
/// `hotspot_precedes`.
fn rank_hotspots(hs: Vec<Hotspot>) -> (out: Vec<Hotspot>)
    ensures
        out@.len() == hs@.len(),
        exists|perm: Seq<int>|
            #![trigger perm.len()]
            perm.len() == hs@.len() && perm.no_duplicates() && (forall|i: int|
                0 <= i < perm.len() ==> 0 <= #[trigger] perm[i] < hs@.len() && out@[i]
                    == hs@[perm[i]]),
        forall|i: int, k: int|
            0 <= i < k < out@.len() ==> hotspot_precedes(#[trigger] out@[i], #[trigger] out@[k]),
{
    let n = hs.len();
    let mut labels: Vec<Vec<char>> = Vec::new();
    for k in 0..n
        invariant
            n == hs@.len(),
            labels@.len() == k,
            forall|q: int| 0 <= q < k ==> (#[trigger] labels@[q])@ == hs@[q].label@,
    {
        labels.push(chars_of(hs[k].label.as_str()));
    }
    // order: indices into hs, kept ranked
    let mut order: Vec<usize> = Vec::new();
    for k in 0..n
        invariant
            n == hs@.len(),
            labels@.len() == n,
            forall|q: int| 0 <= q < n ==> (#[trigger] labels@[q])@ == hs@[q].label@,
            order@.len() == k,
            order@.no_duplicates(),
            forall|q: int| 0 <= q < order@.len() ==> (#[trigger] order@[q]) < k,
            forall|x: usize| x < k ==> order@.contains(x),
            forall|p: int, q: int|
                0 <= p < q < order@.len() ==> hotspot_precedes(
                    hs@[#[trigger] order@[p] as int],
                    hs@[#[trigger] order@[q] as int],
                ),
    {
        let mut pos: usize = 0;
        while pos < order.len() && precedes_exec(
            &hs[order[pos]],
            &labels[order[pos]],
            &hs[k],
            &labels[k],
        )
            invariant
                n == hs@.len(),
                k < n,
                labels@.len() == n,
                forall|q: int| 0 <= q < n ==> (#[trigger] labels@[q])@ == hs@[q].label@,
                forall|q: int| 0 <= q < order@.len() ==> (#[trigger] order@[q]) < k,
                0 <= pos <= order@.len(),
                forall|q: int|
                    0 <= q < pos ==> hotspot_precedes(hs@[#[trigger] order@[q] as int], hs@[k as int]),
            decreases order@.len() - pos,
        {
            pos = pos + 1;
        }
        proof {
            if pos < order@.len() {
                lemma_precedes_total(hs@[order@[pos as int] as int], hs@[k as int]);
                assert forall|q: int| pos <= q < order@.len() implies hotspot_precedes(
                    hs@[k as int],
                    hs@[order@[q] as int],
                ) by {
                    if q > pos {
                        lemma_precedes_transitive(
                            hs@[k as int],
                            hs@[order@[pos as int] as int],
                            hs@[order@[q] as int],
                        );
                    }
                }
            }
        }
        let ghost old_order = order@;
        order.insert(pos, k);
        proof {
            old_order.insert_ensures(pos as int, k);
            assert forall|p: int, q: int|
                0 <= p < q < order@.len() implies hotspot_precedes(
                hs@[#[trigger] order@[p] as int],
                hs@[#[trigger] order@[q] as int],
            ) by {
                if p < pos && q < pos {
                    assert(order@[p] == old_order[p] && order@[q] == old_order[q]);
                } else if p < pos && q == pos {
                    assert(order@[p] == old_order[p]);
                } else if p < pos {
                    assert(order@[p] == old_order[p] && order@[q] == old_order[q - 1]);
                } else if p == pos {
                    assert(order@[q] == old_order[q - 1]);
                } else {
                    assert(order@[p] == old_order[p - 1] && order@[q] == old_order[q - 1]);
                }
            }
            assert forall|x: usize| x < k + 1 implies order@.contains(x) by {
                if x < k {
                    assert(old_order.contains(x));
                    let q = choose|q: int| 0 <= q < old_order.len() && old_order[q] == x;
                    if q < pos {
                        assert(order@[q] == x);
                    } else {
                        assert(order@[q + 1] == x);
                    }
                } else {
                    assert(order@[pos as int] == x);
                }
            }
            assert forall|p: int, q: int|
                0 <= p < order@.len() && 0 <= q < order@.len() && p != q implies order@[p]
                != order@[q] by {
                let op = if p < pos {
                    p
                } else if p == pos {
                    -1
                } else {
                    p - 1
                };
                let oq = if q < pos {
                    q
                } else if q == pos {
                    -1
                } else {
                    q - 1
                };
                if op >= 0 && oq >= 0 {
                    assert(old_order[op] != old_order[oq]);
                }
            }
        }
    }
    // build the ranked list
    let mut out: Vec<Hotspot> = Vec::new();
    for q in 0..n
        invariant
            n == hs@.len(),
            order@.len() == n,
            forall|p: int| 0 <= p < n ==> (#[trigger] order@[p]) < n,
            out@.len() == q,
            forall|p: int| 0 <= p < q ==> (#[trigger] out@[p]) == hs@[order@[p] as int],
    {
        let h = &hs[order[q]];
        out.push(
            Hotspot {
                location: h.location,
                label: h.label.clone(),
                class: h.class,
                edges_caused: h.edges_caused,
                blocked_cost: h.blocked_cost,
            },
        );
    }
    proof {
        let perm = order@.map_values(|x: usize| x as int);
        assert(perm.len() == hs@.len());
        assert forall|p: int, q: int|
            0 <= p < perm.len() && 0 <= q < perm.len() && p != q implies perm[p] != perm[q] by {
            assert(order@[p] != order@[q]);
        }
        assert(perm.no_duplicates());
        assert forall|i: int| 0 <= i < perm.len() implies 0 <= #[trigger] perm[i] < hs@.len()
            && out@[i] == hs@[perm[i]] by {}
        assert forall|i: int, k: int|
            0 <= i < k < out@.len() implies hotspot_precedes(
            #[trigger] out@[i],
            #[trigger] out@[k],
        ) by {
            assert(hotspot_precedes(hs@[order@[i] as int], hs@[order@[k] as int]));
        }
    }
    out
}

/// Build the RAW dependency DAG for `workload` and estimate how well it
/// parallelizes across `threads` Block-STM workers (at least one).
pub fn analyze(workload: &Workload, threads: usize) -> (a: Analysis)
    requires
        analyzable(txn_views(workload.txns@)),
    ensures
        analysis_of(a, txn_views(workload.txns@), workload.locations@, threads),
{
    let threads = if threads == 0 {
        1
    } else {
        threads
    };
    let txns = &workload.txns;
    let locs = &workload.locations;
    let n = txns.len();
    let ghost gtx = txn_views(txns@);
    let ghost m = locs@;
    let ghost t = threads as nat;

    let mut writers: HashMap<LocationId, usize> = HashMap::new();
    let mut tally_index: HashMap<LocationId, usize> = HashMap::new();
    let mut tallies: Vec<DepTally> = Vec::new();
    let mut conflict_edges: usize = 0;
    // Earliest finish of each txn at infinite threads (for the critical path).
    let mut span_finish: Vec<u64> = Vec::new();
    // Finish of each txn under greedy list scheduling.
    let mut sched_finish: Vec<u64> = Vec::new();
    // Free-at times of the workers; the earliest-free worker takes the next txn.
    let mut workers: Vec<u64> = Vec::new();
    for w in 0..threads
        invariant
            workers@.len() == w,
            forall|q: int| 0 <= q < w ==> workers@[q] == 0,
    {
        workers.push(0);
    }
    proof {
        assert(ints(workers@) =~= schedule(gtx, m, t, 0).1);
        assert(ints(span_finish@) =~= span_finishes(gtx, m, 0));
        assert(ints(sched_finish@) =~= schedule(gtx, m, t, 0).0);
    }
    let mut work: u64 = 0;
    let mut span: u64 = 0;
    let mut makespan: u64 = 0;

    for j in 0..n
        invariant
            n == gtx.len(),
            gtx == txn_views(txns@),
            m == locs@,
            t == threads,
            t >= 1,
            analyzable(gtx),
            lw_inv(writers@, gtx, m, j as int),
            tally_inv(tally_index@, tallies@, gtx, m, j as int, no_extra(), 0),
            conflict_edges == edge_count(gtx, m, j as int),
            edge_count(gtx, m, j as int) <= reads_volume(gtx, j as int),
            ints(span_finish@) == span_finishes(gtx, m, j as int),
            ints(sched_finish@) == schedule(gtx, m, t, j as int).0,
            ints(workers@) == schedule(gtx, m, t, j as int).1,
            work == total_work(gtx, j as int),
            span == seq_max(span_finishes(gtx, m, j as int)),
            makespan == seq_max(schedule(gtx, m, t, j as int).0),
    {
        let txn = &txns[j];
        let cost = txn.cost();
        proof {
            lemma_total_work_mono(gtx, j + 1, n as int);
            lemma_reads_volume_mono(gtx, j + 1, n as int);
            lemma_span_finishes(gtx, m, j + 1);
            lemma_schedule(gtx, m, t, j as int);
            lemma_schedule(gtx, m, t, j + 1);
        }
        work = work + cost;

        let deps = scan_reads(
            &writers,
            &span_finish,
            &sched_finish,
            &mut tally_index,
            &mut tallies,
            &mut conflict_edges,
            txn,
            locs,
            j,
            cost,
            Ghost(gtx),
            Ghost(t),
        );
        let (dep_span, dep_sched) = deps;

        proof {
            assert(span_finishes(gtx, m, j + 1)[j as int] == dep_span + cost);
        }
        let span_fin = dep_span + cost;
        span_finish.push(span_fin);
        proof {
            lemma_seq_max_push(span_finishes(gtx, m, j as int), span_fin as int);
            assert(ints(span_finish@) =~= span_finishes(gtx, m, j + 1));
        }
        if span_fin > span {
            span = span_fin;
        }

        let k = first_free_worker(&workers);
        proof {
            lemma_first_min_index(ints(workers@), workers@.len() as int);
        }
        let free = workers[k];
        let start = if dep_sched > free {
            dep_sched
        } else {
            free
        };
        proof {
            assert(schedule(gtx, m, t, j + 1).0[j as int] == start + cost);
        }
        let finish = start + cost;
        sched_finish.push(finish);
        workers.set(k, finish);
        proof {
            lemma_seq_max_push(schedule(gtx, m, t, j as int).0, finish as int);
            assert(ints(sched_finish@) =~= schedule(gtx, m, t, j + 1).0);
            assert(ints(workers@) =~= schedule(gtx, m, t, j + 1).1);
        }
        if finish > makespan {
            makespan = finish;
        }

        record_writes(&mut writers, txn, locs, j, Ghost(gtx));
    }

    let estimated_time = if makespan > 1 {
        makespan
    } else {
        1
    };
    let unranked = tallies_to_hotspots(&tallies, locs);
    let hotspots = rank_hotspots(unranked);
    proof {
        lemma_hotspots_ranked(tallies@, tally_index@, unranked@, hotspots@, gtx, m, n as int);
    }
    Analysis {
        threads,
        txn_count: n,
        total_work: work,
        span,
        estimated_time,
        conflict_edges,
        hotspots,
    }
}

proof fn lemma_hotspots_ranked(
    tallies: Seq<DepTally>,
    index: Map<LocationId, usize>,
    unranked: Seq<Hotspot>,
    hs: Seq<Hotspot>,
    txns: Seq<TxnView>,
    m: Map<LocationId, Location>,
    n: int,
)
    requires
        tally_inv(index, tallies, txns, m, n, no_extra(), 0),
        unranked.len() == tallies.len(),
        forall|k: int|
            0 <= k < unranked.len() ==> {
                &&& (#[trigger] unranked[k]).location == tallies[k].location
                &&& unranked[k].edges_caused == tallies[k].edges
                &&& unranked[k].blocked_cost == tallies[k].blocked
                &&& unranked[k].label@ == label_of(m, tallies[k].location)
                &&& unranked[k].class == class_of(m, tallies[k].location)
            },
        hs.len() == unranked.len(),
        exists|perm: Seq<int>|
            #![trigger perm.len()]
            perm.len() == unranked.len() && perm.no_duplicates() && (forall|i: int|
                0 <= i < perm.len() ==> 0 <= #[trigger] perm[i] < unranked.len() && hs[i]
                    == unranked[perm[i]]),
        forall|i: int, k: int|
            0 <= i < k < hs.len() ==> hotspot_precedes(#[trigger] hs[i], #[trigger] hs[k]),
    ensures
        hotspots_ranked(hs, txns, m, n),
{
    let perm = choose|perm: Seq<int>|
        #![trigger perm.len()]
        perm.len() == unranked.len() && perm.no_duplicates() && (forall|i: int|
            0 <= i < perm.len() ==> 0 <= #[trigger] perm[i] < unranked.len() && hs[i]
                == unranked[perm[i]]);
    assert forall|i: int| 0 <= i < hs.len() implies hotspot_describes(#[trigger] hs[i], txns, m, n) by {
        let k = perm[i];
        assert(tallies[k].edges == loc_edges(txns, m, tallies[k].location, n) + 0);
        assert(index.contains_key(tallies[k].location));
    }
    assert forall|r: LocationId| #[trigger] loc_edges(txns, m, r, n) > 0 implies exists|i: int|
        0 <= i < hs.len() && (#[trigger] hs[i]).location == r by {
        assert(index.contains_key(r));
        let k = index[r] as int;
        // k is hit by the permutation
        lemma_perm_onto(perm, k);
        let i = choose|i: int| 0 <= i < perm.len() && perm[i] == k;
        assert(hs[i].location == r);
    }
    assert forall|i: int, k: int| 0 <= i < k < hs.len() implies (#[trigger] hs[i]).location
        != (#[trigger] hs[k]).location by {
        let pi = perm[i];
        let pk = perm[k];
        assert(pi != pk);
        assert(index[tallies[pi].location] == pi);
        assert(index[tallies[pk].location] == pk);
    }
}

/// A duplicate-free sequence of `n` indices below `n` hits every index.
pub proof fn lemma_perm_onto(perm: Seq<int>, k: int)
    requires
        perm.no_duplicates(),
        forall|i: int| 0 <= i < perm.len() ==> 0 <= #[trigger] perm[i] < perm.len(),
        0 <= k < perm.len(),
    ensures
        exists|i: int| 0 <= i < perm.len() && perm[i] == k,
{
    let s = perm.to_set();
    perm.unique_seq_to_set();
    let full = Set::new(|x: int| 0 <= x < perm.len());
    assert(s.subset_of(full)) by {
        assert forall|x: int| s.contains(x) implies full.contains(x) by {
            let i = choose|i: int| 0 <= i < perm.len() && perm[i] == x;
        }
    }
    vstd::set_lib::lemma_int_range(0, perm.len() as int);
    assert(full =~= vstd::set_lib::set_int_range(0, perm.len() as int));
    vstd::set_lib::lemma_subset_equality(s, full);
    assert(full.contains(k));
}

} // verus!
