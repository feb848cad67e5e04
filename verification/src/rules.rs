//! Turns ranked hotspots into concrete, Aptos-specific refactor advice and
//! quantifies each suggestion by re-running the model with that location
//! neutralized: the "simulate the fix" step that yields a before/after
//! speedup.

use std::collections::BTreeSet;
use vstd::prelude::*;
use vstd::std_specs::iter::IteratorSpec;

use crate::access::{txn_views, TxnAccess, TxnView, Workload};
use crate::location::{KeyClass, LocationId};
use crate::model::{analysis_of, analyzable, analyze, hotspot_describes, Analysis, Hotspot};
use crate::model_laws::same_hotspot;
use crate::location::Location;
use crate::model_spec::{
    cost_at, dep_set, edge_count, effective_threads, is_pred, last_writer, lemma_span_finishes,
    loc_blocked, loc_edges, makespan_of, max_int, pred_max, raw_dep, reads_volume, seq_max, span_finishes, span_of, total_work,
};
use crate::text::{chars_of, contains_chars, contains_run, lemma_run_at, lowercase, to_lowercase};

verus! {

/// A refactor recommendation for one hotspot, with its projected impact: the
/// total work and estimated time of the workload with the fix applied, at
/// `projected_threads` workers. The projected speedup is
/// `projected_work / projected_time`.
#[derive(Debug)]
pub struct Suggestion {
    pub location: LocationId,
    pub target: String,
    pub problem: String,
    pub fix: String,
    pub projected_work: u64,
    pub projected_time: u64,
    pub projected_threads: usize,
}

/// Label fragments that mark a location as a counter-like value.
pub open spec fn counter_needles() -> Seq<Seq<char>> {
    seq![
        "counter"@,
        "count"@,
        "supply"@,
        "total"@,
        "nonce"@,
        "index"@,
        "seq"@,
        "size"@,
    ]
}

/// `lower` contains one of the counter fragments.
pub open spec fn has_counter_fragment(lower: Seq<char>) -> bool {
    exists|k: int|
        0 <= k < counter_needles().len() && contains_run(lower, #[trigger] counter_needles()[k])
}

/// The lowercased label contains one of the counter fragments.
pub open spec fn looks_like_counter(label: Seq<char>) -> bool {
    has_counter_fragment(lowercase(label))
}

/// Whether an already lowercased label contains one of the counter
/// fragments.
pub fn counter_in_lowercase(lower: &str) -> (r: bool)
    ensures
        r == has_counter_fragment(lower@),
{
    let hay = chars_of(lower);
    let needles: [&str; 8] = ["counter", "count", "supply", "total", "nonce", "index", "seq", "size"];
    assert(needles@ == seq!["counter", "count", "supply", "total", "nonce", "index", "seq", "size"]);
    for k in 0..8
        invariant
            hay@ == lower@,
            needles@ == seq!["counter", "count", "supply", "total", "nonce", "index", "seq", "size"],
            forall|q: int| 0 <= q < k ==> !contains_run(lower@, #[trigger] counter_needles()[q]),
    {
        let needle = chars_of(needles[k]);
        if contains_chars(&hay, &needle) {
            assert(needle@ == counter_needles()[k as int]);
            return true;
        }
        assert(needle@ == counter_needles()[k as int]);
    }
    false
}

/// Whether a location label names a counter-like value (a count, supply,
/// total, nonce, index, sequence number or size), in any letter case.
pub fn is_counter(label: &str) -> (r: bool)
    ensures
        r == looks_like_counter(label@),
{
    let lower = to_lowercase(label);
    counter_in_lowercase(lower.as_str())
}

/// The problem statement and the fix advised for a hotspot of class `class`
/// and label `label`.
pub open spec fn advice(class: KeyClass, label: Seq<char>) -> (Seq<char>, Seq<char>) {
    if class is Resource && looks_like_counter(label) {
        (
            label
                + " is a single value updated by nearly every transaction, forcing them to serialize."@,
            "Replace the counter field with aptos_framework::aggregator_v2::Aggregator so its updates commute and Block-STM stops treating them as conflicts. This is how the Aptos framework keeps total coin supply parallel."@,
        )
    } else if class is Resource {
        (
            label + " is a shared resource many transactions mutate together."@,
            "Split independent fields into separate resources, or shard the resource per user address so unrelated writers stop colliding on one object."@,
        )
    } else if class is TableItem && looks_like_counter(label) {
        (
            label + " is a hot table entry acting as a shared counter."@,
            "Move the counter into an Aggregator (see AIP-43 for collection supply) so concurrent updates commute instead of serializing."@,
        )
    } else if class is TableItem {
        (
            label + " is a hot table entry many transactions update."@,
            "Partition the key space so concurrent writers land on distinct entries rather than one shared item."@,
        )
    } else {
        (
            label + " introduces ordering dependencies between transactions."@,
            "Reduce shared writes to this location or defer them through an aggregator."@,
        )
    }
}

/// `label` followed by `tail`.
fn join(label: &str, tail: &str) -> (r: String)
    ensures
        r@ == label@ + tail@,
{
    let mut s = String::from_str(label);
    s.append(tail);
    s
}

/// The problem statement and the concrete refactor advised for a hotspot.
pub fn advise(hotspot: &Hotspot) -> (r: (String, String))
    ensures
        (r.0@, r.1@) == advice(hotspot.class, hotspot.label@),
{
    let label = hotspot.label.as_str();
    match hotspot.class {
        KeyClass::Resource => {
            if is_counter(label) {
                (
                    join(
                        label,
                        " is a single value updated by nearly every transaction, forcing them to serialize.",
                    ),
                    String::from_str(
                        "Replace the counter field with aptos_framework::aggregator_v2::Aggregator so its updates commute and Block-STM stops treating them as conflicts. This is how the Aptos framework keeps total coin supply parallel.",
                    ),
                )
            } else {
                (
                    join(label, " is a shared resource many transactions mutate together."),
                    String::from_str(
                        "Split independent fields into separate resources, or shard the resource per user address so unrelated writers stop colliding on one object.",
                    ),
                )
            }
        },
        KeyClass::TableItem => {
            if is_counter(label) {
                (
                    join(label, " is a hot table entry acting as a shared counter."),
                    String::from_str(
                        "Move the counter into an Aggregator (see AIP-43 for collection supply) so concurrent updates commute instead of serializing.",
                    ),
                )
            } else {
                (
                    join(label, " is a hot table entry many transactions update."),
                    String::from_str(
                        "Partition the key space so concurrent writers land on distinct entries rather than one shared item.",
                    ),
                )
            }
        },
        _ => (
            join(label, " introduces ordering dependencies between transactions."),
            String::from_str(
                "Reduce shared writes to this location or defer them through an aggregator.",
            ),
        ),
    }
}

/// The transactions `txns` with `target` removed from every access set.
pub open spec fn neutralized(txns: Seq<TxnView>, target: LocationId) -> Seq<TxnView> {
    Seq::new(
        txns.len(),
        |j: int|
            TxnView {
                reads: txns[j].reads.remove(target),
                writes: txns[j].writes.remove(target),
                gas_used: txns[j].gas_used,
                success: txns[j].success,
            },
    )
}

/// A copy of `s` without `target`.
fn copy_without(s: &BTreeSet<LocationId>, target: LocationId) -> (r: BTreeSet<LocationId>)
    ensures
        r@ == s@.remove(target),
        s@.finite(),
{
    let mut r: BTreeSet<LocationId> = BTreeSet::new();
    let ghost ks = vstd::std_specs::btree::spec_btree_keys_iter(s).remaining().unref();
    for x in it: s.iter()
        invariant
            it.seq().unref() == ks,
            it.seq().unref().to_set() == s@,
            r@ == ks.take(it.index()).to_set().remove(target),
    {
        let ghost k = it.index();
        proof {
            assert(ks.take(k + 1) =~= ks.take(k).push(*x));
            ks.take(k).lemma_push_to_set_commute(*x);
        }
        if *x != target {
            r.insert(*x);
        }
        proof {
            assert(r@ =~= ks.take(k + 1).to_set().remove(target));
        }
    }
    proof {
        assert(ks.take(ks.len() as int) =~= ks);
    }
    r
}

/// Remove `target` from every access set, modelling a fix that makes the
/// location non-conflicting (for example, turning a counter into an
/// aggregator). The location registry is kept.
pub fn neutralize(workload: &Workload, target: LocationId) -> (w: Workload)
    ensures
        txn_views(w.txns@) == neutralized(txn_views(workload.txns@), target),
        w.locations@ == workload.locations@,
        forall|j: int|
            0 <= j < workload.txns@.len() ==> (#[trigger] workload.txns@[j]).reads@.finite()
                && workload.txns@[j].writes@.finite(),
{
    let mut txns: Vec<TxnAccess> = Vec::new();
    let n = workload.txns.len();
    for j in 0..n
        invariant
            n == workload.txns@.len(),
            txns@.len() == j,
            forall|q: int|
                0 <= q < j ==> {
                    &&& (#[trigger] txns@[q]).reads@ == workload.txns@[q].reads@.remove(target)
                    &&& txns@[q].writes@ == workload.txns@[q].writes@.remove(target)
                    &&& txns@[q].gas_used == workload.txns@[q].gas_used
                    &&& txns@[q].success == workload.txns@[q].success
                    &&& workload.txns@[q].reads@.finite()
                    &&& workload.txns@[q].writes@.finite()
                },
    {
        let t = &workload.txns[j];
        txns.push(
            TxnAccess {
                reads: copy_without(&t.reads, target),
                writes: copy_without(&t.writes, target),
                gas_used: t.gas_used,
                success: t.success,
            },
        );
    }
    let w = Workload { txns, locations: workload.locations.clone() };
    proof {
        assert forall|j: int| 0 <= j < workload.txns@.len() implies (#[trigger] workload.txns@[j]).reads@.finite()
            && workload.txns@[j].writes@.finite() by {
            assert(w.txns@[j].gas_used == workload.txns@[j].gas_used);
        }
        assert(txn_views(w.txns@) =~= neutralized(txn_views(workload.txns@), target));
    }
    w
}

proof fn lemma_neutralized_analyzable(txns: Seq<TxnView>, target: LocationId, n: int)
    requires
        0 <= n <= txns.len(),
        forall|j: int| 0 <= j < txns.len() ==> (#[trigger] txns[j]).reads.finite(),
    ensures
        total_work(neutralized(txns, target), n) == total_work(txns, n),
        reads_volume(neutralized(txns, target), n) <= reads_volume(txns, n),
    decreases n,
{
    if n > 0 {
        lemma_neutralized_analyzable(txns, target, n - 1);
        let s = txns[n - 1].reads;
        vstd::set_lib::lemma_len_subset(s.remove(target), s);
    }
}

/// Speedups compared with the 1% margin that a simulated fix must clear to be
/// worth recommending: whether `after_work / after_time` is at least 1.01
/// times `before_work / before_time`, compared exactly.
pub open spec fn clears_margin(before_work: int, before_time: int, after_work: int, after_time: int) -> bool {
    !(100 * after_work * before_time < 101 * before_work * after_time)
}

/// The result of re-running the model on the workload with `h`'s location
/// neutralized clears the improvement margin.
pub open spec fn fix_pays_off(
    txns: Seq<TxnView>,
    m: Map<LocationId, crate::location::Location>,
    analysis: Analysis,
    h: Hotspot,
) -> bool {
    let after = neutralized(txns, h.location);
    clears_margin(
        analysis.total_work as int,
        analysis.estimated_time as int,
        total_work(after, after.len() as int),
        max_int(makespan_of(after, m, effective_threads(analysis.threads)), 1),
    )
}

/// The candidates among `hs` whose fix pays off, in order.
pub open spec fn paying_candidates(
    hs: Seq<Hotspot>,
    txns: Seq<TxnView>,
    m: Map<LocationId, crate::location::Location>,
    analysis: Analysis,
) -> Seq<Hotspot>
    decreases hs.len(),
{
    if hs.len() == 0 {
        Seq::empty()
    } else {
        let rest = paying_candidates(hs.drop_last(), txns, m, analysis);
        if fix_pays_off(txns, m, analysis, hs.last()) {
            rest.push(hs.last())
        } else {
            rest
        }
    }
}

/// `s` is the suggestion for hotspot `h` of the workload `txns`.
pub open spec fn suggestion_for(
    s: Suggestion,
    h: Hotspot,
    txns: Seq<TxnView>,
    m: Map<LocationId, crate::location::Location>,
    analysis: Analysis,
) -> bool {
    let after = neutralized(txns, h.location);
    &&& s.location == h.location
    &&& s.target@ == h.label@
    &&& (s.problem@, s.fix@) == advice(h.class, h.label@)
    &&& s.projected_work == total_work(after, after.len() as int)
    &&& s.projected_time == max_int(makespan_of(after, m, effective_threads(analysis.threads)), 1)
    &&& s.projected_threads == effective_threads(analysis.threads)
}

/// Whether the exact ratio comparison of [`clears_margin`] holds.
fn clears_margin_exec(before_work: u64, before_time: u64, after_work: u64, after_time: u64) -> (r: bool)
    ensures
        r == clears_margin(before_work as int, before_time as int, after_work as int, after_time as int),
{
    let ghost l: int = after_work as int * before_time as int;
    let ghost q: int = before_work as int * after_time as int;
    assert(0 <= l <= 0xffff_ffff_ffff_ffff * 0xffff_ffff_ffff_ffff) by (nonlinear_arith)
        requires
            l == after_work as int * before_time as int,
            0 <= after_work <= 0xffff_ffff_ffff_ffff,
            0 <= before_time <= 0xffff_ffff_ffff_ffff,
    ;
    assert(0 <= q <= 0xffff_ffff_ffff_ffff * 0xffff_ffff_ffff_ffff) by (nonlinear_arith)
        requires
            q == before_work as int * after_time as int,
            0 <= before_work <= 0xffff_ffff_ffff_ffff,
            0 <= after_time <= 0xffff_ffff_ffff_ffff,
    ;
    let lhs: u128 = (after_work as u128) * (before_time as u128);
    let rhs: u128 = (before_work as u128) * (after_time as u128);
    assert(100 * after_work * before_time == 100 * l) by (nonlinear_arith)
        requires
            l == after_work as int * before_time as int,
    ;
    assert(101 * before_work * after_time == 101 * q) by (nonlinear_arith)
        requires
            q == before_work as int * after_time as int,
    ;
    if lhs < rhs {
        return false;
    }
    let diff = lhs - rhs;
    if diff > rhs / 100 {
        assert(100 * diff > rhs) by (nonlinear_arith)
            requires
                diff > rhs / 100,
        ;
        return true;
    }
    assert(100 * diff <= rhs) by (nonlinear_arith)
        requires
            diff <= rhs / 100,
    ;
    let scaled = 100 * diff;
    !(scaled < rhs)
}

/// Produce suggestions for the worst hotspots, keeping only those whose
/// simulated fix measurably improves throughput: of the first `4 * top_n`
/// hotspots of `analysis`, the first `top_n` whose fix raises the speedup by
/// at least 1%. Each suggestion's projection comes from re-analyzing the
/// workload with the hotspot's location removed from every access set.
pub fn suggest(workload: &Workload, analysis: &Analysis, top_n: usize) -> (out: Vec<Suggestion>)
    requires
        analyzable(txn_views(workload.txns@)),
        top_n * 4 <= usize::MAX,
    ensures
        ({
            let cands = analysis.hotspots@.take(
                if top_n * 4 <= analysis.hotspots@.len() {
                    top_n * 4
                } else {
                    analysis.hotspots@.len() as int
                },
            );
            let kept = paying_candidates(cands, txn_views(workload.txns@), workload.locations@, *analysis);
            &&& out@.len() == if kept.len() <= top_n {
                kept.len() as int
            } else {
                top_n as int
            }
            &&& forall|i: int|
                0 <= i < out@.len() ==> suggestion_for(
                    #[trigger] out@[i],
                    kept[i],
                    txn_views(workload.txns@),
                    workload.locations@,
                    *analysis,
                )
        }),
{
    let ghost txns = txn_views(workload.txns@);
    let ghost m = workload.locations@;
    let limit = top_n * 4;
    let count = if limit <= analysis.hotspots.len() {
        limit
    } else {
        analysis.hotspots.len()
    };
    let ghost cands = analysis.hotspots@.take(count as int);
    let mut out: Vec<Suggestion> = Vec::new();
    let mut i: usize = 0;
    while i < count && out.len() < top_n
        invariant
            txns == txn_views(workload.txns@),
            m == workload.locations@,
            analyzable(txns),
            count <= analysis.hotspots@.len(),
            cands == analysis.hotspots@.take(count as int),
            0 <= i <= count,
            out@.len() <= top_n,
            out@.len() == paying_candidates(cands.take(i as int), txns, m, *analysis).len(),
            forall|q: int|
                0 <= q < out@.len() ==> suggestion_for(
                    #[trigger] out@[q],
                    paying_candidates(cands.take(i as int), txns, m, *analysis)[q],
                    txns,
                    m,
                    *analysis,
                ),
        decreases count - i,
    {
        let h = &analysis.hotspots[i];
        let fixed = neutralize(workload, h.location);
        proof {
            assert forall|j: int| 0 <= j < txns.len() implies (#[trigger] txns[j]).reads.finite() by {
                assert(workload.txns@[j].reads@.finite());
            }
            lemma_neutralized_analyzable(txns, h.location, txns.len() as int);
        }
        let after = analyze(&fixed, analysis.threads);
        let ghost prev = paying_candidates(cands.take(i as int), txns, m, *analysis);
        proof {
            assert(cands.take(i + 1).drop_last() =~= cands.take(i as int));
            assert(cands.take(i + 1).last() == *h);
        }
        if clears_margin_exec(
            analysis.total_work,
            analysis.estimated_time,
            after.total_work,
            after.estimated_time,
        ) {
            let (problem, fix) = advise(h);
            out.push(
                Suggestion {
                    location: h.location,
                    target: h.label.clone(),
                    problem,
                    fix,
                    projected_work: after.total_work,
                    projected_time: after.estimated_time,
                    projected_threads: after.threads,
                },
            );
            proof {
                assert forall|q: int| 0 <= q < out@.len() implies suggestion_for(
                    #[trigger] out@[q],
                    paying_candidates(cands.take(i + 1), txns, m, *analysis)[q],
                    txns,
                    m,
                    *analysis,
                ) by {
                    if q < out@.len() - 1 {
                        assert(paying_candidates(cands.take(i + 1), txns, m, *analysis)[q] == prev[q]);
                    }
                }
            }
        }
        i = i + 1;
    }
    proof {
        lemma_paying_prefix(cands, txns, m, *analysis, i as int, count as int, top_n as int);
    }
    out
}

proof fn lemma_paying_candidates_grow(
    hs: Seq<Hotspot>,
    txns: Seq<TxnView>,
    m: Map<LocationId, crate::location::Location>,
    analysis: Analysis,
    a: int,
    b: int,
)
    requires
        0 <= a <= b <= hs.len(),
    ensures
        paying_candidates(hs.take(a), txns, m, analysis).len() <= paying_candidates(
            hs.take(b),
            txns,
            m,
            analysis,
        ).len(),
        forall|q: int|
            0 <= q < paying_candidates(hs.take(a), txns, m, analysis).len() ==> paying_candidates(
                hs.take(b),
                txns,
                m,
                analysis,
            )[q] == #[trigger] paying_candidates(hs.take(a), txns, m, analysis)[q],
    decreases b - a,
{
    if a < b {
        lemma_paying_candidates_grow(hs, txns, m, analysis, a, b - 1);
        assert(hs.take(b).drop_last() =~= hs.take(b - 1));
    }
}

proof fn lemma_paying_prefix(
    cands: Seq<Hotspot>,
    txns: Seq<TxnView>,
    m: Map<LocationId, crate::location::Location>,
    analysis: Analysis,
    i: int,
    count: int,
    top_n: int,
)
    requires
        0 <= i <= count == cands.len(),
        i == count || paying_candidates(cands.take(i), txns, m, analysis).len() >= top_n,
        paying_candidates(cands.take(i), txns, m, analysis).len() <= top_n,
    ensures
        ({
            let kept = paying_candidates(cands, txns, m, analysis);
            let part = paying_candidates(cands.take(i), txns, m, analysis);
            &&& part.len() == if kept.len() <= top_n {
                kept.len() as int
            } else {
                top_n
            }
            &&& forall|q: int| 0 <= q < part.len() ==> kept[q] == #[trigger] part[q]
        }),
{
    assert(cands.take(count) =~= cands);
    lemma_paying_candidates_grow(cands, txns, m, analysis, i, count);
}

/// Simulating a fix takes the location out of the model: once `target` is
/// removed from every access set, it induces no edge, so it is no longer a
/// hotspot.
pub proof fn law_neutralized_location_never_blocks(
    txns: Seq<TxnView>,
    m: Map<LocationId, Location>,
    target: LocationId,
    n: int,
)
    requires
        0 <= n <= txns.len(),
    ensures
        loc_edges(neutralized(txns, target), m, target, n) == 0,
    decreases n,
{
    if n > 0 {
        law_neutralized_location_never_blocks(txns, m, target, n - 1);
        assert(!neutralized(txns, target)[n - 1].reads.contains(target));
    }
}

proof fn lemma_last_writer_neutralized(txns: Seq<TxnView>, target: LocationId, r: LocationId, j: int)
    requires
        r != target,
        j <= txns.len(),
    ensures
        last_writer(neutralized(txns, target), r, j) == last_writer(txns, r, j),
    decreases j,
{
    if j > 0 {
        lemma_last_writer_neutralized(txns, target, r, j - 1);
    }
}

proof fn lemma_pred_max_fewer_preds(
    txns: Seq<TxnView>,
    target: LocationId,
    m: Map<LocationId, Location>,
    j: int,
    v1: Seq<int>,
    v2: Seq<int>,
    k: int,
)
    requires
        0 <= j < txns.len(),
        k <= j,
        k <= v1.len(),
        k <= v2.len(),
        forall|i: int| 0 <= i < k ==> v1[i] <= v2[i],
        forall|i: int| 0 <= i < k ==> v2[i] >= 0,
    ensures
        pred_max(neutralized(txns, target), m, j, v1, k) <= pred_max(txns, m, j, v2, k),
    decreases k,
{
    if k > 0 {
        lemma_pred_max_fewer_preds(txns, target, m, j, v1, v2, k - 1);
        let after = neutralized(txns, target);
        if is_pred(after, m, j, k - 1) {
            let r = choose|r: LocationId| #[trigger]
                raw_dep(after, m, j, r) && last_writer(after, r, j) == Some(k - 1);
            lemma_last_writer_neutralized(txns, target, r, j);
            assert(raw_dep(txns, m, j, r));
            assert(is_pred(txns, m, j, k - 1));
        }
        crate::model_spec::lemma_pred_max_props(txns, m, j, v2, k - 1);
    }
}

proof fn lemma_span_after_fix(txns: Seq<TxnView>, m: Map<LocationId, Location>, target: LocationId, n: int)
    requires
        0 <= n <= txns.len(),
    ensures
        forall|i: int|
            0 <= i < n ==> #[trigger] span_finishes(neutralized(txns, target), m, n)[i] <= span_finishes(
                txns,
                m,
                n,
            )[i],
    decreases n,
{
    if n > 0 {
        let after = neutralized(txns, target);
        lemma_span_after_fix(txns, m, target, n - 1);
        lemma_span_finishes(after, m, n - 1);
        lemma_span_finishes(txns, m, n - 1);
        lemma_span_finishes(after, m, n);
        lemma_span_finishes(txns, m, n);
        lemma_pred_max_fewer_preds(
            txns,
            target,
            m,
            n - 1,
            span_finishes(after, m, n - 1),
            span_finishes(txns, m, n - 1),
            n - 1,
        );
        assert forall|i: int| 0 <= i < n implies #[trigger] span_finishes(after, m, n)[i]
            <= span_finishes(txns, m, n)[i] by {
            if i < n - 1 {
                assert(span_finishes(after, m, n)[i] == span_finishes(after, m, n - 1)[i]);
                assert(span_finishes(txns, m, n)[i] == span_finishes(txns, m, n - 1)[i]);
            }
        }
    }
}

/// Simulating a fix never lengthens the critical path: removing a location
/// from every access set only removes dependencies. (The greedy schedule
/// enjoys no such guarantee, which is why each fix is re-measured.)
pub proof fn law_fix_never_lengthens_span(
    txns: Seq<TxnView>,
    m: Map<LocationId, Location>,
    target: LocationId,
)
    ensures
        span_of(neutralized(txns, target), m, txns.len() as int) <= span_of(txns, m, txns.len() as int),
        total_work(neutralized(txns, target), txns.len() as int) == total_work(txns, txns.len() as int),
{
    let n = txns.len() as int;
    let after = neutralized(txns, target);
    lemma_span_after_fix(txns, m, target, n);
    lemma_span_finishes(after, m, n);
    lemma_span_finishes(txns, m, n);
    let a = span_finishes(after, m, n);
    let b = span_finishes(txns, m, n);
    crate::model_spec::lemma_seq_max_bounds(a);
    crate::model_spec::lemma_seq_max_bounds(b);
    if a.len() > 0 {
        let i = choose|i: int| 0 <= i < a.len() && a[i] == seq_max(a);
        assert(a[i] <= b[i]);
    }
    lemma_total_work_neutralized(txns, target, n);
}

proof fn lemma_total_work_neutralized(txns: Seq<TxnView>, target: LocationId, n: int)
    requires
        0 <= n <= txns.len(),
    ensures
        total_work(neutralized(txns, target), n) == total_work(txns, n),
    decreases n,
{
    if n > 0 {
        lemma_total_work_neutralized(txns, target, n - 1);
    }
}

/// Every recommended fix clears the improvement margin, and the candidates
/// that do keep their ranking order: the kept hotspots are a subsequence of
/// the candidates, each paying off.
pub proof fn law_suggestions_clear_margin(
    hs: Seq<Hotspot>,
    txns: Seq<TxnView>,
    m: Map<LocationId, Location>,
    analysis: Analysis,
)
    ensures
        paying_candidates(hs, txns, m, analysis).len() <= hs.len(),
        forall|q: int|
            0 <= q < paying_candidates(hs, txns, m, analysis).len() ==> fix_pays_off(
                txns,
                m,
                analysis,
                #[trigger] paying_candidates(hs, txns, m, analysis)[q],
            ) && hs.contains(paying_candidates(hs, txns, m, analysis)[q]),
    decreases hs.len(),
{
    if hs.len() > 0 {
        law_suggestions_clear_margin(hs.drop_last(), txns, m, analysis);
        let rest = paying_candidates(hs.drop_last(), txns, m, analysis);
        assert forall|q: int| 0 <= q < paying_candidates(hs, txns, m, analysis).len() implies fix_pays_off(
            txns,
            m,
            analysis,
            #[trigger] paying_candidates(hs, txns, m, analysis)[q],
        ) && hs.contains(paying_candidates(hs, txns, m, analysis)[q]) by {
            if q < rest.len() {
                assert(paying_candidates(hs, txns, m, analysis)[q] == rest[q]);
                let w = choose|w: int| 0 <= w < hs.drop_last().len() && hs.drop_last()[w] == rest[q];
                assert(hs[w] == rest[q]);
            } else {
                assert(hs[hs.len() - 1] == hs.last());
            }
        }
    }
}

proof fn lemma_raw_dep_neutralized(
    txns: Seq<TxnView>,
    m: Map<LocationId, Location>,
    target: LocationId,
    j: int,
    r: LocationId,
)
    requires
        0 <= j < txns.len(),
    ensures
        r != target ==> raw_dep(neutralized(txns, target), m, j, r) == raw_dep(txns, m, j, r),
        !raw_dep(neutralized(txns, target), m, j, target),
        cost_at(neutralized(txns, target), j) == cost_at(txns, j),
{
    if r != target {
        lemma_last_writer_neutralized(txns, target, r, j);
    }
}

/// Simulating a fix removes exactly the edges of the fixed location: every
/// other location causes the same edges and blocks the same cost as before,
/// and the number of edges drops by the fixed location's own.
pub proof fn law_fix_removes_exactly_its_edges(
    txns: Seq<TxnView>,
    m: Map<LocationId, Location>,
    target: LocationId,
    n: int,
)
    requires
        0 <= n <= txns.len(),
        forall|j: int| 0 <= j < txns.len() ==> (#[trigger] txns[j]).reads.finite(),
    ensures
        forall|r: LocationId|
            r != target ==> #[trigger] loc_edges(neutralized(txns, target), m, r, n) == loc_edges(
                txns,
                m,
                r,
                n,
            ) && loc_blocked(neutralized(txns, target), m, r, n) == loc_blocked(txns, m, r, n),
        loc_edges(neutralized(txns, target), m, target, n) == 0,
        edge_count(neutralized(txns, target), m, n) == edge_count(txns, m, n) - loc_edges(
            txns,
            m,
            target,
            n,
        ),
    decreases n,
{
    law_neutralized_location_never_blocks(txns, m, target, n);
    if n > 0 {
        let after = neutralized(txns, target);
        let j = n - 1;
        law_fix_removes_exactly_its_edges(txns, m, target, n - 1);
        assert forall|r: LocationId| r != target implies #[trigger] loc_edges(after, m, r, n)
            == loc_edges(txns, m, r, n) && loc_blocked(after, m, r, n) == loc_blocked(
            txns,
            m,
            r,
            n,
        ) by {
            lemma_raw_dep_neutralized(txns, m, target, j, r);
            assert(loc_edges(after, m, r, n - 1) == loc_edges(txns, m, r, n - 1));
        }
        assert forall|r: LocationId| #[trigger] dep_set(after, m, j).contains(r) <==> dep_set(
            txns,
            m,
            j,
        ).remove(target).contains(r) by {
            lemma_raw_dep_neutralized(txns, m, target, j, r);
        }
        assert(dep_set(after, m, j) =~= dep_set(txns, m, j).remove(target));
        txns[j].reads.lemma_len_filter(|r: LocationId| raw_dep(txns, m, j, r));
        vstd::set::axiom_set_remove_len(dep_set(txns, m, j), target);
        assert(dep_set(txns, m, j).contains(target) == raw_dep(txns, m, j, target));
    }
}

/// What a simulated fix does to an analysis: the same total work, no longer
/// a critical path, the fixed location's edges gone from the count, and the
/// hotspots of every other location listed unchanged.
pub proof fn law_fix_keeps_other_hotspots(
    a: Analysis,
    b: Analysis,
    txns: Seq<TxnView>,
    m: Map<LocationId, Location>,
    p: usize,
    target: LocationId,
)
    requires
        analysis_of(a, txns, m, p),
        analysis_of(b, neutralized(txns, target), m, p),
        forall|j: int| 0 <= j < txns.len() ==> (#[trigger] txns[j]).reads.finite(),
    ensures
        b.total_work == a.total_work,
        b.span <= a.span,
        b.conflict_edges == a.conflict_edges - loc_edges(txns, m, target, txns.len() as int),
        forall|i: int|
            0 <= i < b.hotspots@.len() ==> (#[trigger] b.hotspots@[i]).location != target && exists|
                k: int,
            |
                0 <= k < a.hotspots@.len() && same_hotspot(#[trigger] a.hotspots@[k], b.hotspots@[i]),
        forall|k: int|
            0 <= k < a.hotspots@.len() && (#[trigger] a.hotspots@[k]).location != target ==> exists|
                i: int,
            |
                0 <= i < b.hotspots@.len() && same_hotspot(a.hotspots@[k], #[trigger] b.hotspots@[i]),
{
    let n = txns.len() as int;
    let after = neutralized(txns, target);
    law_fix_never_lengthens_span(txns, m, target);
    law_fix_removes_exactly_its_edges(txns, m, target, n);
    assert forall|i: int| 0 <= i < b.hotspots@.len() implies (#[trigger] b.hotspots@[i]).location
        != target && exists|k: int|
        0 <= k < a.hotspots@.len() && same_hotspot(#[trigger] a.hotspots@[k], b.hotspots@[i]) by {
        let h = b.hotspots@[i];
        assert(hotspot_describes(h, after, m, n));
        assert(loc_edges(after, m, h.location, n) == loc_edges(txns, m, h.location, n));
        let k = choose|k: int| 0 <= k < a.hotspots@.len() && (#[trigger] a.hotspots@[k]).location
            == h.location;
        assert(hotspot_describes(a.hotspots@[k], txns, m, n));
        assert(same_hotspot(a.hotspots@[k], h));
    }
    assert forall|k: int| 0 <= k < a.hotspots@.len() && (#[trigger] a.hotspots@[k]).location
        != target implies exists|i: int|
        0 <= i < b.hotspots@.len() && same_hotspot(a.hotspots@[k], #[trigger] b.hotspots@[i]) by {
        let h = a.hotspots@[k];
        assert(hotspot_describes(h, txns, m, n));
        assert(loc_edges(after, m, h.location, n) == loc_edges(txns, m, h.location, n));
        let i = choose|i: int| 0 <= i < b.hotspots@.len() && (#[trigger] b.hotspots@[i]).location
            == h.location;
        assert(hotspot_describes(b.hotspots@[i], after, m, n));
        assert(same_hotspot(h, b.hotspots@[i]));
    }
}


/// A lowercased label has a counter fragment exactly when it contains one of
/// `counter`, `count`, `supply`, `total`, `nonce`, `index`, `seq` or `size`.
pub proof fn law_counter_fragments(lower: Seq<char>)
    ensures
        has_counter_fragment(lower) <==> (contains_run(lower, "counter"@) || contains_run(
            lower,
            "count"@,
        ) || contains_run(lower, "supply"@) || contains_run(lower, "total"@) || contains_run(
            lower,
            "nonce"@,
        ) || contains_run(lower, "index"@) || contains_run(lower, "seq"@) || contains_run(
            lower,
            "size"@,
        )),
{
    let n = counter_needles();
    assert(n.len() == 8);
    assert(n[0] == "counter"@);
    assert(n[1] == "count"@);
    assert(n[2] == "supply"@);
    assert(n[3] == "total"@);
    assert(n[4] == "nonce"@);
    assert(n[5] == "index"@);
    assert(n[6] == "seq"@);
    assert(n[7] == "size"@);
}

/// Counter advice goes to labels that, in lowercase, contain one of
/// `counter`, `count`, `supply`, `total`, `nonce`, `index`, `seq` or `size`,
/// and only to those.
pub proof fn law_counter_labels(label: Seq<char>)
    ensures
        looks_like_counter(label) <==> ({
            let lower = lowercase(label);
            contains_run(lower, "counter"@) || contains_run(lower, "count"@) || contains_run(
                lower,
                "supply"@,
            ) || contains_run(lower, "total"@) || contains_run(lower, "nonce"@) || contains_run(
                lower,
                "index"@,
            ) || contains_run(lower, "seq"@) || contains_run(lower, "size"@)
        }),
{
    law_counter_fragments(lowercase(label));
}


/// Advice fits its hotspot: the problem statement begins with the hotspot's
/// label; a resource or table entry whose label looks like a counter is
/// advised an aggregator; another resource is advised to be split or sharded;
/// another table entry, to partition the key space.
pub proof fn law_advice_fits_the_hotspot(class: KeyClass, label: Seq<char>)
    ensures
        advice(class, label).0.len() >= label.len(),
        advice(class, label).0.take(label.len() as int) == label,
        (class is Resource || class is TableItem) && looks_like_counter(label) ==> contains_run(
            advice(class, label).1,
            "Aggregator"@,
        ),
        class is Resource && !looks_like_counter(label) ==> contains_run(
            advice(class, label).1,
            "shard"@,
        ),
        class is TableItem && !looks_like_counter(label) ==> contains_run(
            advice(class, label).1,
            "Partition the key space"@,
        ),
{
    reveal_strlit("Aggregator");
    reveal_strlit("shard");
    reveal_strlit("Partition the key space");
    reveal_strlit("Replace the counter field with aptos_framework::aggregator_v2::Aggregator so its updates commute and Block-STM stops treating them as conflicts. This is how the Aptos framework keeps total coin supply parallel.");
    reveal_strlit("Split independent fields into separate resources, or shard the resource per user address so unrelated writers stop colliding on one object.");
    reveal_strlit("Move the counter into an Aggregator (see AIP-43 for collection supply) so concurrent updates commute instead of serializing.");
    reveal_strlit("Partition the key space so concurrent writers land on distinct entries rather than one shared item.");
    let (problem, fix) = advice(class, label);
    assert(problem.take(label.len() as int) =~= label);
    if (class is Resource || class is TableItem) && looks_like_counter(label) {
        if class is Resource {
            assert(fix.subrange(63, 73) =~= "Aggregator"@);
            lemma_run_at(fix, "Aggregator"@, 63);
        } else {
            assert(fix.subrange(25, 35) =~= "Aggregator"@);
            lemma_run_at(fix, "Aggregator"@, 25);
        }
    }
    if class is Resource && !looks_like_counter(label) {
        assert(fix.subrange(53, 58) =~= "shard"@);
        lemma_run_at(fix, "shard"@, 53);
    }
    if class is TableItem && !looks_like_counter(label) {
        assert(fix.subrange(0, 23) =~= "Partition the key space"@);
        lemma_run_at(fix, "Partition the key space"@, 0);
    }
}

} // verus!
