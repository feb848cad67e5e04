//! The raw storage footprint of a workload: how many transactions read and
//! wrote each location, without the conflict model.

use std::collections::{BTreeSet, HashMap};
use vstd::prelude::*;
use vstd::std_specs::iter::IteratorSpec;

use crate::access::{txn_views, TxnView, Workload};
use crate::fmt::{decimal, pad_left, push_decimal, push_decimal_padded};
use crate::location::{label_of, Location, LocationId};
use crate::text::{contains_run, lemma_contains_middle};

verus! {

/// Number of the first `n` transactions that read `id`.
pub open spec fn read_count(txns: Seq<TxnView>, id: LocationId, n: int) -> int
    decreases n,
{
    if n <= 0 {
        0
    } else {
        read_count(txns, id, n - 1) + if txns[n - 1].reads.contains(id) {
            1int
        } else {
            0int
        }
    }
}

/// Number of the first `n` transactions that wrote `id`.
pub open spec fn write_count(txns: Seq<TxnView>, id: LocationId, n: int) -> int
    decreases n,
{
    if n <= 0 {
        0
    } else {
        write_count(txns, id, n - 1) + if txns[n - 1].writes.contains(id) {
            1int
        } else {
            0int
        }
    }
}

/// How often one location was read and written.
#[derive(Debug, Clone, Copy)]
pub struct FootprintRow {
    pub location: LocationId,
    pub reads: usize,
    pub writes: usize,
}

/// `a` is listed before `b`: more writes first, then the smaller id.
pub open spec fn row_precedes(a: FootprintRow, b: FootprintRow) -> bool {
    a.writes > b.writes || (a.writes == b.writes && a.location < b.location)
}

/// `rows` lists every location that `txns` touch, once each, with its read
/// and write counts, most-written first.
pub open spec fn footprint_of(rows: Seq<FootprintRow>, txns: Seq<TxnView>) -> bool {
    let n = txns.len() as int;
    &&& forall|i: int|
        0 <= i < rows.len() ==> {
            &&& (#[trigger] rows[i]).reads == read_count(txns, rows[i].location, n)
            &&& rows[i].writes == write_count(txns, rows[i].location, n)
            &&& rows[i].reads + rows[i].writes > 0
        }
    &&& forall|id: LocationId|
        read_count(txns, id, n) + write_count(txns, id, n) > 0 ==> exists|i: int|
            0 <= i < rows.len() && (#[trigger] rows[i]).location == id
    &&& forall|i: int, k: int|
        0 <= i < k < rows.len() ==> row_precedes(#[trigger] rows[i], #[trigger] rows[k])
}

spec fn rows_inv(
    index: Map<LocationId, usize>,
    rows: Seq<FootprintRow>,
    fr: spec_fn(LocationId) -> int,
    fw: spec_fn(LocationId) -> int,
) -> bool {
    &&& forall|r: LocationId| #[trigger] index.contains_key(r) <==> fr(r) + fw(r) > 0
    &&& forall|r: LocationId| #[trigger]
        index.contains_key(r) ==> index[r] < rows.len() && rows[index[r] as int].location == r
    &&& forall|k: int|
        0 <= k < rows.len() ==> index.contains_key((#[trigger] rows[k]).location) && index[rows[k].location]
            == k
    &&& forall|k: int|
        0 <= k < rows.len() ==> (#[trigger] rows[k]).reads == fr(rows[k].location) && rows[k].writes
            == fw(rows[k].location)
}

spec fn plus_member(f: spec_fn(LocationId) -> int, s: Set<LocationId>) -> spec_fn(LocationId) -> int {
    |r: LocationId| f(r) + if s.contains(r) {
        1int
    } else {
        0int
    }
}

/// Count each member of `s` once more, on the read side or the write side.
#[verifier::loop_isolation(false)]
fn tally_set(
    s: &BTreeSet<LocationId>,
    rows: &mut Vec<FootprintRow>,
    index: &mut HashMap<LocationId, usize>,
    reads_side: bool,
    bound: usize,
    Ghost(fr): Ghost<spec_fn(LocationId) -> int>,
    Ghost(fw): Ghost<spec_fn(LocationId) -> int>,
)
    requires
        rows_inv(old(index)@, old(rows)@, fr, fw),
        forall|r: LocationId|
            0 <= #[trigger] fr(r) && 0 <= #[trigger] fw(r) && (reads_side ==> fr(r) < bound) && (
            !reads_side ==> fw(r) < bound),
    ensures
        reads_side ==> rows_inv(final(index)@, final(rows)@, plus_member(fr, s@), fw),
        !reads_side ==> rows_inv(final(index)@, final(rows)@, fr, plus_member(fw, s@)),
{
    let ghost ks = vstd::std_specs::btree::spec_btree_keys_iter(s).remaining().unref();
    let ghost mut done: Set<LocationId> = Set::empty();
    for x in it: s.iter()
        invariant
            it.seq().unref() == ks,
            it.seq().unref().to_set() == s@,
            it.seq().unref().no_duplicates(),
            done == ks.take(it.index()).to_set(),
            reads_side ==> rows_inv(index@, rows@, plus_member(fr, done), fw),
            !reads_side ==> rows_inv(index@, rows@, fr, plus_member(fw, done)),
    {
        let id: LocationId = *x;
        let ghost k = it.index();
        let ghost old_done = done;
        proof {
            assert(ks.take(k + 1) =~= ks.take(k).push(id));
            ks.take(k).lemma_push_to_set_commute(id);
            assert(!old_done.contains(id)) by {
                if old_done.contains(id) {
                    let q = choose|q: int| 0 <= q < k && ks.take(k)[q] == id;
                    assert(ks[q] == ks[k]);
                }
            }
            done = done.insert(id);
        }
        match index.get(&id) {
            Some(p) => {
                let p: usize = *p;
                let row = rows[p];
                let updated = if reads_side {
                    FootprintRow { location: id, reads: row.reads + 1, writes: row.writes }
                } else {
                    FootprintRow { location: id, reads: row.reads, writes: row.writes + 1 }
                };
                rows.set(p, updated);
            },
            None => {
                let p = rows.len();
                let row = if reads_side {
                    FootprintRow { location: id, reads: 1, writes: 0 }
                } else {
                    FootprintRow { location: id, reads: 0, writes: 1 }
                };
                rows.push(row);
                index.insert(id, p);
            },
        }
        proof {
            if reads_side {
                assert(rows_inv(index@, rows@, plus_member(fr, done), fw));
            } else {
                assert(rows_inv(index@, rows@, fr, plus_member(fw, done)));
            }
        }
    }
    proof {
        assert(ks.take(ks.len() as int) =~= ks);
        assert(done =~= s@);
    }
}

/// Read and write counts of every location the workload touches, most-written
/// first and then by id.
pub fn footprint_rows(workload: &Workload) -> (rows: Vec<FootprintRow>)
    ensures
        footprint_of(rows@, txn_views(workload.txns@)),
{
    let ghost txns = txn_views(workload.txns@);
    let n = workload.txns.len();
    let mut rows: Vec<FootprintRow> = Vec::new();
    let mut index: HashMap<LocationId, usize> = HashMap::new();
    for j in 0..n
        invariant
            n == txns.len(),
            txns == txn_views(workload.txns@),
            rows_inv(
                index@,
                rows@,
                |r: LocationId| read_count(txns, r, j as int),
                |r: LocationId| write_count(txns, r, j as int),
            ),
    {
        let t = &workload.txns[j];
        proof {
            lemma_counts_bounded(txns, j as int);
        }
        tally_set(
            &t.reads,
            &mut rows,
            &mut index,
            true,
            n,
            Ghost(|r: LocationId| read_count(txns, r, j as int)),
            Ghost(|r: LocationId| write_count(txns, r, j as int)),
        );
        proof {
            assert(plus_member(|r: LocationId| read_count(txns, r, j as int), t.reads@) =~= (|r: LocationId|
                read_count(txns, r, j + 1)));
            lemma_counts_bounded(txns, j + 1);
        }
        tally_set(
            &t.writes,
            &mut rows,
            &mut index,
            false,
            n,
            Ghost(|r: LocationId| read_count(txns, r, j + 1)),
            Ghost(|r: LocationId| write_count(txns, r, j as int)),
        );
        proof {
            assert(plus_member(|r: LocationId| write_count(txns, r, j as int), t.writes@) =~= (|r: LocationId|
                write_count(txns, r, j + 1)));
        }
    }
    proof {
        assert forall|a: int, b: int|
            0 <= a < b < rows@.len() implies (#[trigger] rows@[a]).location != (#[trigger] rows@[b]).location by {
            assert(index@[rows@[a].location] == a);
            assert(index@[rows@[b].location] == b);
        }
    }
    let ranked = rank_rows(&rows);
    proof {
        lemma_ranked_footprint(index@, rows@, ranked@, txns);
    }
    ranked
}

proof fn lemma_counts_bounded(txns: Seq<TxnView>, j: int)
    requires
        0 <= j <= txns.len(),
    ensures
        forall|r: LocationId| 0 <= #[trigger] read_count(txns, r, j) <= j,
        forall|r: LocationId| 0 <= #[trigger] write_count(txns, r, j) <= j,
    decreases j,
{
    if j > 0 {
        lemma_counts_bounded(txns, j - 1);
        assert forall|r: LocationId| 0 <= #[trigger] read_count(txns, r, j) <= j by {
            assert(0 <= read_count(txns, r, j - 1) <= j - 1);
        }
        assert forall|r: LocationId| 0 <= #[trigger] write_count(txns, r, j) <= j by {
            assert(0 <= write_count(txns, r, j - 1) <= j - 1);
        }
    }
}

/// Whether `a` is listed before `b`.
fn row_precedes_exec(a: FootprintRow, b: FootprintRow) -> (r: bool)
    ensures
        r == row_precedes(a, b),
{
    a.writes > b.writes || (a.writes == b.writes && a.location < b.location)
}

/// `rows`, whose locations are distinct, ordered by `row_precedes`.
fn rank_rows(rows: &Vec<FootprintRow>) -> (out: Vec<FootprintRow>)
    requires
        forall|a: int, b: int|
            0 <= a < b < rows@.len() ==> (#[trigger] rows@[a]).location != (#[trigger] rows@[b]).location,
    ensures
        out@.len() == rows@.len(),
        exists|perm: Seq<int>|
            #![trigger perm.len()]
            perm.len() == rows@.len() && perm.no_duplicates() && (forall|i: int|
                0 <= i < perm.len() ==> 0 <= #[trigger] perm[i] < rows@.len() && out@[i]
                    == rows@[perm[i]]),
        forall|i: int, k: int|
            0 <= i < k < out@.len() ==> row_precedes(#[trigger] out@[i], #[trigger] out@[k]),
{
    let n = rows.len();
    let mut order: Vec<usize> = Vec::new();
    for k in 0..n
        invariant
            n == rows@.len(),
            forall|a: int, b: int|
                0 <= a < b < rows@.len() ==> (#[trigger] rows@[a]).location != (#[trigger] rows@[b]).location,
            order@.len() == k,
            order@.no_duplicates(),
            forall|q: int| 0 <= q < order@.len() ==> (#[trigger] order@[q]) < k,
            forall|p: int, q: int|
                0 <= p < q < order@.len() ==> row_precedes(
                    rows@[#[trigger] order@[p] as int],
                    rows@[#[trigger] order@[q] as int],
                ),
    {
        let mut pos: usize = 0;
        while pos < order.len() && row_precedes_exec(rows[order[pos]], rows[k])
            invariant
                n == rows@.len(),
                k < n,
                forall|q: int| 0 <= q < order@.len() ==> (#[trigger] order@[q]) < k,
                0 <= pos <= order@.len(),
                forall|q: int|
                    0 <= q < pos ==> row_precedes(rows@[#[trigger] order@[q] as int], rows@[k as int]),
            decreases order@.len() - pos,
        {
            pos = pos + 1;
        }
        proof {
            if pos < order@.len() {
                let o = order@[pos as int] as int;
                assert(rows@[o].location != rows@[k as int].location);
                assert forall|q: int| pos <= q < order@.len() implies row_precedes(
                    rows@[k as int],
                    rows@[order@[q] as int],
                ) by {
                    let oq = order@[q] as int;
                    assert(rows@[oq].location != rows@[k as int].location);
                }
            }
        }
        let ghost old_order = order@;
        order.insert(pos, k);
        proof {
            old_order.insert_ensures(pos as int, k);
            assert forall|p: int, q: int|
                0 <= p < q < order@.len() implies row_precedes(
                rows@[#[trigger] order@[p] as int],
                rows@[#[trigger] order@[q] as int],
            ) by {
                if p < pos && q < pos {
                    assert(order@[p] == old_order[p] && order@[q] == old_order[q]);
                } else if p < pos && q == pos {
                    assert(order@[p] == old_order[p]);
                } else if p < pos {
                    assert(order@[p] == old_order[p] && order@[q] == old_order[q - 1]);
                } else if p == pos {
                    assert(order@[q] == old_order[q - 1]);
                } else {
                    assert(order@[p] == old_order[p - 1] && order@[q] == old_order[q - 1]);
                }
            }
            assert forall|p: int, q: int|
                0 <= p < order@.len() && 0 <= q < order@.len() && p != q implies order@[p]
                != order@[q] by {
                let op = if p < pos {
                    p
                } else if p == pos {
                    -1
                } else {
                    p - 1
                };
                let oq = if q < pos {
                    q
                } else if q == pos {
                    -1
                } else {
                    q - 1
                };
                if op >= 0 && oq >= 0 {
                    assert(old_order[op] != old_order[oq]);
                }
            }
        }
    }
    let mut out: Vec<FootprintRow> = Vec::new();
    for q in 0..n
        invariant
            n == rows@.len(),
            order@.len() == n,
            forall|p: int| 0 <= p < n ==> (#[trigger] order@[p]) < n,
            out@.len() == q,
            forall|p: int| 0 <= p < q ==> (#[trigger] out@[p]) == rows@[order@[p] as int],
    {
        out.push(rows[order[q]]);
    }
    proof {
        let perm = order@.map_values(|x: usize| x as int);
        assert forall|p: int, q: int|
            0 <= p < perm.len() && 0 <= q < perm.len() && p != q implies perm[p] != perm[q] by {
            assert(order@[p] != order@[q]);
        }
        assert(perm.no_duplicates());
        assert forall|i: int| 0 <= i < perm.len() implies 0 <= #[trigger] perm[i] < rows@.len()
            && out@[i] == rows@[perm[i]] by {}
        assert forall|i: int, k: int|
            0 <= i < k < out@.len() implies row_precedes(#[trigger] out@[i], #[trigger] out@[k]) by {
            assert(row_precedes(rows@[order@[i] as int], rows@[order@[k] as int]));
        }
    }
    out
}

proof fn lemma_ranked_footprint(
    index: Map<LocationId, usize>,
    rows: Seq<FootprintRow>,
    ranked: Seq<FootprintRow>,
    txns: Seq<TxnView>,
)
    requires
        rows_inv(
            index,
            rows,
            |r: LocationId| read_count(txns, r, txns.len() as int),
            |r: LocationId| write_count(txns, r, txns.len() as int),
        ),
        ranked.len() == rows.len(),
        exists|perm: Seq<int>|
            #![trigger perm.len()]
            perm.len() == rows.len() && perm.no_duplicates() && (forall|i: int|
                0 <= i < perm.len() ==> 0 <= #[trigger] perm[i] < rows.len() && ranked[i]
                    == rows[perm[i]]),
        forall|i: int, k: int|
            0 <= i < k < ranked.len() ==> row_precedes(#[trigger] ranked[i], #[trigger] ranked[k]),
    ensures
        footprint_of(ranked, txns),
{
    let n = txns.len() as int;
    let perm = choose|perm: Seq<int>|
        #![trigger perm.len()]
        perm.len() == rows.len() && perm.no_duplicates() && (forall|i: int|
            0 <= i < perm.len() ==> 0 <= #[trigger] perm[i] < rows.len() && ranked[i]
                == rows[perm[i]]);
    assert forall|i: int| 0 <= i < ranked.len() implies {
        &&& (#[trigger] ranked[i]).reads == read_count(txns, ranked[i].location, n)
        &&& ranked[i].writes == write_count(txns, ranked[i].location, n)
        &&& ranked[i].reads + ranked[i].writes > 0
    } by {
        let p = perm[i];
        assert(index.contains_key(rows[p].location));
    }
    assert forall|id: LocationId|
        read_count(txns, id, n) + write_count(txns, id, n) > 0 implies exists|i: int|
            0 <= i < ranked.len() && (#[trigger] ranked[i]).location == id by {
        assert(index.contains_key(id));
        let p = index[id] as int;
        crate::model::lemma_perm_onto(perm, p);
        let i = choose|i: int| 0 <= i < perm.len() && perm[i] == p;
        assert(ranked[i].location == id);
    }
}

/// The text footprint report: a header, then one line per location.
pub open spec fn footprint_text(
    txn_count: nat,
    rows: Seq<FootprintRow>,
    m: Map<LocationId, Location>,
) -> Seq<char> {
    "STORAGE FOOTPRINT ("@ + decimal(txn_count) + " txns, "@ + decimal(rows.len()) + " locations)\n"@
        + footprint_lines(rows, m)
}

/// One line per row.
pub open spec fn footprint_lines(rows: Seq<FootprintRow>, m: Map<LocationId, Location>) -> Seq<char>
    decreases rows.len(),
{
    if rows.len() == 0 {
        Seq::empty()
    } else {
        footprint_lines(rows.drop_last(), m) + footprint_line(rows.last(), m)
    }
}

/// `  <reads> reads  <writes> writes  <label>` with both counts in columns of 6.
pub open spec fn footprint_line(row: FootprintRow, m: Map<LocationId, Location>) -> Seq<char> {
    "  "@ + pad_left(decimal(row.reads as nat), 6) + " reads  "@ + pad_left(
        decimal(row.writes as nat),
        6,
    ) + " writes  "@ + label_of(m, row.location) + "\n"@
}

fn push_footprint_line(out: &mut String, row: FootprintRow, table: &crate::location::LocationTable)
    ensures
        final(out)@ == old(out)@ + footprint_line(row, table@),
{
    out.append("  ");
    push_decimal_padded(out, row.reads as u64, 6);
    out.append(" reads  ");
    push_decimal_padded(out, row.writes as u64, 6);
    out.append(" writes  ");
    out.append(table.label(row.location));
    out.append("\n");
    proof {
        assert(out@ =~= old(out)@ + footprint_line(row, table@));
    }
}

/// Report the raw storage footprint of a workload.
pub fn footprint(workload: &Workload) -> (out: String)
    ensures
        exists|rows: Seq<FootprintRow>|
            footprint_of(rows, txn_views(workload.txns@)) && out@ == footprint_text(
                workload.txns@.len(),
                rows,
                workload.locations@,
            ),
{
    let rows = footprint_rows(workload);
    let mut out = String::from_str("STORAGE FOOTPRINT (");
    push_decimal(&mut out, workload.txns.len() as u64);
    out.append(" txns, ");
    push_decimal(&mut out, rows.len() as u64);
    out.append(" locations)\n");
    let ghost head = out@;
    for k in 0..rows.len()
        invariant
            out@ == head + footprint_lines(rows@.take(k as int), workload.locations@),
    {
        let ghost before = out@;
        push_footprint_line(&mut out, rows[k], &workload.locations);
        proof {
            assert(rows@.take(k + 1).drop_last() =~= rows@.take(k as int));
            assert(out@ =~= head + footprint_lines(rows@.take(k + 1), workload.locations@));
        }
    }
    proof {
        assert(rows@.take(rows@.len() as int) =~= rows@);
    }
    out
}


/// Transaction `t` reads or writes `id`.
pub open spec fn touches(t: TxnView, id: LocationId) -> bool {
    t.reads.contains(id) || t.writes.contains(id)
}

/// The transactions among the first `n` that read `id`.
spec fn readers(txns: Seq<TxnView>, id: LocationId, n: int) -> Set<int> {
    Set::new(|j: int| 0 <= j < n && txns[j].reads.contains(id))
}

/// The transactions among the first `n` that wrote `id`.
spec fn writers(txns: Seq<TxnView>, id: LocationId, n: int) -> Set<int> {
    Set::new(|j: int| 0 <= j < n && txns[j].writes.contains(id))
}

proof fn lemma_counts_are_sizes(txns: Seq<TxnView>, id: LocationId, n: int)
    requires
        0 <= n,
    ensures
        readers(txns, id, n).finite(),
        writers(txns, id, n).finite(),
        read_count(txns, id, n) == readers(txns, id, n).len(),
        write_count(txns, id, n) == writers(txns, id, n).len(),
    decreases n,
{
    vstd::set_lib::lemma_int_range(0, n);
    assert(readers(txns, id, n).subset_of(vstd::set_lib::set_int_range(0, n)));
    assert(writers(txns, id, n).subset_of(vstd::set_lib::set_int_range(0, n)));
    vstd::set_lib::lemma_len_subset(readers(txns, id, n), vstd::set_lib::set_int_range(0, n));
    vstd::set_lib::lemma_len_subset(writers(txns, id, n), vstd::set_lib::set_int_range(0, n));
    if n == 0 {
        assert(readers(txns, id, n) =~= Set::<int>::empty());
        assert(writers(txns, id, n) =~= Set::<int>::empty());
    } else {
        lemma_counts_are_sizes(txns, id, n - 1);
        if txns[n - 1].reads.contains(id) {
            assert(readers(txns, id, n) =~= readers(txns, id, n - 1).insert(n - 1));
        } else {
            assert(readers(txns, id, n) =~= readers(txns, id, n - 1));
        }
        if txns[n - 1].writes.contains(id) {
            assert(writers(txns, id, n) =~= writers(txns, id, n - 1).insert(n - 1));
        } else {
            assert(writers(txns, id, n) =~= writers(txns, id, n - 1));
        }
    }
}

/// The footprint lists exactly the locations some transaction read or wrote,
/// once each, most written first and, among equally written ones, by
/// increasing id; each row counts exactly the transactions that read the
/// location and those that wrote it.
pub proof fn law_footprint_counts(rows: Seq<FootprintRow>, txns: Seq<TxnView>, id: LocationId)
    requires
        footprint_of(rows, txns),
    ensures
        forall|i: int, k: int|
            0 <= i < k < rows.len() ==> (#[trigger] rows[i]).writes >= (#[trigger] rows[k]).writes
                && (rows[i].writes == rows[k].writes ==> rows[i].location < rows[k].location),
        forall|i: int|
            0 <= i < rows.len() ==> (#[trigger] rows[i]).reads == Set::new(
                |j: int| 0 <= j < txns.len() && txns[j].reads.contains(rows[i].location),
            ).len() && rows[i].writes == Set::new(
                |j: int| 0 <= j < txns.len() && txns[j].writes.contains(rows[i].location),
            ).len(),
        (exists|j: int| 0 <= j < txns.len() && #[trigger] touches(txns[j], id)) <==> exists|i: int|
            0 <= i < rows.len() && (#[trigger] rows[i]).location == id,
{
    let n = txns.len() as int;
    assert forall|i: int, k: int| 0 <= i < k < rows.len() implies (#[trigger] rows[i]).writes
        >= (#[trigger] rows[k]).writes && (rows[i].writes == rows[k].writes ==> rows[i].location
        < rows[k].location) by {
        assert(row_precedes(rows[i], rows[k]));
    }
    assert forall|i: int| 0 <= i < rows.len() implies (#[trigger] rows[i]).reads == Set::new(
        |j: int| 0 <= j < txns.len() && txns[j].reads.contains(rows[i].location),
    ).len() && rows[i].writes == Set::new(
        |j: int| 0 <= j < txns.len() && txns[j].writes.contains(rows[i].location),
    ).len() by {
        lemma_counts_are_sizes(txns, rows[i].location, n);
        assert(readers(txns, rows[i].location, n) =~= Set::new(
            |j: int| 0 <= j < txns.len() && txns[j].reads.contains(rows[i].location),
        ));
        assert(writers(txns, rows[i].location, n) =~= Set::new(
            |j: int| 0 <= j < txns.len() && txns[j].writes.contains(rows[i].location),
        ));
    }
    {
        lemma_counts_are_sizes(txns, id, n);
        if exists|j: int| 0 <= j < txns.len() && #[trigger] touches(txns[j], id) {
            let j = choose|j: int| 0 <= j < txns.len() && #[trigger] touches(txns[j], id);
            if txns[j].reads.contains(id) {
                assert(readers(txns, id, n).contains(j));
                vstd::set::axiom_set_remove_len(readers(txns, id, n), j);
            } else {
                assert(writers(txns, id, n).contains(j));
                vstd::set::axiom_set_remove_len(writers(txns, id, n), j);
            }
            assert(read_count(txns, id, n) + write_count(txns, id, n) > 0);
        }
        if exists|i: int| 0 <= i < rows.len() && (#[trigger] rows[i]).location == id {
            let i = choose|i: int| 0 <= i < rows.len() && (#[trigger] rows[i]).location == id;
            assert(rows[i].reads + rows[i].writes > 0);
            if readers(txns, id, n).len() > 0 {
                vstd::set::axiom_set_choose_len(readers(txns, id, n));
                let j = readers(txns, id, n).choose();
                assert(readers(txns, id, n).contains(j));
                assert(touches(txns[j], id));
            } else {
                vstd::set::axiom_set_choose_len(writers(txns, id, n));
                let j = writers(txns, id, n).choose();
                assert(writers(txns, id, n).contains(j));
                assert(touches(txns[j], id));
            }
        }
    }
}


proof fn lemma_footprint_line_in(rows: Seq<FootprintRow>, m: Map<LocationId, Location>, i: int) -> (pq: (
    Seq<char>,
    Seq<char>,
))
    requires
        0 <= i < rows.len(),
    ensures
        footprint_lines(rows, m) == pq.0 + footprint_line(rows[i], m) + pq.1,
    decreases rows.len(),
{
    let last = footprint_line(rows.last(), m);
    if i == rows.len() - 1 {
        let pq = (footprint_lines(rows.drop_last(), m), Seq::<char>::empty());
        assert(footprint_lines(rows, m) =~= pq.0 + last + pq.1);
        pq
    } else {
        let (p, q) = lemma_footprint_line_in(rows.drop_last(), m, i);
        assert(rows.drop_last()[i] == rows[i]);
        let b = footprint_line(rows[i], m);
        assert(footprint_lines(rows, m) =~= p + b + (q + last));
        (p, q + last)
    }
}

/// The footprint report opens with the number of transactions and of listed
/// locations, and shows every row as a line with its read count, then its
/// write count (each right-aligned in six columns), then the location's label.
pub proof fn law_footprint_report_lines(
    txn_count: nat,
    rows: Seq<FootprintRow>,
    m: Map<LocationId, Location>,
    i: int,
)
    ensures
        ({
            let head = "STORAGE FOOTPRINT ("@ + decimal(txn_count) + " txns, "@ + decimal(rows.len())
                + " locations)\n"@;
            footprint_text(txn_count, rows, m).take(head.len() as int) == head
        }),
        0 <= i < rows.len() ==> contains_run(
            footprint_text(txn_count, rows, m),
            "  "@ + pad_left(decimal(rows[i].reads as nat), 6) + " reads  "@ + pad_left(
                decimal(rows[i].writes as nat),
                6,
            ) + " writes  "@ + label_of(m, rows[i].location) + "\n"@,
        ),
{
    let head = "STORAGE FOOTPRINT ("@ + decimal(txn_count) + " txns, "@ + decimal(rows.len())
        + " locations)\n"@;
    assert(footprint_text(txn_count, rows, m).take(head.len() as int) =~= head);
    if 0 <= i < rows.len() {
        let (p, q) = lemma_footprint_line_in(rows, m, i);
        let b = footprint_line(rows[i], m);
        assert(footprint_text(txn_count, rows, m) =~= (head + p) + b + q);
        lemma_contains_middle(head + p, b, q);
    }
}

} // verus!
