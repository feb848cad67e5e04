use std::collections::BTreeSet;

use movespan::{
    advise, analyze, is_counter, neutralize, suggest, Analysis, Hotspot, KeyClass, Location,
    LocationTable, Suggestion, TxnAccess, Workload,
};

fn estimated_speedup(a: &Analysis) -> f64 {
    a.total_work as f64 / a.estimated_time as f64
}

fn projected_speedup(s: &Suggestion) -> f64 {
    s.projected_work as f64 / s.projected_time as f64
}

/// 8 users, each touching their own balance plus one shared supply counter.
/// The counter is the sole contention source; sharding away the balances leaves
/// it as the single hotspot.
fn shared_counter_workload() -> Workload {
    let mut locations = LocationTable::new();
    locations.insert(Location {
        id: 0,
        label: "0x1::coin::Supply".into(),
        class: KeyClass::Resource,
    });
    for i in 1..=8 {
        locations.insert(Location {
            id: i,
            label: format!("0x1::coin::Balance{i}"),
            class: KeyClass::Resource,
        });
    }
    let txns = (1..=8u32)
        .map(|i| TxnAccess {
            reads: BTreeSet::from([0, i]),
            writes: BTreeSet::from([0, i]),
            gas_used: 100,
            success: true,
        })
        .collect();
    Workload { txns, locations }
}

#[test]
fn recommends_aggregator_for_counter() {
    let workload = shared_counter_workload();
    let analysis = analyze(&workload, 8);
    let suggestions = suggest(&workload, &analysis, 5);

    assert!(!suggestions.is_empty());
    let top = &suggestions[0];
    assert_eq!(top.target, "0x1::coin::Supply");
    assert!(top.fix.contains("aggregator_v2"));
    let speedup_gain = projected_speedup(top) - estimated_speedup(&analysis);
    assert!(speedup_gain > 0.0, "gain {}", speedup_gain);
    assert!(projected_speedup(top) > estimated_speedup(&analysis));
}

#[test]
fn fixing_the_counter_fully_parallelizes() {
    let workload = shared_counter_workload();
    let analysis = analyze(&workload, 8);
    assert_eq!(analysis.estimated_time, 800);
    let suggestions = suggest(&workload, &analysis, 5);
    assert_eq!(suggestions.len(), 1);
    assert_eq!(suggestions[0].location, 0);
    assert_eq!(suggestions[0].projected_work, 800);
    assert_eq!(suggestions[0].projected_time, 100);
    assert_eq!(suggestions[0].projected_threads, 8);
    assert_eq!(
        suggestions[0].problem,
        "0x1::coin::Supply is a single value updated by nearly every transaction, forcing them to serialize."
    );
}

#[test]
fn no_suggestion_without_gain() {
    // Two independent writers of distinct keys: nothing to fix.
    let mut locations = LocationTable::new();
    locations.insert(Location {
        id: 0,
        label: "0xa::m::Pool".into(),
        class: KeyClass::Resource,
    });
    let txns = vec![
        TxnAccess {
            reads: BTreeSet::new(),
            writes: BTreeSet::from([0]),
            gas_used: 10,
            success: true,
        },
        TxnAccess {
            reads: BTreeSet::from([0]),
            writes: BTreeSet::new(),
            gas_used: 10,
            success: true,
        },
    ];
    let workload = Workload { txns, locations };
    // One worker: the dependency costs nothing extra, so the fix gains nothing.
    let analysis = analyze(&workload, 1);
    assert_eq!(analysis.hotspots.len(), 1);
    let suggestions = suggest(&workload, &analysis, 5);
    assert!(suggestions.is_empty());
    // Two workers: the fix halves the time.
    let analysis = analyze(&workload, 2);
    let suggestions = suggest(&workload, &analysis, 5);
    assert_eq!(suggestions.len(), 1);
    assert_eq!(suggestions[0].projected_time, 10);
    assert_eq!(suggestions[0].fix, "Split independent fields into separate resources, or shard the resource per user address so unrelated writers stop colliding on one object.");
}

#[test]
fn top_n_zero_suggests_nothing() {
    let workload = shared_counter_workload();
    let analysis = analyze(&workload, 8);
    assert!(suggest(&workload, &analysis, 0).is_empty());
}

#[test]
fn counter_detection_is_case_insensitive() {
    assert!(is_counter("0x1::coin::Supply"));
    assert!(is_counter("0xA::pool::TOTAL_Shares"));
    assert!(is_counter("0x2::m::SeqNo"));
    assert!(!is_counter("0x1::coin::Balance"));
    assert!(!is_counter(""));
}

fn hotspot(label: &str, class: KeyClass) -> Hotspot {
    Hotspot {
        location: 3,
        label: label.to_string(),
        class,
        edges_caused: 1,
        blocked_cost: 1,
    }
}

#[test]
fn advice_by_class() {
    let (p, f) = advise(&hotspot("0xa::amm::Pool", KeyClass::Resource));
    assert_eq!(p, "0xa::amm::Pool is a shared resource many transactions mutate together.");
    assert!(f.starts_with("Split independent fields"));

    let (p, f) = advise(&hotspot("table[0x5]", KeyClass::TableItem));
    assert_eq!(p, "table[0x5] is a hot table entry many transactions update.");
    assert_eq!(f, "Partition the key space so concurrent writers land on distinct entries rather than one shared item.");

    let (p, f) = advise(&hotspot("table[0x5]::index", KeyClass::TableItem));
    assert_eq!(p, "table[0x5]::index is a hot table entry acting as a shared counter.");
    assert_eq!(f, "Move the counter into an Aggregator (see AIP-43 for collection supply) so concurrent updates commute instead of serializing.");

    let (p, f) = advise(&hotspot("raw", KeyClass::Unknown));
    assert_eq!(p, "raw introduces ordering dependencies between transactions.");
    assert_eq!(f, "Reduce shared writes to this location or defer them through an aggregator.");

    let (p, f) = advise(&hotspot("0xa::m::Counter", KeyClass::Resource));
    assert!(p.ends_with("is a single value updated by nearly every transaction, forcing them to serialize."));
    assert_eq!(f, "Replace the counter field with aptos_framework::aggregator_v2::Aggregator so its updates commute and Block-STM stops treating them as conflicts. This is how the Aptos framework keeps total coin supply parallel.");
}

#[test]
fn neutralize_removes_the_location_everywhere() {
    let workload = shared_counter_workload();
    let fixed = neutralize(&workload, 0);
    assert_eq!(fixed.txns.len(), 8);
    for (i, txn) in fixed.txns.iter().enumerate() {
        let id = i as u32 + 1;
        assert_eq!(txn.reads, BTreeSet::from([id]));
        assert_eq!(txn.writes, BTreeSet::from([id]));
        assert_eq!(txn.gas_used, 100);
    }
    assert_eq!(fixed.locations.len(), 9);
    let after = analyze(&fixed, 8);
    assert!(after.hotspots.is_empty());
    assert_eq!(after.total_work, 800);
}
