use std::collections::BTreeSet;

use movespan::{analyze, Analysis, KeyClass, Location, LocationId, LocationTable, TxnAccess, Workload};

fn location(id: u32, class: KeyClass) -> Location {
    Location {
        id,
        label: format!("0xtest::m::L{id}"),
        class,
    }
}

fn access(reads: &[u32], writes: &[u32], gas: u64) -> TxnAccess {
    TxnAccess {
        reads: reads.iter().copied().collect::<BTreeSet<LocationId>>(),
        writes: writes.iter().copied().collect::<BTreeSet<LocationId>>(),
        gas_used: gas,
        success: true,
    }
}

fn estimated_speedup(a: &Analysis) -> f64 {
    a.total_work as f64 / a.estimated_time as f64
}

fn parallelizability(a: &Analysis) -> f64 {
    (estimated_speedup(a) / a.threads as f64).clamp(0.0, 1.0)
}

#[test]
fn shared_key_fully_serializes() {
    let mut locations = LocationTable::new();
    locations.insert(location(0, KeyClass::Resource));
    let txns = (0..8).map(|_| access(&[0], &[0], 100)).collect();
    let analysis = analyze(&Workload { txns, locations }, 8);

    assert_eq!(analysis.conflict_edges, 7);
    assert!(
        estimated_speedup(&analysis) < 1.2,
        "{}",
        estimated_speedup(&analysis)
    );
    assert!(parallelizability(&analysis) < 0.2);
    assert_eq!(analysis.hotspots.len(), 1);
    assert_eq!(analysis.hotspots[0].location, 0);
    assert_eq!(analysis.hotspots[0].edges_caused, 7);
}

#[test]
fn disjoint_keys_fully_parallelize() {
    let mut locations = LocationTable::new();
    for i in 0..8 {
        locations.insert(location(i, KeyClass::Resource));
    }
    let txns = (0..8).map(|i| access(&[i], &[i], 100)).collect();
    let analysis = analyze(&Workload { txns, locations }, 8);

    assert_eq!(analysis.conflict_edges, 0);
    assert!(
        estimated_speedup(&analysis) > 6.0,
        "{}",
        estimated_speedup(&analysis)
    );
    assert!(parallelizability(&analysis) > 0.75);
    assert!(analysis.hotspots.is_empty());
}

#[test]
fn aggregator_writes_never_conflict() {
    let mut locations = LocationTable::new();
    locations.insert(location(0, KeyClass::Aggregator));
    let txns = (0..8).map(|_| access(&[0], &[0], 100)).collect();
    let analysis = analyze(&Workload { txns, locations }, 8);

    assert_eq!(analysis.conflict_edges, 0);
    assert!(parallelizability(&analysis) > 0.75);
    assert!(analysis.hotspots.is_empty());
}

#[test]
fn empty_workload_is_well_defined() {
    let analysis = analyze(&Workload::default(), 8);
    assert_eq!(analysis.txn_count, 0);
    assert_eq!(analysis.total_work, 0);
    assert_eq!(analysis.conflict_edges, 0);
    assert!(analysis.hotspots.is_empty());
}

#[test]
fn counter_oracle_is_exactly_serial() {
    // 100 increments of one global counter: 99 edges, a fully serial
    // schedule, and exactly 1/8 parallelizability on 8 threads.
    let mut locations = LocationTable::new();
    locations.insert(location(0, KeyClass::Resource));
    locations.insert(location(1, KeyClass::Framework));
    let txns = (0..100).map(|_| access(&[0, 1], &[0, 1], 50)).collect();
    let analysis = analyze(&Workload { txns, locations }, 8);
    assert_eq!(analysis.conflict_edges, 99);
    assert_eq!(analysis.total_work, 5000);
    assert_eq!(analysis.span, 5000);
    assert_eq!(analysis.estimated_time, 5000);
    assert_eq!(parallelizability(&analysis), 0.125);
    assert_eq!(analysis.hotspots.len(), 1);
    assert_eq!(analysis.hotspots[0].location, 0);
    assert_eq!(analysis.hotspots[0].edges_caused, 99);
    assert_eq!(analysis.hotspots[0].blocked_cost, 99 * 50);
}

#[test]
fn zero_threads_model_one_worker() {
    let txns = vec![access(&[], &[], 10), access(&[], &[], 20)];
    let analysis = analyze(
        &Workload {
            txns,
            locations: LocationTable::new(),
        },
        0,
    );
    assert_eq!(analysis.threads, 1);
    assert_eq!(analysis.estimated_time, 30);
    assert_eq!(analysis.span, 20);
}

#[test]
fn zero_gas_costs_one() {
    let txns = vec![access(&[], &[], 0), access(&[], &[], 0), access(&[], &[], 0)];
    let analysis = analyze(
        &Workload {
            txns,
            locations: LocationTable::new(),
        },
        2,
    );
    assert_eq!(analysis.total_work, 3);
    assert_eq!(analysis.span, 1);
    assert_eq!(analysis.estimated_time, 2);
}

#[test]
fn empty_workload_time_is_floored_at_one() {
    let analysis = analyze(&Workload::default(), 4);
    assert_eq!(analysis.span, 0);
    assert_eq!(analysis.estimated_time, 1);
    assert_eq!(analysis.threads, 4);
}

#[test]
fn write_after_write_and_write_after_read_are_ignored() {
    let mut locations = LocationTable::new();
    locations.insert(location(0, KeyClass::Resource));
    // txn 0 reads 0, txn 1 writes 0 (write-after-read), txn 2 writes 0
    // (write-after-write): no read follows a write.
    let txns = vec![access(&[0], &[], 10), access(&[], &[0], 10), access(&[], &[0], 10)];
    let analysis = analyze(&Workload { txns, locations }, 4);
    assert_eq!(analysis.conflict_edges, 0);
    assert_eq!(analysis.span, 10);
    assert_eq!(analysis.estimated_time, 10);
}

#[test]
fn critical_path_and_list_schedule() {
    // txn 0 writes A; txn 1 reads A (waits for 0); txn 2 is independent.
    let mut locations = LocationTable::new();
    locations.insert(location(0, KeyClass::Resource));
    locations.insert(location(1, KeyClass::TableItem));
    let txns = vec![
        access(&[], &[0], 30),
        access(&[0], &[1], 20),
        access(&[], &[], 40),
        access(&[1], &[], 5),
    ];
    let analysis = analyze(&Workload { txns, locations }, 2);
    assert_eq!(analysis.total_work, 95);
    // 0 -> 1 -> 3: 30 + 20 + 5
    assert_eq!(analysis.span, 55);
    // worker 0: txn0 [0,30]; worker 1 (free at 0): txn1 waits for txn0 -> [30,50];
    // worker 0 (free at 30): txn2 [30,70]; worker 1 (free at 50): txn3 [50,55]
    assert_eq!(analysis.estimated_time, 70);
    assert_eq!(analysis.conflict_edges, 2);
    assert_eq!(analysis.hotspots.len(), 2);
    // equal edge counts: the larger blocked cost ranks first
    assert_eq!(analysis.hotspots[0].location, 0);
    assert_eq!(analysis.hotspots[0].blocked_cost, 20);
    assert_eq!(analysis.hotspots[1].location, 1);
    assert_eq!(analysis.hotspots[1].blocked_cost, 5);
    assert_eq!(analysis.hotspots[1].class, KeyClass::TableItem);
    assert_eq!(analysis.hotspots[1].label, "0xtest::m::L1");
}

#[test]
fn hotspot_ties_rank_by_label() {
    let mut locations = LocationTable::new();
    locations.insert(Location {
        id: 0,
        label: "b".into(),
        class: KeyClass::Resource,
    });
    locations.insert(Location {
        id: 1,
        label: "a".into(),
        class: KeyClass::Resource,
    });
    let txns = vec![access(&[], &[0, 1], 10), access(&[0, 1], &[], 10)];
    let analysis = analyze(&Workload { txns, locations }, 1);
    assert_eq!(analysis.hotspots.len(), 2);
    assert_eq!(analysis.hotspots[0].label, "a");
    assert_eq!(analysis.hotspots[1].label, "b");
    // a transaction with two dependency locations on the same writer counts two edges
    assert_eq!(analysis.conflict_edges, 2);
}

#[test]
fn unregistered_locations_conflict_and_show_unknown() {
    let txns = vec![access(&[], &[7], 10), access(&[7], &[], 10)];
    let analysis = analyze(
        &Workload {
            txns,
            locations: LocationTable::new(),
        },
        4,
    );
    assert_eq!(analysis.conflict_edges, 1);
    assert_eq!(analysis.hotspots[0].label, "<unknown>");
    assert_eq!(analysis.hotspots[0].class, KeyClass::Unknown);
}

#[test]
fn framework_and_code_never_conflict() {
    let mut locations = LocationTable::new();
    locations.insert(location(0, KeyClass::Framework));
    locations.insert(location(1, KeyClass::Code));
    let txns = (0..4).map(|_| access(&[0, 1], &[0, 1], 10)).collect();
    let analysis = analyze(&Workload { txns, locations }, 4);
    assert_eq!(analysis.conflict_edges, 0);
    assert!(analysis.hotspots.is_empty());
    assert_eq!(analysis.estimated_time, 10);
}
