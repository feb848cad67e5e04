use std::collections::BTreeSet;

use movespan::{KeyClass, Location, LocationTable, TxnAccess, Workload};

#[test]
fn conflicting_classes() {
    assert!(KeyClass::Resource.is_conflicting());
    assert!(KeyClass::TableItem.is_conflicting());
    assert!(KeyClass::Unknown.is_conflicting());
    assert!(!KeyClass::Aggregator.is_conflicting());
    assert!(!KeyClass::Code.is_conflicting());
    assert!(!KeyClass::Framework.is_conflicting());
}

#[test]
fn cost_is_floored_at_one() {
    let t = TxnAccess {
        reads: BTreeSet::new(),
        writes: BTreeSet::new(),
        gas_used: 0,
        success: false,
    };
    assert_eq!(t.cost(), 1);
    let t = TxnAccess {
        reads: BTreeSet::new(),
        writes: BTreeSet::new(),
        gas_used: 4242,
        success: true,
    };
    assert_eq!(t.cost(), 4242);
}

#[test]
fn table_reads_back_what_was_inserted() {
    let mut table = LocationTable::new();
    assert!(table.is_empty());
    assert_eq!(table.len(), 0);
    table.insert(Location {
        id: 4,
        label: "0xa::m::Pool".into(),
        class: KeyClass::Resource,
    });
    assert_eq!(table.len(), 1);
    assert!(!table.is_empty());
    assert_eq!(table.label(4), "0xa::m::Pool");
    assert_eq!(table.class(4), KeyClass::Resource);
    assert_eq!(table.get(4).map(|l| l.id), Some(4));
    assert!(table.is_conflicting(4));
    table.insert(Location {
        id: 4,
        label: "0xa::m::Agg".into(),
        class: KeyClass::Aggregator,
    });
    assert_eq!(table.len(), 1);
    assert_eq!(table.label(4), "0xa::m::Agg");
    assert!(!table.is_conflicting(4));
}

#[test]
fn unknown_locations() {
    let table = LocationTable::new();
    assert_eq!(table.label(9), "<unknown>");
    assert_eq!(table.class(9), KeyClass::Unknown);
    assert!(table.is_conflicting(9));
    assert!(table.get(9).is_none());
}

#[test]
fn default_workload_is_empty() {
    let w = Workload::default();
    assert!(w.txns.is_empty());
    assert!(w.locations.is_empty());
}
