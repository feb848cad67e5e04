use std::collections::BTreeSet;

use movespan::{footprint, footprint_rows, KeyClass, Location, LocationTable, TxnAccess, Workload};

fn txn(reads: &[u32], writes: &[u32]) -> TxnAccess {
    TxnAccess {
        reads: reads.iter().copied().collect::<BTreeSet<u32>>(),
        writes: writes.iter().copied().collect::<BTreeSet<u32>>(),
        gas_used: 1,
        success: true,
    }
}

fn workload() -> Workload {
    let mut locations = LocationTable::new();
    locations.insert(Location {
        id: 2,
        label: "0xa::m::Pool".into(),
        class: KeyClass::Resource,
    });
    locations.insert(Location {
        id: 5,
        label: "0x1::coin::CoinStore".into(),
        class: KeyClass::Framework,
    });
    Workload {
        txns: vec![txn(&[2, 5, 9], &[5]), txn(&[2], &[2, 5]), txn(&[9], &[5])],
        locations,
    }
}

#[test]
fn rows_are_ranked_by_writes_then_id() {
    let rows = footprint_rows(&workload());
    let got: Vec<(u32, usize, usize)> = rows.iter().map(|r| (r.location, r.reads, r.writes)).collect();
    assert_eq!(got, vec![(5, 1, 3), (2, 2, 1), (9, 2, 0)]);
}

#[test]
fn footprint_report() {
    let text = footprint(&workload());
    let expected = [
        "STORAGE FOOTPRINT (3 txns, 3 locations)\n",
        "       1 reads       3 writes  0x1::coin::CoinStore\n",
        "       2 reads       1 writes  0xa::m::Pool\n",
        "       2 reads       0 writes  <unknown>\n",
    ]
    .concat();
    assert_eq!(text, expected);
}

#[test]
fn empty_footprint() {
    assert_eq!(footprint(&Workload::default()), "STORAGE FOOTPRINT (0 txns, 0 locations)\n");
}
