use std::collections::BTreeSet;

use movespan::report::escape;
use movespan::{
    analyze, counter_in_lowercase, function_path_parts, is_counter, neutralize,
    network_from_lowercase, parse_network, to_html, Analysis, KeyClass, Location, LocationId,
    LocationInterner, LocationTable, Network, ReportFigures, StateKeyView, TxnAccess, Workload,
};

fn access(reads: &[u32], writes: &[u32], gas: u64) -> TxnAccess {
    TxnAccess {
        reads: reads.iter().copied().collect::<BTreeSet<LocationId>>(),
        writes: writes.iter().copied().collect::<BTreeSet<LocationId>>(),
        gas_used: gas,
        success: true,
    }
}

fn table(entries: &[(u32, &str, KeyClass)]) -> LocationTable {
    let mut t = LocationTable::new();
    for (id, label, class) in entries {
        t.insert(Location {
            id: *id,
            label: label.to_string(),
            class: *class,
        });
    }
    t
}

#[test]
fn equal_hotspots_are_ordered_by_location() {
    // two locations with the same label and the same contention
    let locations = table(&[(7, "0xa::m::S", KeyClass::Resource), (3, "0xa::m::S", KeyClass::Resource)]);
    let txns = vec![access(&[], &[3, 7], 10), access(&[3, 7], &[], 10)];
    let w = Workload { txns, locations };
    let a = analyze(&w, 4);
    let ids: Vec<u32> = a.hotspots.iter().map(|h| h.location).collect();
    assert_eq!(ids, vec![3, 7]);
    let b = analyze(&w, 1);
    let ids_b: Vec<u32> = b.hotspots.iter().map(|h| h.location).collect();
    assert_eq!(ids, ids_b);
    assert_eq!(a.conflict_edges, b.conflict_edges);
    assert_eq!(a.span, b.span);
    assert_eq!(a.total_work, b.total_work);
}

#[test]
fn a_fix_removes_only_its_own_edges() {
    let locations = table(&[(0, "0xa::m::A", KeyClass::Resource), (1, "0xa::m::B", KeyClass::Resource)]);
    let txns = vec![
        access(&[0, 1], &[0, 1], 5),
        access(&[0, 1], &[0], 7),
        access(&[0], &[0, 1], 3),
        access(&[1], &[], 2),
    ];
    let w = Workload { txns, locations };
    let before: Analysis = analyze(&w, 2);
    let edges_of_0 = before.hotspots.iter().find(|h| h.location == 0).unwrap().edges_caused;
    let after = analyze(&neutralize(&w, 0), 2);
    assert_eq!(after.conflict_edges, before.conflict_edges - edges_of_0);
    assert_eq!(after.total_work, before.total_work);
    assert!(after.span <= before.span);
    assert!(after.hotspots.iter().all(|h| h.location != 0));
    let b1 = before.hotspots.iter().find(|h| h.location == 1).unwrap();
    let a1 = after.hotspots.iter().find(|h| h.location == 1).unwrap();
    assert_eq!((a1.edges_caused, a1.blocked_cost), (b1.edges_caused, b1.blocked_cost));
}

fn unescape(s: &str) -> String {
    s.replace("&lt;", "<")
        .replace("&gt;", ">")
        .replace("&quot;", "\"")
        .replace("&#39;", "'")
        .replace("&amp;", "&")
}

#[test]
fn escaping_round_trips() {
    for input in ["plain text", "a<b>&\"c'", "&amp;", "<<>>", ""] {
        let e = escape(input);
        assert_eq!(unescape(&e), input);
        assert_eq!(e == input, !input.chars().any(|c| "<>&\"'".contains(c)));
    }
    assert_eq!(escape("&lt;"), "&amp;lt;");
}

#[test]
fn figures_are_escaped_in_html() {
    let analysis = Analysis {
        threads: 1,
        txn_count: 0,
        total_work: 0,
        span: 0,
        estimated_time: 1,
        conflict_edges: 0,
        hotspots: Vec::new(),
    };
    let figures = ReportFigures {
        parallelizability_pct: "<b>".into(),
        speedup: "1.00".into(),
        suggestions: Vec::new(),
    };
    let html = to_html(&analysis, &[], &figures);
    assert!(html.contains("Parallelizability <b>&lt;b&gt;%</b>"));
}

#[test]
fn table_keeps_the_last_insert_per_id() {
    let t = table(&[
        (1, "one", KeyClass::Resource),
        (2, "two", KeyClass::Code),
        (1, "uno", KeyClass::TableItem),
    ]);
    assert_eq!(t.len(), 2);
    assert_eq!(t.label(1), "uno");
    assert_eq!(t.class(1), KeyClass::TableItem);
    assert_eq!(t.label(2), "two");
    assert!(t.get(3).is_none());
}

#[test]
fn interner_hands_out_consecutive_ids() {
    let mut interner = LocationInterner::new();
    let a = interner.register(&StateKeyView::Raw);
    let b = interner.register(&StateKeyView::TableItem { handle: "0x5".into() });
    assert_eq!((a, b), (0, 1));
    assert_eq!(interner.table().len(), 2);
    assert_eq!(interner.table().label(1), "table[0x5]");
}

#[test]
fn function_paths_split_into_three_parts() {
    assert_eq!(
        function_path_parts("0xA11CE::amm::swap"),
        Some(("0xA11CE".to_string(), "amm".to_string(), "swap".to_string()))
    );
    assert_eq!(function_path_parts("0x1::m"), None);
    assert_eq!(function_path_parts("0x1::m::f::g"), None);
    assert_eq!(
        function_path_parts("::m::"),
        Some((String::new(), "m".to_string(), String::new()))
    );
    // separators are found left to right: ":::" is "::" then ":"
    assert_eq!(
        function_path_parts("a:::b::c"),
        Some(("a".to_string(), ":b".to_string(), "c".to_string()))
    );
}

#[test]
fn decisions_on_lowercased_text() {
    assert!(counter_in_lowercase("0x1::coin::supply"));
    assert!(!counter_in_lowercase("0x1::coin::Supply"));
    assert!(is_counter("0x1::coin::Supply"));
    assert!(matches!(network_from_lowercase("MainNet", "mainnet"), Network::Mainnet));
    match network_from_lowercase("Mainnet2", "mainnet2") {
        Network::Custom(url) => assert_eq!(url, "Mainnet2"),
        _ => panic!("expected a custom network"),
    }
    assert!(matches!(parse_network("DevNet"), Network::Devnet));
}
