use std::collections::BTreeSet;

use movespan::{
    analyze, escape, suggest, to_html, to_text, Analysis, KeyClass, Location, LocationTable,
    ReportFigures, Suggestion, SuggestionFigures, TxnAccess, Workload,
};

fn workload() -> Workload {
    let mut locations = LocationTable::new();
    locations.insert(Location {
        id: 0,
        label: "0x1::coin::Supply".into(),
        class: KeyClass::Resource,
    });
    let txns = (0..8).map(|_| TxnAccess {
        reads: BTreeSet::from([0]),
        writes: BTreeSet::from([0]),
        gas_used: 100,
        success: true,
    });
    Workload {
        txns: txns.collect(),
        locations,
    }
}

/// The ratios of a report rendered as the command-line front end renders them.
fn figures(analysis: &Analysis, suggestions: &[Suggestion]) -> ReportFigures {
    let speedup = analysis.total_work as f64 / analysis.estimated_time as f64;
    let parallelizability = (speedup / analysis.threads as f64).clamp(0.0, 1.0);
    ReportFigures {
        parallelizability_pct: format!("{:.1}", parallelizability * 100.0),
        speedup: format!("{:.2}", speedup),
        suggestions: suggestions
            .iter()
            .map(|s| {
                let projected = s.projected_work as f64 / s.projected_time as f64;
                let par = (projected / s.projected_threads as f64).clamp(0.0, 1.0);
                SuggestionFigures {
                    projected_speedup: format!("{:.2}", projected),
                    speedup_gain: format!("{:.2}", projected - speedup),
                    parallel_pct: format!("{:.0}", par * 100.0),
                }
            })
            .collect(),
    }
}

#[test]
fn renders_all_formats() {
    let workload = workload();
    let analysis = analyze(&workload, 8);
    let suggestions = suggest(&workload, &analysis, 5);
    let figures = figures(&analysis, &suggestions);

    let text = to_text(&analysis, &suggestions, &figures);
    assert!(text.contains("MOVESPAN CONTENTION REPORT"));
    assert!(text.contains("0x1::coin::Supply"));

    assert_eq!(analysis.txn_count, 8);

    let html = to_html(&analysis, &suggestions, &figures);
    assert!(html.starts_with("<!doctype html>"));
    assert!(html.contains("Movespan Contention Report"));
}

#[test]
fn text_report_layout() {
    let workload = workload();
    let analysis = analyze(&workload, 8);
    let suggestions = suggest(&workload, &analysis, 5);
    let figures = figures(&analysis, &suggestions);
    let text = to_text(&analysis, &suggestions, &figures);
    let expected_head = [
        "MOVESPAN CONTENTION REPORT\n",
        "==========================\n",
        "\n",
        "Transactions       : 8\n",
        "Threads modeled    : 8\n",
        "Parallelizability  : 12.5%\n",
        "Estimated speedup  : 1.00x of 8x ideal\n",
        "Work / span        : 800 / 800\n",
        "Conflict edges     : 7\n",
        "\n",
        "TOP CONTENTION HOTSPOTS\n",
        "-----------------------\n",
        " 1. 0x1::coin::Supply  (7 deps, blocked cost 700)\n",
        "\n",
        "RECOMMENDATIONS\n",
        "---------------\n",
        "\n",
        "[1] 0x1::coin::Supply\n",
        "    problem: 0x1::coin::Supply is a single value updated by nearly every transaction, forcing them to serialize.\n",
    ]
    .concat();
    let expected_head = expected_head.as_str();
    assert!(text.starts_with(expected_head), "{text}");
    assert!(text.contains("    impact : 1.00x -> 8.00x  (+7.00x, 100% parallel)\n\n"));
    assert!(text.ends_with("cannot refactor them.\n"));
}

#[test]
fn contention_free_report() {
    let analysis = analyze(&Workload::default(), 4);
    let figures = figures(&analysis, &[]);
    let text = to_text(&analysis, &[], &figures);
    assert!(text.contains("None — the workload is already contention-free.\n"));
    assert!(!text.contains("RECOMMENDATIONS"));
    let html = to_html(&analysis, &[], &figures);
    assert!(html.contains("<tr><td colspan=\"3\">None — the workload is already contention-free.</td></tr>"));
    assert!(html.contains("Parallelizability <b>0.0%</b> &middot; estimated speedup <b>0.00x</b> of 4x ideal &middot; 0 transactions &middot; 0 conflict edges</p>"));
    assert!(html.ends_with("</p></body></html>"));
}

#[test]
fn html_escapes_labels() {
    let mut locations = LocationTable::new();
    locations.insert(Location {
        id: 0,
        label: "<pool>&'x'".into(),
        class: KeyClass::Resource,
    });
    let txns = (0..2)
        .map(|_| TxnAccess {
            reads: BTreeSet::from([0]),
            writes: BTreeSet::from([0]),
            gas_used: 10,
            success: true,
        })
        .collect();
    let workload = Workload { txns, locations };
    let analysis = analyze(&workload, 2);
    let figures = figures(&analysis, &[]);
    let html = to_html(&analysis, &[], &figures);
    assert!(html.contains("<tr><td>&lt;pool&gt;&amp;&#39;x&#39;</td><td>1</td><td>10</td></tr>"));
}

#[test]
fn escape_replaces_special_characters() {
    assert_eq!(escape("a<b>c&d\"e'f"), "a&lt;b&gt;c&amp;d&quot;e&#39;f");
    assert_eq!(escape("plain text — ok"), "plain text — ok");
    assert_eq!(escape(""), "");
}

#[test]
fn only_ten_hotspots_are_listed() {
    let mut locations = LocationTable::new();
    for i in 0..12u32 {
        locations.insert(Location {
            id: i,
            label: format!("0xa::m::R{i:02}"),
            class: KeyClass::Resource,
        });
    }
    let ids: Vec<u32> = (0..12).collect();
    let txns = vec![
        TxnAccess {
            reads: BTreeSet::new(),
            writes: ids.iter().copied().collect(),
            gas_used: 10,
            success: true,
        },
        TxnAccess {
            reads: ids.iter().copied().collect(),
            writes: BTreeSet::new(),
            gas_used: 10,
            success: true,
        },
    ];
    let analysis = analyze(&Workload { txns, locations }, 2);
    assert_eq!(analysis.hotspots.len(), 12);
    let figures = figures(&analysis, &[]);
    let text = to_text(&analysis, &[], &figures);
    assert!(text.contains("10. 0xa::m::R09  (1 deps, blocked cost 10)\n"));
    assert!(!text.contains("R10"));
    let html = to_html(&analysis, &[], &figures);
    assert!(html.contains("0xa::m::R09"));
    assert!(!html.contains("0xa::m::R10"));
}
