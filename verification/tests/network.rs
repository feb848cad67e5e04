use movespan::network::{absorb_page, fetch_start, kept_count, next_page_start};
use movespan::{parse_network, Network};

#[test]
fn network_names_ignore_case() {
    assert!(matches!(parse_network("mainnet"), Network::Mainnet));
    assert!(matches!(parse_network("TestNet"), Network::Testnet));
    assert!(matches!(parse_network("DEVNET"), Network::Devnet));
    match parse_network("https://Node.example/v1") {
        Network::Custom(url) => assert_eq!(url, "https://Node.example/v1"),
        other => panic!("unexpected {other:?}"),
    }
}

#[test]
fn paging_collects_user_transactions() {
    let p = fetch_start(100);
    assert_eq!(next_page_start(&p, 3), Some(100));
    let p = absorb_page(&p, &vec![100, 101, 102], &vec![true, false, true]);
    assert_eq!(p.cursor, 103);
    assert_eq!(p.collected, 2);
    assert_eq!(next_page_start(&p, 3), Some(103));
    let p = absorb_page(&p, &vec![103, 104], &vec![true, true]);
    assert_eq!(p.collected, 4);
    assert_eq!(next_page_start(&p, 3), None);
    assert_eq!(kept_count(4, 3), 3);
    assert_eq!(kept_count(2, 3), 2);
}

#[test]
fn paging_stops_when_history_runs_out() {
    let p = fetch_start(7);
    let p = absorb_page(&p, &vec![], &vec![]);
    assert!(p.exhausted);
    assert_eq!(p.cursor, 7);
    assert_eq!(next_page_start(&p, 10), None);
}
