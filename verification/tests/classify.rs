use movespan::{classify, KeyClass, LocationInterner, StateKeyView};

fn address(last: u8) -> [u8; 32] {
    let mut a = [0u8; 32];
    a[31] = last;
    a
}

fn resource(type_address: [u8; 32], module: &str, name: &str) -> StateKeyView {
    StateKeyView::Resource {
        address: "0xc0ffee".into(),
        type_address,
        module: module.into(),
        name: name.into(),
    }
}

#[test]
fn resources_by_defining_address() {
    let (label, class) = classify(&resource(address(0x1), "coin", "CoinStore"));
    assert_eq!(label, "0xc0ffee::coin::CoinStore");
    assert_eq!(class, KeyClass::Framework);
    let (_, class) = classify(&resource(address(0x0f), "m", "S"));
    assert_eq!(class, KeyClass::Framework);
    let (_, class) = classify(&resource(address(0x10), "m", "S"));
    assert_eq!(class, KeyClass::Resource);
    let mut high = address(0x1);
    high[0] = 0xa1;
    let (_, class) = classify(&resource(high, "counter", "Counter"));
    assert_eq!(class, KeyClass::Resource);
}

#[test]
fn aggregators_by_name() {
    let (_, class) = classify(&resource(address(0x1), "aggregator_v2", "Thing"));
    assert_eq!(class, KeyClass::Aggregator);
    let (_, class) = classify(&resource(address(0xcc), "m", "SupplyAggregator"));
    assert_eq!(class, KeyClass::Aggregator);
    let (_, class) = classify(&resource(address(0xcc), "m", "DelayedFieldX"));
    assert_eq!(class, KeyClass::Aggregator);
    let (_, class) = classify(&resource(address(0xcc), "Aggregator", "m"));
    assert_eq!(class, KeyClass::Resource);
}

#[test]
fn other_keys() {
    let (label, class) = classify(&StateKeyView::Code {
        address: "0xa11ce".into(),
        module: "amm".into(),
    });
    assert_eq!(label, "0xa11ce::amm (code)");
    assert_eq!(class, KeyClass::Code);
    let (label, class) = classify(&StateKeyView::TableItem {
        handle: "0x77".into(),
    });
    assert_eq!(label, "table[0x77]");
    assert_eq!(class, KeyClass::TableItem);
    assert_eq!(classify(&StateKeyView::Raw), ("raw".to_string(), KeyClass::Unknown));
    assert_eq!(
        classify(&StateKeyView::TradingNative),
        ("trading-native".to_string(), KeyClass::Unknown)
    );
}

#[test]
fn interner_assigns_consecutive_ids() {
    let mut interner = LocationInterner::new();
    let a = interner.register(&resource(address(0xcc), "counter", "Counter"));
    let b = interner.register(&StateKeyView::Raw);
    assert_eq!((a, b), (0, 1));
    assert_eq!(interner.table().label(0), "0xc0ffee::counter::Counter");
    assert_eq!(interner.table().class(1), KeyClass::Unknown);
    let table = interner.into_table();
    assert_eq!(table.len(), 2);
}
