use mimi::api::{signal_key, Store, DEDUPE_MS, MAX_SIGNALS};
use mimi::divergence::Side;

#[test]
fn record_bounds_and_orders() {
    let mut store: Store<String, ()> = Store::new(0);
    for i in 0..(MAX_SIGNALS + 10) {
        let market = format!("POLY-{i}");
        store.record(signal_key(&market, "yes", Side::Buy), 1_000 + i as u128, market.clone());
    }
    assert_eq!(store.signals.len(), MAX_SIGNALS);
    assert_eq!(store.signals.front().unwrap(), "POLY-10");
    assert_eq!(store.signals.back().unwrap(), "POLY-109");
}

#[test]
fn duplicate_within_cooldown_is_suppressed() {
    let mut store: Store<u128, ()> = Store::new(0);
    let key = || signal_key("POLY-1", "yes", Side::Buy);
    assert!(store.record(key(), 1_000, 1_000));
    assert!(!store.record(key(), 1_500, 1_500), "repeat must be suppressed");
    assert!(store.record(key(), 1_000 + DEDUPE_MS + 1, 2), "cooldown must expire");
    assert_eq!(store.signals.len(), 2);
}

#[test]
fn other_side_is_not_a_duplicate() {
    let mut store: Store<u8, ()> = Store::new(0);
    assert!(store.record(signal_key("POLY-1", "yes", Side::Buy), 1_000, 1));
    assert!(store.record(signal_key("POLY-1", "yes", Side::Sell), 1_001, 2));
    assert!(!store.record(signal_key("POLY-1", "yes", Side::Sell), 1_000 + DEDUPE_MS - 1, 3));
    assert_eq!(store.signals.len(), 2);
}

#[test]
fn signal_key_joins_with_bars() {
    assert_eq!(signal_key("POLY-1", "yes", Side::Buy), "POLY-1|yes|Buy");
    assert_eq!(signal_key("m", "no", Side::Sell), "m|no|Sell");
}

#[test]
fn matches_upsert_by_key_not_append() {
    let mut store: Store<(), f64> = Store::new(0);
    store.upsert_match("k".into(), 0.0);
    store.upsert_match("k".into(), 0.1);
    assert_eq!(store.matches.len(), 1);
    let (_, gap) = store.matches.iter().find(|(k, _)| k == "k").unwrap();
    assert!((gap - 0.1).abs() < 1e-9);
    store.upsert_match("j".into(), 0.2);
    assert_eq!(store.matches.len(), 2);
}

#[test]
fn status_reports_counts_and_uptime() {
    let mut store: Store<u8, u8> = Store::new(500);
    store.upsert_match("a".into(), 1);
    store.record(signal_key("m", "yes", Side::Buy), 600, 1);
    store.set_stream_ok(true);
    let st = store.status(1_500);
    assert!(st.ok && st.stream_ok);
    assert_eq!(st.uptime_ms, 1_000);
    assert_eq!(st.match_count, 1);
    assert_eq!(st.signals, 1);
    assert_eq!(store.status(100).uptime_ms, 0);
}

#[test]
fn record_signal_keys_by_market_outcome_and_side() {
    let mut store: Store<u8, ()> = Store::new(0);
    assert!(store.record_signal("POLY-1", "part1", Side::Buy, 1_000, 1));
    assert!(!store.record_signal("POLY-1", "part1", Side::Buy, 1_100, 2));
    assert!(store.record_signal("POLY-1", "part2", Side::Buy, 1_200, 3));
    assert!(store.record_signal("POLY-1", "part1", Side::Sell, 1_300, 4));
    assert!(store.last_fired.contains_key("POLY-1|part1|Buy"));
    assert_eq!(store.signals.len(), 3);
}
