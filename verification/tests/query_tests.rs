use dht_history::data::Reading;
use dht_history::store::Store;

fn reading(t: f32, h: f32) -> Reading {
    Reading { temperature_bits: t.to_bits(), humidity_bits: h.to_bits() }
}

fn shuffled_store() -> Store {
    let mut store = Store::new();
    let stamps: [i64; 7] = [50, 10, 40, 10, 70, 20, 60];
    for (k, ts) in stamps.iter().enumerate() {
        store.accept_at(reading(k as f32, 1.0), *ts);
    }
    store
}

#[test]
fn ascending_is_non_decreasing() {
    let store = shuffled_store();
    let entries = store.list(false);
    assert_eq!(entries.len(), 7);
    for w in entries.windows(2) {
        assert!(w[0].timestamp <= w[1].timestamp);
    }
}

#[test]
fn descending_is_non_increasing() {
    let store = shuffled_store();
    let entries = store.list(true);
    assert_eq!(entries.len(), 7);
    for w in entries.windows(2) {
        assert!(w[0].timestamp >= w[1].timestamp);
    }
}

#[test]
fn both_orders_are_permutations_of_the_snapshot() {
    let store = shuffled_store();
    let mut snapshot: Vec<(i64, u32)> =
        store.records.iter().map(|r| (r.date, r.value.temperature_bits)).collect();
    let mut asc: Vec<(i64, u32)> =
        store.list(false).iter().map(|e| (e.timestamp, e.temperature_bits)).collect();
    let mut desc: Vec<(i64, u32)> =
        store.list(true).iter().map(|e| (e.timestamp, e.temperature_bits)).collect();
    snapshot.sort();
    asc.sort();
    desc.sort();
    assert_eq!(asc, snapshot);
    assert_eq!(desc, snapshot);
}

#[test]
fn last_is_maximum_of_ascending_listing() {
    let store = shuffled_store();
    let entries = store.list(false);
    let tail = entries.last().unwrap();
    let last = store.last().unwrap();
    assert_eq!(last.timestamp, tail.timestamp);
    assert_eq!(last.temperature_bits, tail.temperature_bits);
    assert_eq!(last.humidity_bits, tail.humidity_bits);
    assert_eq!(last.timestamp, 70);
}

#[test]
fn last_breaks_timestamp_ties_by_latest_snapshot_position() {
    let mut store = Store::new();
    store.accept_at(reading(1.0, 1.0), 30);
    store.accept_at(reading(2.0, 1.0), 30);
    let last = store.last().unwrap();
    assert_eq!(last.temperature_bits, 2.0f32.to_bits());
}

#[test]
fn last_of_empty_store_is_absent() {
    let store = Store::new();
    assert!(store.last().is_none());
}

#[test]
fn entry_date_is_localized_rendering() {
    let mut store = Store::new();
    let ts: i64 = 0;
    store.accept_at(reading(20.0, 50.0), ts);
    let entries = store.list(false);
    let expected = chrono::DateTime::from_timestamp(ts, 0)
        .unwrap()
        .with_timezone(&chrono_tz::Tz::Europe__Paris)
        .to_rfc2822();
    assert_eq!(entries[0].date, expected);
    assert!(entries[0].date.contains("1970"));
}

#[test]
fn out_of_range_timestamp_renders_empty_date() {
    let mut store = Store::new();
    store.accept_at(reading(20.0, 50.0), -5);
    let entries = store.list(false);
    assert_eq!(entries[0].date, "");
}
