use dht_history::data::Reading;
use dht_history::store::{Store, CAP};

fn reading(t: f32, h: f32) -> Reading {
    Reading { temperature_bits: t.to_bits(), humidity_bits: h.to_bits() }
}

#[test]
fn accept_one_entry() {
    let mut store = Store::new();
    let t1: i64 = 1_700_000_000;
    store.accept_at(reading(20.0, 50.0), t1);
    assert_eq!(store.len(), 1);
    let entries = store.list(false);
    assert_eq!(entries.len(), 1);
    assert_eq!(entries[0].temperature_bits, 20.0f32.to_bits());
    assert_eq!(entries[0].humidity_bits, 50.0f32.to_bits());
    assert_eq!(entries[0].timestamp, t1);
}

#[test]
fn length_is_min_of_accepts_and_cap() {
    let mut store = Store::new();
    for k in 0..300u32 {
        let expected = (k as usize).min(CAP);
        assert_eq!(store.len(), expected);
        store.accept_at(reading(k as f32, 1.0), 1_700_000_000 + k as i64);
    }
    assert_eq!(store.len(), CAP);
}

#[test]
fn saturation_overwrites_oldest_first() {
    let mut store = Store::new();
    for k in 0..CAP {
        store.accept_at(reading(k as f32, 1.0), 1_700_000_000 + k as i64);
    }
    assert_eq!(store.len(), CAP);
    // the 145th accepted reading lands in the slot of the 1st
    store.accept_at(reading(1000.0, 2.0), 1_800_000_000);
    assert_eq!(store.len(), CAP);
    let bits_present: Vec<u32> = store.records.iter().map(|r| r.value.temperature_bits).collect();
    assert!(!bits_present.contains(&0.0f32.to_bits()));
    for k in 1..CAP {
        assert!(bits_present.contains(&(k as f32).to_bits()));
    }
    assert!(bits_present.contains(&1000.0f32.to_bits()));
    assert_eq!(store.records[0].value.temperature_bits, 1000.0f32.to_bits());
    // the 146th lands in the slot of the 2nd
    store.accept_at(reading(1001.0, 2.0), 1_800_000_060);
    assert_eq!(store.records[1].value.temperature_bits, 1001.0f32.to_bits());
    assert_eq!(store.len(), CAP);
}

#[test]
fn cursor_advances_and_wraps() {
    let mut store = Store::new();
    assert_eq!(store.cursor, 0);
    for k in 0..CAP {
        store.accept_at(reading(k as f32, 1.0), k as i64);
    }
    assert_eq!(store.cursor, 0);
    store.accept_at(reading(0.5, 1.0), 200);
    assert_eq!(store.cursor, 1);
}

#[test]
fn rejected_submission_changes_nothing() {
    let mut store = Store::new();
    store.accept_at(reading(20.0, 50.0), 100);
    let secret: Vec<u8> = b"hunter2".to_vec();
    let wrong: Vec<u8> = b"hunter3".to_vec();
    let before_len = store.len();
    let before_cursor = store.cursor;
    let before_first = store.records[0];
    let accepted = store.submit_at(reading(99.0, 1.0), 200, &wrong, &secret);
    assert!(!accepted);
    assert_eq!(store.len(), before_len);
    assert_eq!(store.cursor, before_cursor);
    assert_eq!(store.records[0], before_first);
}

#[test]
fn matching_submission_is_accepted() {
    let mut store = Store::new();
    let secret: Vec<u8> = b"hunter2".to_vec();
    let supplied: Vec<u8> = b"hunter2".to_vec();
    let accepted = store.submit_at(reading(21.5, 40.0), 300, &supplied, &secret);
    assert!(accepted);
    assert_eq!(store.len(), 1);
    assert_eq!(store.records[0].value.temperature_bits, 21.5f32.to_bits());
    assert_eq!(store.records[0].date, 300);
}

#[test]
fn accept_stamps_current_time() {
    let mut store = Store::new();
    let before = chrono::Utc::now().timestamp();
    store.accept(reading(20.0, 50.0));
    let after = chrono::Utc::now().timestamp();
    assert_eq!(store.len(), 1);
    assert!(store.records[0].date >= before);
    assert!(store.records[0].date <= after);
}

#[test]
fn loaded_store_restarts_cursor() {
    let mut filled = Store::new();
    for k in 0..10 {
        filled.accept_at(reading(k as f32, 2.0), k as i64);
    }
    let store = Store::from_loaded(filled.records);
    assert_eq!(store.len(), 10);
    assert_eq!(store.cursor, 0);
}
