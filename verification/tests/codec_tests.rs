use dht_history::codec::{load_records, save_records};
use dht_history::data::{Reading, Record};
use dht_history::store::{Store, CAP};

fn record(t: f32, h: f32, ts: i64) -> Record {
    Record {
        value: Reading { temperature_bits: t.to_bits(), humidity_bits: h.to_bits() },
        date: ts,
    }
}

#[test]
fn exact_bytes_of_one_record() {
    let records = vec![record(20.5, 50.0, 1_700_000_000)];
    let bytes = save_records(&records);
    let expected = format!(
        "[{{\"temperature_bits\":{},\"humidity_bits\":{},\"timestamp\":1700000000}}]",
        20.5f32.to_bits(),
        50.0f32.to_bits()
    );
    assert_eq!(bytes, expected.into_bytes());
}

#[test]
fn empty_store_bytes() {
    let records: Vec<Record> = Vec::new();
    let bytes = save_records(&records);
    assert_eq!(bytes, b"[]".to_vec());
    let back = load_records(&bytes);
    assert_eq!(back.len(), 0);
}

#[test]
fn round_trip_preserves_every_field() {
    let mut records: Vec<Record> = Vec::new();
    records.push(record(20.5, 50.0, 1_700_000_000));
    records.push(record(-3.25, 99.9, -12345));
    records.push(record(0.0, -0.0, 0));
    records.push(record(f32::INFINITY, f32::NEG_INFINITY, i64::MAX));
    records.push(record(f32::NAN, 1.0e-10, i64::MIN));
    records.push(record(f32::MIN_POSITIVE, f32::MAX, 1));
    let bytes = save_records(&records);
    let back = load_records(&bytes);
    assert_eq!(back.len(), records.len());
    for (a, b) in records.iter().zip(back.iter()) {
        assert_eq!(a.value.temperature_bits, b.value.temperature_bits);
        assert_eq!(a.value.humidity_bits, b.value.humidity_bits);
        assert_eq!(a.date, b.date);
    }
}

#[test]
fn persisted_store_reloads_identically() {
    let mut store = Store::new();
    for k in 0..10 {
        store.accept_at(
            Reading {
                temperature_bits: (15.0 + k as f32).to_bits(),
                humidity_bits: (40.0 + k as f32).to_bits(),
            },
            1_700_000_000 + 600 * k as i64,
        );
    }
    let bytes = save_records(&store.records);
    let reloaded = Store::from_loaded(load_records(&bytes));
    assert_eq!(reloaded.len(), 10);
    for k in 0..10 {
        assert_eq!(reloaded.records[k], store.records[k]);
    }
}

#[test]
fn full_store_round_trips() {
    let mut records: Vec<Record> = Vec::new();
    for k in 0..CAP {
        records.push(record(k as f32, (k * 2) as f32, k as i64 - 50));
    }
    let bytes = save_records(&records);
    let back = load_records(&bytes);
    assert_eq!(back, records);
}

#[test]
fn corrupt_file_loads_empty() {
    assert_eq!(load_records(&b"".to_vec()).len(), 0);
    assert_eq!(load_records(&b"not json".to_vec()).len(), 0);
    assert_eq!(load_records(&b"[".to_vec()).len(), 0);
    assert_eq!(load_records(&b"[{\"temperature_bits\":1}]".to_vec()).len(), 0);
    // truncated mid-record
    let good = save_records(&vec![record(20.5, 50.0, 7)]);
    let truncated = good[..good.len() - 2].to_vec();
    assert_eq!(load_records(&truncated).len(), 0);
    // trailing garbage
    let mut trailing = good.clone();
    trailing.push(b' ');
    assert_eq!(load_records(&trailing).len(), 0);
}

#[test]
fn non_canonical_numbers_load_empty() {
    let zero_padded =
        b"[{\"temperature_bits\":01,\"humidity_bits\":2,\"timestamp\":3}]".to_vec();
    assert_eq!(load_records(&zero_padded).len(), 0);
    let negative_zero =
        b"[{\"temperature_bits\":1,\"humidity_bits\":2,\"timestamp\":-0}]".to_vec();
    assert_eq!(load_records(&negative_zero).len(), 0);
}

#[test]
fn oversized_file_loads_empty() {
    let mut records: Vec<Record> = Vec::new();
    for k in 0..(CAP + 1) {
        records.push(record(1.0, 2.0, k as i64));
    }
    let bytes = save_records(&records);
    assert_eq!(load_records(&bytes).len(), 0);
}
