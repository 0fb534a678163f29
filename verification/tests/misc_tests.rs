use dht_history::data::Reading;
use dht_history::poll::{poll_step, FetchOutcome, PollAction};
use dht_history::utils::first_and_last_character;

#[test]
fn masks_all_but_first_and_last() {
    assert_eq!(first_and_last_character("password"), "p******d");
    assert_eq!(first_and_last_character("ab"), "ab");
    assert_eq!(first_and_last_character("abc"), "a*c");
}

#[test]
fn single_character_masks_to_nothing() {
    assert_eq!(first_and_last_character("a"), "");
}

#[test]
fn successful_fetch_forwards_and_sleeps_long() {
    let r = Reading { temperature_bits: 20.0f32.to_bits(), humidity_bits: 50.0f32.to_bits() };
    match poll_step(FetchOutcome::Received(r)) {
        PollAction::Forward { reading, sleep_secs } => {
            assert_eq!(reading.temperature_bits, r.temperature_bits);
            assert_eq!(reading.humidity_bits, r.humidity_bits);
            assert_eq!(sleep_secs, 600);
        },
        _ => panic!("a received reading must be forwarded"),
    }
}

#[test]
fn network_error_retries_after_short_interval() {
    match poll_step(FetchOutcome::NetworkError) {
        PollAction::Retry { sleep_secs } => assert_eq!(sleep_secs, 60),
        _ => panic!("a network error must be retried, never fatal"),
    }
}

#[test]
fn decode_error_stops_the_poller() {
    match poll_step(FetchOutcome::DecodeError) {
        PollAction::Abort => {},
        _ => panic!("an undecodable payload stops the poller"),
    }
}
