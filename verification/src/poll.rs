//! Retry policy of the reading source: what one polling attempt decides.
//!
//! The blocking fetch itself is I/O and lives outside the library; each
//! attempt reports its outcome here, and the decision — forward the reading,
//! wait and retry, or stop — is fixed by the contract below. Network
//! failures are never fatal and use the short retry interval; a payload
//! that a successful response failed to decode stops the poller.

use vstd::prelude::*;

use crate::data::Reading;

verus! {

/// Seconds to sleep after a successful fetch before the next poll.
pub const LONG_INTERVAL_SECS: u64 = 600;

/// Seconds to sleep after a failed fetch before retrying.
pub const SHORT_INTERVAL_SECS: u64 = 60;

/// What one polling attempt against the sensor endpoint produced.
pub enum FetchOutcome {
    /// The fetch succeeded and its payload decoded to a reading.
    Received(Reading),
    /// The fetch failed on the wire: connection, timeout or a bad status.
    NetworkError,
    /// The fetch succeeded but its payload did not decode.
    DecodeError,
}

/// What the polling loop does next.
pub enum PollAction {
    /// Hand the reading to the store and sleep for the long interval.
    Forward { reading: Reading, sleep_secs: u64 },
    /// Log the failure and retry after the short interval.
    Retry { sleep_secs: u64 },
    /// Stop the polling task.
    Abort,
}

/// Decide the next step of the polling loop from one fetch outcome: a
/// reading is forwarded and followed by the long sleep; a network failure
/// is retried after the short sleep, never fatally; an undecodable payload
/// on a successful response stops the poller.
pub fn poll_step(outcome: FetchOutcome) -> (act: PollAction)
    ensures
        match outcome {
            FetchOutcome::Received(r) => act == (PollAction::Forward {
                reading: r,
                sleep_secs: LONG_INTERVAL_SECS as u64,
            }),
            FetchOutcome::NetworkError => act == (PollAction::Retry {
                sleep_secs: SHORT_INTERVAL_SECS as u64,
            }),
            FetchOutcome::DecodeError => act == PollAction::Abort,
        },
{
    match outcome {
        FetchOutcome::Received(reading) => PollAction::Forward {
            reading,
            sleep_secs: LONG_INTERVAL_SECS,
        },
        FetchOutcome::NetworkError => PollAction::Retry { sleep_secs: SHORT_INTERVAL_SECS },
        FetchOutcome::DecodeError => PollAction::Abort,
    }
}

} // verus!
