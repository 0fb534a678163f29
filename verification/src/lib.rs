//! A bounded rolling history of temperature/humidity sensor readings.
//!
//! The store keeps at most `CAP` records; once full, new records overwrite
//! the oldest slots in circular order. The history is projected into sorted
//! listings for an HTTP surface and persisted as a structured text file.

pub mod codec;
pub mod data;
pub mod poll;
pub mod query;
pub mod store;
pub mod utils;
