//! Core data model: a sensor reading, a record stamping it with the server's
//! capture time, and the display projection served over HTTP.
//!
//! Temperature and humidity are carried as the bit patterns of the sensor's
//! 32-bit binary floating-point values. The store never does arithmetic on
//! them; it only moves them, so the bit pattern is the faithful plain-value
//! form of a sample.

use vstd::prelude::*;

verus! {

/// One temperature/humidity sample from the sensor, each value held as the
/// bit pattern of its 32-bit float.
#[derive(Clone, Copy, PartialEq, Eq, Structural, Debug)]
pub struct Reading {
    pub temperature_bits: u32,
    pub humidity_bits: u32,
}

/// A `Reading` stamped with the server's own wall-clock capture time,
/// as Unix seconds.
#[derive(Clone, Copy, PartialEq, Eq, Structural, Debug)]
pub struct Record {
    pub value: Reading,
    pub date: i64,
}

/// The display form of a `Record` as served over HTTP: the sample's bit
/// patterns, the Unix-seconds timestamp, and a human-readable localized
/// date string — derived from a record, never stored.
#[derive(Clone, Debug)]
pub struct RecordEntry {
    pub temperature_bits: u32,
    pub humidity_bits: u32,
    pub timestamp: i64,
    pub date: String,
}

} // verus!
