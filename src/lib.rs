use vstd::prelude::*;

pub mod clock;
pub mod decimate;
pub mod export;
pub mod ingest;
pub mod protocol;
pub mod reading;
pub mod store;
pub mod text;

verus! {

/// The number of sensor channels the device reports.
pub const NUM_CHANNELS: usize = 8;

/// Seconds between two automatic exports.
pub const AUTOSAVE_SECONDS_INTERVAL: u64 = 60;

/// The serial link's baud rate.
pub const BAUD_RATE: u32 = 9600;

/// How long one read on the serial link waits before it times out.
pub const READ_TIMEOUT_MS: u64 = 1000;

/// How many bytes one read on the serial link asks for.
pub const READ_BUFFER_LEN: usize = 100;

} // verus!
