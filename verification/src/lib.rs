//! Verified core of a distributed file-transfer daemon.
//!
//! Files are split into fixed-size fragments, published to a pub/sub
//! transport under a deterministic key schema, and reassembled on the
//! receiving side, where a CRC-64 check gates the final cleanup.  This
//! crate holds the logic of that pipeline: the path and key schema, the
//! JSON codec for the intent and digest records, the fragmenter and
//! defragmenter, the download planner, and the download sanitizer's
//! state machine.  All I/O — the filesystem watcher, the transport
//! session, reading and writing fragment files — lives outside, and
//! hands this crate plain values.

use vstd::prelude::*;

pub mod crc;
pub mod dispatch;
pub mod errors;
pub mod frag;
pub mod json;
pub mod records;
pub mod sanitizer;
pub mod schema;
pub mod strnum;
pub mod transfer;

verus! {

/// Seconds the filesystem watcher debounces events; cleanup waits twice this.
pub const FS_EVT_DELAY: u64 = 1;

/// Seconds between two sweeps of the download sanitizer.
pub const SANITIZER_PERIOD_SECS: u64 = 3;

/// Base number of fragments re-requested per escalation.
pub const GAP_DOWNLOAD_SCHEDULE: usize = 32;

/// Consecutive no-progress cycles between escalations.
pub const STUCK_CYCLES_RESET: usize = 3;

/// Upper bound on the acceleration factor.
pub const MAX_ACCELERATION: usize = 33;

/// Default fragment size in bytes.
pub const FRAGMENT_SIZE: usize = 32 * 1024;

} // verus!
