//! Verified control plane of a chunk-replicated distributed file store.
//!
//! Files are split into fixed-size chunks, each replicated across a fleet of
//! chunkservers and indexed by a metadata coordinator (the master).  This
//! crate holds the verified decision logic of all three roles: the master's
//! metadata maps and placement planner, the chunkserver's held-set, upload
//! protocol and OTP gate, and the client's chunking and replica selection.
//! The surrounding processes (RPC transport, disk and clock) live outside and
//! hand these functions plain values.

pub mod chunk_id;
pub mod chunkserver;
pub mod client;
pub mod config;
pub mod errors;
pub mod keyed;
pub mod leader;
pub mod master;
pub mod placement;
pub mod types;

use vstd::prelude::*;

verus! {

/// A chunkserver is alive iff the seconds since its last heartbeat do not
/// exceed `failure_threshold` heartbeat intervals.
pub open spec fn spec_alive(last: u64, now: u64, threshold: u64, interval: u64) -> bool {
    now - last <= threshold * interval
}

/// Liveness check on one heartbeat timestamp, as the failure detector sees it.
/// A timestamp in the future (clock skew) counts as alive.
pub fn is_alive(last: u64, now: u64, threshold: u64, interval: u64) -> (r: bool)
    requires
        threshold * interval <= u64::MAX,
    ensures
        r == (last > now || spec_alive(last as u64, now, threshold, interval)),
{
    last > now || now - last <= threshold * interval
}

} // verus!
