//! The connection engine's verified face: the limits every connection is
//! held to.
//!
//! The listener, the per-connection tasks and their timeouts are ordinary
//! async plumbing and live outside this library; they read their limits
//! from here and drive the codec and the shards through the library's
//! verified functions.

use vstd::prelude::*;

verus! {

/// How long a connection may sit idle, in milliseconds, before it is
/// closed after a best-effort notification.
pub const IDLE_READ_TIMEOUT_MS: u64 = 30000;

/// The stream engine configuration: the per-connection limits.
pub struct TcpEngine {
    /// The idle read timeout for every connection, in milliseconds.
    pub idle_timeout_ms: u64,
    /// The ceiling on bytes buffered per connection.
    pub max_req_bytes: usize,
}

impl TcpEngine {
    /// The engine with its default limits.
    pub fn new() -> (r: TcpEngine)
        ensures
            r.idle_timeout_ms == IDLE_READ_TIMEOUT_MS,
            r.max_req_bytes == crate::MAX_REQ_BYTES,
    {
        TcpEngine { idle_timeout_ms: IDLE_READ_TIMEOUT_MS, max_req_bytes: crate::MAX_REQ_BYTES }
    }
}

} // verus!
