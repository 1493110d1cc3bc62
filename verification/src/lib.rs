//! An in-memory key-value store partitioned across independent shards.
//!
//! Keys are routed to their owning shard by consistent hashing, commands
//! arrive over a binary wire protocol, and each shard executes the commands
//! for its slice of the keyspace strictly in arrival order.

use vstd::prelude::*;

pub mod codec;
pub mod commands;
pub mod engine;
pub mod errors;
pub mod handlers;
pub mod manager;
pub mod ring;
pub mod shard;
pub mod store;
pub mod value;

verus! {

/// Largest number of bytes a connection may buffer before the decoder
/// reports a fatal oversize condition.
pub const MAX_REQ_BYTES: usize = 16384;

} // verus!
