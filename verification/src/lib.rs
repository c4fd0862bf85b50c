//! An in-memory key-value server core speaking a Redis-compatible wire
//! protocol: a streaming frame decoder, reply encoders, a command executor
//! over a keyed store, durability records, and the per-connection decisions
//! of a reactor loop.

pub mod aof;
pub mod buffer;
pub mod decimal;
pub mod net;
pub mod protocol;
pub mod shard;
pub mod storage;

use vstd::prelude::*;

verus! {

/// The address that the server listens on where it is given no other.
pub const DEFAULT_ADDR: &'static str = "0.0.0.0:7379";

} // verus!
