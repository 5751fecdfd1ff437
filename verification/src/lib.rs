//! A Raft consensus core: leader election, log replication and commit
//! advancement as a deterministic, transport-agnostic state machine,
//! together with a deterministic simulation driver and a replay oracle.

pub mod action;
pub mod client;
pub mod codec;
pub mod errors;
pub mod kv;
pub mod log;
pub mod message;
pub mod peer;
pub mod primitives;
pub mod role;
pub mod simulation;
pub mod snapshot;
pub mod storage;
pub mod transmit;
pub mod update;

use vstd::prelude::*;

verus! {

} // verus!
