//! Errors surfaced by the library.

use vstd::prelude::*;

use crate::primitives::PeerId;

verus! {

/// Error raised by a storage backend on a failed persistent write.
///
/// The code is chosen by the backend; the library only carries it.
#[derive(Clone, Copy, PartialEq, Eq, Structural, Debug, Hash)]
pub struct StorageError(pub usize);

/// Errors returned to clients.
#[derive(Clone, Copy, PartialEq, Eq, Structural, Debug)]
pub enum ClientError {
    /// The client was created against an empty cluster.
    EmptyCluster,
    /// The contacted peer cannot identify a leader.
    LeaderUnknown,
    /// The contacted peer knows a different leader.
    LeaderChanged { new_leader_id: PeerId },
    /// The peer could not durably record the client's change.
    StorageError { underlying_error: StorageError },
}

} // verus!
