//! Replies to replication requests.

use vstd::prelude::*;

use crate::primitives::Term;

verus! {

/// Reply to an [`crate::message::AppendEntriesRequest`].
#[derive(Clone, Copy, PartialEq, Eq, Structural, Debug)]
pub struct AppendEntriesReply {
    pub term: Term,
    pub success: bool,
}

impl AppendEntriesReply {
    /// Creates a replication reply.
    pub fn new(term: Term, success: bool) -> (r: AppendEntriesReply)
        ensures
            r == (AppendEntriesReply { term, success }),
    {
        AppendEntriesReply { term, success }
    }
}

} // verus!
