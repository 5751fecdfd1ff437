//! Vote requests sent by candidates.

use vstd::prelude::*;

use crate::primitives::{LogIndex, PeerId, Term};

verus! {

/// Request from a candidate to another peer, asking for its vote in a term.
#[derive(Clone, Copy, PartialEq, Eq, Structural, Debug)]
pub struct RequestVoteRequest {
    pub term: Term,
    pub candidate_id: PeerId,
    pub last_log_index: LogIndex,
    pub last_log_term: Term,
}

impl RequestVoteRequest {
    /// Creates a vote request.
    pub fn new(term: Term, candidate_id: PeerId, last_log_index: LogIndex, last_log_term: Term) -> (
        r: RequestVoteRequest)
        ensures
            r == (RequestVoteRequest { term, candidate_id, last_log_index, last_log_term }),
    {
        RequestVoteRequest { term, candidate_id, last_log_index, last_log_term }
    }
}

} // verus!
