//! Replies to vote requests.

use vstd::prelude::*;

use crate::primitives::Term;

verus! {

/// Vote outcome of a [`RequestVoteReply`].
#[derive(Clone, Copy, PartialEq, Eq, Structural, Debug)]
pub enum Vote {
    /// Not granted: the receiving peer is in a higher term.
    NotGrantedDueToBeingInHigherTerm,
    /// Not granted: the receiving peer's log is more up to date.
    NotGrantedDueToBeingLessUpToDate,
    /// Not granted: the vote for this term went to another peer.
    NotGrantedDueToBeingGrantedToAnotherPeer,
    /// Not granted: the receiving peer could not persist its vote.
    NotGrantedDueToStorageError,
    /// Granted.
    Granted,
}

/// Reply to a [`crate::message::RequestVoteRequest`].
#[derive(Clone, Copy, PartialEq, Eq, Structural, Debug)]
pub struct RequestVoteReply {
    pub term: Term,
    pub vote: Vote,
}

impl RequestVoteReply {
    /// Creates a vote reply.
    pub fn new(term: Term, vote: Vote) -> (r: RequestVoteReply)
        ensures
            r == (RequestVoteReply { term, vote }),
    {
        RequestVoteReply { term, vote }
    }

    /// Overwrites the term of the reply.
    pub fn set_term(&mut self, term: Term)
        ensures
            *final(self) == (RequestVoteReply { term, ..*old(self) }),
    {
        self.term = term;
    }

    /// Overwrites the vote of the reply.
    pub fn set_vote(&mut self, vote: Vote)
        ensures
            *final(self) == (RequestVoteReply { vote, ..*old(self) }),
    {
        self.vote = vote;
    }
}

} // verus!
