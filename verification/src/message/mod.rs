//! Messages exchanged between peers and between peers and clients.

pub mod append_entries_reply;
pub mod append_entries_request;
pub mod command_reply;
pub mod command_request;
pub mod query_reply;
pub mod query_request;
pub mod request_vote_reply;
pub mod request_vote_request;

pub use append_entries_reply::AppendEntriesReply;
pub use append_entries_request::{AppendEntriesRequest, AppendEntriesRequestView};
pub use command_reply::CommandReply;
pub use command_request::{CommandRequest, CommandRequestView};
pub use query_reply::{QueryReply, QueryReplyView};
pub use query_request::{QueryRequest, QueryRequestView};
pub use request_vote_reply::{RequestVoteReply, Vote};
pub use request_vote_request::RequestVoteRequest;

use vstd::prelude::*;

verus! {

/// Message between a peer and another peer.
#[derive(Debug, PartialEq, Eq)]
pub enum PeerMessage {
    RequestVoteRequest(RequestVoteRequest),
    RequestVoteReply(RequestVoteReply),
    AppendEntriesRequest(AppendEntriesRequest),
    AppendEntriesReply(AppendEntriesReply),
}

/// Mathematical image of a [`PeerMessage`].
#[verifier::ext_equal]
pub ghost enum PeerMessageView {
    RequestVoteRequest(RequestVoteRequest),
    RequestVoteReply(RequestVoteReply),
    AppendEntriesRequest(AppendEntriesRequestView),
    AppendEntriesReply(AppendEntriesReply),
}

impl View for PeerMessage {
    type V = PeerMessageView;

    open spec fn view(&self) -> PeerMessageView {
        match self {
            PeerMessage::RequestVoteRequest(m) => PeerMessageView::RequestVoteRequest(*m),
            PeerMessage::RequestVoteReply(m) => PeerMessageView::RequestVoteReply(*m),
            PeerMessage::AppendEntriesRequest(m) => PeerMessageView::AppendEntriesRequest(m@),
            PeerMessage::AppendEntriesReply(m) => PeerMessageView::AppendEntriesReply(*m),
        }
    }
}

/// Whether a peer message view is a request.
pub open spec fn peer_message_is_request(m: PeerMessageView) -> bool {
    m is RequestVoteRequest || m is AppendEntriesRequest
}

impl PeerMessage {
    /// Gets whether the message is a request.
    pub fn is_request(&self) -> (r: bool)
        ensures
            r == peer_message_is_request(self@),
    {
        match self {
            PeerMessage::RequestVoteRequest(_) | PeerMessage::AppendEntriesRequest(_) => true,
            _ => false,
        }
    }

    /// Gets whether the message is a reply.
    pub fn is_reply(&self) -> (r: bool)
        ensures
            r == !peer_message_is_request(self@),
    {
        match self {
            PeerMessage::RequestVoteReply(_) | PeerMessage::AppendEntriesReply(_) => true,
            _ => false,
        }
    }

    /// Structural equality of two peer messages.
    pub fn deep_eq(&self, other: &PeerMessage) -> (r: bool)
        ensures
            r == (self@ == other@),
    {
        match (self, other) {
            (PeerMessage::RequestVoteRequest(a), PeerMessage::RequestVoteRequest(b)) => a.term.0
                == b.term.0 && a.candidate_id.0 == b.candidate_id.0 && a.last_log_index.0
                == b.last_log_index.0 && a.last_log_term.0 == b.last_log_term.0,
            (PeerMessage::RequestVoteReply(a), PeerMessage::RequestVoteReply(b)) => a.term.0
                == b.term.0 && a.vote == b.vote,
            (PeerMessage::AppendEntriesRequest(a), PeerMessage::AppendEntriesRequest(b)) => a
                .deep_eq(b),
            (PeerMessage::AppendEntriesReply(a), PeerMessage::AppendEntriesReply(b)) => a.term.0
                == b.term.0 && a.success == b.success,
            _ => false,
        }
    }
}

impl Clone for PeerMessage {
    /// Clones the message; the copy has the same view.
    fn clone(&self) -> (r: PeerMessage)
        ensures
            r@ == self@,
    {
        match self {
            PeerMessage::RequestVoteRequest(m) => PeerMessage::RequestVoteRequest(*m),
            PeerMessage::RequestVoteReply(m) => PeerMessage::RequestVoteReply(*m),
            PeerMessage::AppendEntriesRequest(m) => PeerMessage::AppendEntriesRequest(m.clone()),
            PeerMessage::AppendEntriesReply(m) => PeerMessage::AppendEntriesReply(*m),
        }
    }
}

/// Message between a peer and a client.
#[derive(Debug, PartialEq, Eq)]
pub enum ClientMessage {
    CommandRequest(CommandRequest),
    CommandReply(CommandReply),
    QueryRequest(QueryRequest),
    QueryReply(QueryReply),
}

/// Mathematical image of a [`ClientMessage`].
#[verifier::ext_equal]
pub ghost enum ClientMessageView {
    CommandRequest(CommandRequestView),
    CommandReply(CommandReply),
    QueryRequest(QueryRequestView),
    QueryReply(QueryReplyView),
}

impl View for ClientMessage {
    type V = ClientMessageView;

    open spec fn view(&self) -> ClientMessageView {
        match self {
            ClientMessage::CommandRequest(m) => ClientMessageView::CommandRequest(m@),
            ClientMessage::CommandReply(m) => ClientMessageView::CommandReply(*m),
            ClientMessage::QueryRequest(m) => ClientMessageView::QueryRequest(m@),
            ClientMessage::QueryReply(m) => ClientMessageView::QueryReply(m@),
        }
    }
}

/// Whether a client message view is a request.
pub open spec fn client_message_is_request(m: ClientMessageView) -> bool {
    m is CommandRequest || m is QueryRequest
}

impl ClientMessage {
    /// Gets whether the message is a request.
    pub fn is_request(&self) -> (r: bool)
        ensures
            r == client_message_is_request(self@),
    {
        match self {
            ClientMessage::CommandRequest(_) | ClientMessage::QueryRequest(_) => true,
            _ => false,
        }
    }

    /// Gets whether the message is a reply.
    pub fn is_reply(&self) -> (r: bool)
        ensures
            r == !client_message_is_request(self@),
    {
        match self {
            ClientMessage::CommandReply(_) | ClientMessage::QueryReply(_) => true,
            _ => false,
        }
    }
}

impl Clone for ClientMessage {
    /// Clones the message; the copy has the same view.
    fn clone(&self) -> (r: ClientMessage)
        ensures
            r@ == self@,
    {
        match self {
            ClientMessage::CommandRequest(m) => ClientMessage::CommandRequest(m.clone()),
            ClientMessage::CommandReply(m) => ClientMessage::CommandReply(*m),
            ClientMessage::QueryRequest(m) => ClientMessage::QueryRequest(m.clone()),
            ClientMessage::QueryReply(m) => ClientMessage::QueryReply(m.clone()),
        }
    }
}

} // verus!
