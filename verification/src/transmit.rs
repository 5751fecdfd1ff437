//! Enqueued outbound messages.

use vstd::prelude::*;

use crate::message::{ClientMessage, ClientMessageView, PeerMessage, PeerMessageView};
use crate::primitives::{ClientId, PeerId, RequestId};

verus! {

/// Transmit between a peer and another peer.
#[derive(Debug, PartialEq, Eq)]
pub struct PeerTransmit {
    pub(crate) peer_id: PeerId,
    pub(crate) request_id: RequestId,
    pub(crate) message: PeerMessage,
}

/// Mathematical image of a [`PeerTransmit`].
#[verifier::ext_equal]
pub ghost struct PeerTransmitView {
    pub peer_id: PeerId,
    pub request_id: RequestId,
    pub message: PeerMessageView,
}

impl View for PeerTransmit {
    type V = PeerTransmitView;

    closed spec fn view(&self) -> PeerTransmitView {
        PeerTransmitView {
            peer_id: self.peer_id,
            request_id: self.request_id,
            message: self.message@,
        }
    }
}

impl PeerTransmit {
    /// Creates a peer transmit.
    pub fn new(peer_id: PeerId, request_id: RequestId, message: PeerMessage) -> (r: PeerTransmit)
        ensures
            r@ == (PeerTransmitView { peer_id, request_id, message: message@ }),
    {
        PeerTransmit { peer_id, request_id, message }
    }

    /// For a request: the target peer. For a reply: the peer that is replied to.
    pub fn peer_id(&self) -> (r: PeerId)
        ensures
            r == self@.peer_id,
    {
        self.peer_id
    }

    /// Gets the request id of the transmit.
    pub fn request_id(&self) -> (r: RequestId)
        ensures
            r == self@.request_id,
    {
        self.request_id
    }

    /// Gets the message of the transmit.
    pub fn message(&self) -> (r: &PeerMessage)
        ensures
            r@ == self@.message,
    {
        &self.message
    }

    /// Converts the transmit into its message.
    pub fn into_message(self) -> (r: PeerMessage)
        ensures
            r@ == self@.message,
    {
        self.message
    }

    /// Structural equality of two peer transmits.
    pub fn deep_eq(&self, other: &PeerTransmit) -> (r: bool)
        ensures
            r == (self@ == other@),
    {
        self.peer_id.0 == other.peer_id.0 && self.request_id.0 == other.request_id.0
            && self.message.deep_eq(&other.message)
    }
}

impl Clone for PeerTransmit {
    /// Clones the transmit; the copy has the same view.
    fn clone(&self) -> (r: PeerTransmit)
        ensures
            r@ == self@,
    {
        PeerTransmit {
            peer_id: self.peer_id,
            request_id: self.request_id,
            message: self.message.clone(),
        }
    }
}

/// Transmit between a peer and a client.
#[derive(Debug, PartialEq, Eq)]
pub struct ClientTransmit {
    pub(crate) client_id: ClientId,
    pub(crate) peer_id: PeerId,
    pub(crate) request_id: RequestId,
    pub(crate) message: ClientMessage,
}

/// Mathematical image of a [`ClientTransmit`].
#[verifier::ext_equal]
pub ghost struct ClientTransmitView {
    pub client_id: ClientId,
    pub peer_id: PeerId,
    pub request_id: RequestId,
    pub message: ClientMessageView,
}

impl View for ClientTransmit {
    type V = ClientTransmitView;

    closed spec fn view(&self) -> ClientTransmitView {
        ClientTransmitView {
            client_id: self.client_id,
            peer_id: self.peer_id,
            request_id: self.request_id,
            message: self.message@,
        }
    }
}

impl ClientTransmit {
    /// Creates a client transmit.
    pub fn new(client_id: ClientId, peer_id: PeerId, request_id: RequestId, message: ClientMessage)
        -> (r: ClientTransmit)
        ensures
            r@ == (ClientTransmitView { client_id, peer_id, request_id, message: message@ }),
    {
        ClientTransmit { client_id, peer_id, request_id, message }
    }

    /// For a request from a client: the target peer.
    /// For a reply from a peer: the replying peer.
    pub fn peer_id(&self) -> (r: PeerId)
        ensures
            r == self@.peer_id,
    {
        self.peer_id
    }

    /// For a request: the issuing client. For a reply: the client replied to.
    pub fn client_id(&self) -> (r: ClientId)
        ensures
            r == self@.client_id,
    {
        self.client_id
    }

    /// Gets the request id of the transmit.
    pub fn request_id(&self) -> (r: RequestId)
        ensures
            r == self@.request_id,
    {
        self.request_id
    }

    /// Gets the message of the transmit.
    pub fn message(&self) -> (r: &ClientMessage)
        ensures
            r@ == self@.message,
    {
        &self.message
    }

    /// Converts the transmit into its message.
    pub fn into_message(self) -> (r: ClientMessage)
        ensures
            r@ == self@.message,
    {
        self.message
    }
}

impl Clone for ClientTransmit {
    /// Clones the transmit; the copy has the same view.
    fn clone(&self) -> (r: ClientTransmit)
        ensures
            r@ == self@,
    {
        ClientTransmit {
            client_id: self.client_id,
            peer_id: self.peer_id,
            request_id: self.request_id,
            message: self.message.clone(),
        }
    }
}

} // verus!
