//! Actions a simulation performs.

use vstd::prelude::*;

use crate::kv::{Command, CommandView, Query, QueryView};
use crate::primitives::{ClientId, PeerId, RequestId};
use crate::update::{Update, UpdateView};

verus! {

/// An action to perform in a simulation: the driver's full repertoire of
/// timeouts, deliveries, drops, client submissions and oracle checks.
#[derive(Debug)]
pub enum Action {
    /// Triggers the election timeout of a peer.
    TimeoutElection { peer_id: PeerId },
    /// Triggers the election timeout of several peers, in listed order.
    TimeoutElections { peer_ids: Vec<PeerId> },
    /// Delivers a queued peer request of a peer.
    TransmitPeerRequest { peer_id: PeerId, request_id: RequestId },
    /// Delivers several queued peer requests of a peer, in listed order.
    TransmitPeerRequests { peer_id: PeerId, request_ids: Vec<RequestId> },
    /// Drops a queued peer request of a peer.
    DropPeerRequest { peer_id: PeerId, request_id: RequestId },
    /// Drops several queued peer requests of a peer, in listed order.
    DropPeerRequests { peer_id: PeerId, request_ids: Vec<RequestId> },
    /// Delivers a queued peer reply of a peer.
    TransmitPeerReply { peer_id: PeerId, replied_peer_id_and_request_id: (PeerId, RequestId) },
    /// Delivers several queued peer replies of a peer, in listed order.
    TransmitPeerReplies {
        peer_id: PeerId,
        replied_peer_ids_and_request_ids: Vec<(PeerId, RequestId)>,
    },
    /// Drops a queued peer reply of a peer.
    DropPeerReply { peer_id: PeerId, replied_peer_id_and_request_id: (PeerId, RequestId) },
    /// Drops several queued peer replies of a peer, in listed order.
    DropPeerReplies { peer_id: PeerId, replied_peer_ids_and_request_ids: Vec<(PeerId, RequestId)> },
    /// Triggers the heartbeat timeout of a peer.
    TimeoutHeartbeat { peer_id: PeerId },
    /// Applies committed entries of one peer, or of all peers when `None`.
    ApplyCommitted { peer_id: Option<PeerId> },
    /// Sends a command from a client.
    SendCommand { client_id: ClientId, peer_id: Option<PeerId>, command: Command },
    /// Sends a query from a client.
    SendQuery { client_id: ClientId, peer_id: Option<PeerId>, query: Query },
    /// Delivers a queued request of a client.
    TransmitClientRequest { client_id: ClientId, request_id: RequestId },
    /// Delivers a queued client reply of a peer.
    TransmitClientReply { peer_id: PeerId, replied_client_id_and_request_id: (ClientId, RequestId) },
    /// Drops a queued client reply of a peer.
    DropClientReply { peer_id: PeerId, replied_client_id_and_request_id: (ClientId, RequestId) },
    /// Applies updates to the replay peers and checks every live peer
    /// against its replay peer.
    Check { updates: Vec<Update> },
}

/// Mathematical image of an [`Action`].
#[verifier::ext_equal]
pub ghost enum ActionView {
    TimeoutElection { peer_id: PeerId },
    TimeoutElections { peer_ids: Seq<PeerId> },
    TransmitPeerRequest { peer_id: PeerId, request_id: RequestId },
    TransmitPeerRequests { peer_id: PeerId, request_ids: Seq<RequestId> },
    DropPeerRequest { peer_id: PeerId, request_id: RequestId },
    DropPeerRequests { peer_id: PeerId, request_ids: Seq<RequestId> },
    TransmitPeerReply { peer_id: PeerId, replied_peer_id_and_request_id: (PeerId, RequestId) },
    TransmitPeerReplies {
        peer_id: PeerId,
        replied_peer_ids_and_request_ids: Seq<(PeerId, RequestId)>,
    },
    DropPeerReply { peer_id: PeerId, replied_peer_id_and_request_id: (PeerId, RequestId) },
    DropPeerReplies { peer_id: PeerId, replied_peer_ids_and_request_ids: Seq<(PeerId, RequestId)> },
    TimeoutHeartbeat { peer_id: PeerId },
    ApplyCommitted { peer_id: Option<PeerId> },
    SendCommand { client_id: ClientId, peer_id: Option<PeerId>, command: CommandView },
    SendQuery { client_id: ClientId, peer_id: Option<PeerId>, query: QueryView },
    TransmitClientRequest { client_id: ClientId, request_id: RequestId },
    TransmitClientReply { peer_id: PeerId, replied_client_id_and_request_id: (ClientId, RequestId) },
    DropClientReply { peer_id: PeerId, replied_client_id_and_request_id: (ClientId, RequestId) },
    Check { updates: Seq<UpdateView> },
}

impl View for Action {
    type V = ActionView;

    open spec fn view(&self) -> ActionView {
        match self {
            Action::TimeoutElection { peer_id } => ActionView::TimeoutElection {
                peer_id: *peer_id,
            },
            Action::TimeoutElections { peer_ids } => ActionView::TimeoutElections {
                peer_ids: peer_ids@,
            },
            Action::TransmitPeerRequest { peer_id, request_id } => {
                ActionView::TransmitPeerRequest { peer_id: *peer_id, request_id: *request_id }
            },
            Action::TransmitPeerRequests { peer_id, request_ids } => {
                ActionView::TransmitPeerRequests { peer_id: *peer_id, request_ids: request_ids@ }
            },
            Action::DropPeerRequest { peer_id, request_id } => ActionView::DropPeerRequest {
                peer_id: *peer_id,
                request_id: *request_id,
            },
            Action::DropPeerRequests { peer_id, request_ids } => ActionView::DropPeerRequests {
                peer_id: *peer_id,
                request_ids: request_ids@,
            },
            Action::TransmitPeerReply { peer_id, replied_peer_id_and_request_id } => {
                ActionView::TransmitPeerReply {
                    peer_id: *peer_id,
                    replied_peer_id_and_request_id: *replied_peer_id_and_request_id,
                }
            },
            Action::TransmitPeerReplies { peer_id, replied_peer_ids_and_request_ids } => {
                ActionView::TransmitPeerReplies {
                    peer_id: *peer_id,
                    replied_peer_ids_and_request_ids: replied_peer_ids_and_request_ids@,
                }
            },
            Action::DropPeerReply { peer_id, replied_peer_id_and_request_id } => {
                ActionView::DropPeerReply {
                    peer_id: *peer_id,
                    replied_peer_id_and_request_id: *replied_peer_id_and_request_id,
                }
            },
            Action::DropPeerReplies { peer_id, replied_peer_ids_and_request_ids } => {
                ActionView::DropPeerReplies {
                    peer_id: *peer_id,
                    replied_peer_ids_and_request_ids: replied_peer_ids_and_request_ids@,
                }
            },
            Action::TimeoutHeartbeat { peer_id } => ActionView::TimeoutHeartbeat {
                peer_id: *peer_id,
            },
            Action::ApplyCommitted { peer_id } => ActionView::ApplyCommitted { peer_id: *peer_id },
            Action::SendCommand { client_id, peer_id, command } => ActionView::SendCommand {
                client_id: *client_id,
                peer_id: *peer_id,
                command: command@,
            },
            Action::SendQuery { client_id, peer_id, query } => ActionView::SendQuery {
                client_id: *client_id,
                peer_id: *peer_id,
                query: query@,
            },
            Action::TransmitClientRequest { client_id, request_id } => {
                ActionView::TransmitClientRequest {
                    client_id: *client_id,
                    request_id: *request_id,
                }
            },
            Action::TransmitClientReply { peer_id, replied_client_id_and_request_id } => {
                ActionView::TransmitClientReply {
                    peer_id: *peer_id,
                    replied_client_id_and_request_id: *replied_client_id_and_request_id,
                }
            },
            Action::DropClientReply { peer_id, replied_client_id_and_request_id } => {
                ActionView::DropClientReply {
                    peer_id: *peer_id,
                    replied_client_id_and_request_id: *replied_client_id_and_request_id,
                }
            },
            Action::Check { updates } => ActionView::Check {
                updates: Seq::new(updates@.len(), |i: int| updates@[i]@),
            },
        }
    }
}

} // verus!
