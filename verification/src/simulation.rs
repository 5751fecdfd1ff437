//! The deterministic simulation driver and its replay oracle.

use vstd::prelude::*;

use crate::action::{Action, ActionView};
use crate::client::{Client, ClientView, receive_reply_step};
use crate::errors::ClientError;
use crate::message::ClientMessageView;
use crate::peer::{
    Peer, PeerView, apply_committed_step, election_timeout_step, heartbeat_step, peer_inv,
    peer_message_deliverable, peer_transmit_is_request_at, receive_client_message_step,
    receive_peer_message_step,
};
use crate::primitives::{ClientId, Cluster, Consistency, PeerId, RequestId};
use crate::storage::Storage;
use crate::transmit::{ClientTransmitView, PeerTransmitView};
use crate::update::{Update, UpdateView};

verus! {

/// Why a simulation action could not be performed.
#[derive(Clone, Copy, PartialEq, Eq, Structural, Debug)]
pub enum SimulationError {
    /// The addressed peer id lies outside the cluster.
    UnknownPeer { peer_id: PeerId },
    /// The addressed client id does not exist.
    UnknownClient { client_id: ClientId },
    /// No queued peer request with this id exists at the peer.
    MissingPeerRequest { peer_id: PeerId, request_id: RequestId },
    /// No queued peer reply to this peer with this id exists at the peer.
    MissingPeerReply { peer_id: PeerId, replied_peer_id: PeerId, request_id: RequestId },
    /// No queued request with this id exists at the client.
    MissingClientRequest { client_id: ClientId, request_id: RequestId },
    /// No queued reply to this client with this id exists at the peer.
    MissingClientReply { peer_id: PeerId, replied_client_id: ClientId, request_id: RequestId },
    /// Delivering the message would need what the core leaves out: a
    /// snapshot transfer, or index and counter headroom the machine lacks.
    Undeliverable { peer_id: PeerId },
    /// A committed entry to apply is missing from the log.
    CannotApply { peer_id: PeerId },
    /// The client could not submit: an empty cluster, or ids exhausted.
    SendFailed { client_id: ClientId },
    /// A check ran without replay peers.
    ChecksNotEnabled,
    /// A scripted update addressed a missing peer or failed to persist.
    UpdateFailed { peer_id: PeerId },
    /// A live peer's observable state differs from its replay peer's.
    Mismatch { peer_id: PeerId },
}

/// Position of the first queued peer request with the given id, or `-1`.
pub open spec fn peer_request_find(outbox: Seq<PeerTransmitView>, request_id: RequestId) -> int
    decreases outbox.len(),
{
    if outbox.len() == 0 {
        -1
    } else if crate::message::peer_message_is_request(outbox[0].message) && outbox[0].request_id
        == request_id {
        0
    } else {
        let r = peer_request_find(outbox.drop_first(), request_id);
        if r < 0 {
            -1
        } else {
            r + 1
        }
    }
}

/// Position of the first queued peer reply to the given peer with the given
/// id, or `-1`.
pub open spec fn peer_reply_find(
    outbox: Seq<PeerTransmitView>,
    replied_peer_id: PeerId,
    request_id: RequestId,
) -> int
    decreases outbox.len(),
{
    if outbox.len() == 0 {
        -1
    } else if !crate::message::peer_message_is_request(outbox[0].message) && outbox[0].peer_id
        == replied_peer_id && outbox[0].request_id == request_id {
        0
    } else {
        let r = peer_reply_find(outbox.drop_first(), replied_peer_id, request_id);
        if r < 0 {
            -1
        } else {
            r + 1
        }
    }
}

/// Position of the first queued client request with the given id, or `-1`.
pub open spec fn client_request_find(outbox: Seq<ClientTransmitView>, request_id: RequestId) -> int
    decreases outbox.len(),
{
    if outbox.len() == 0 {
        -1
    } else if crate::message::client_message_is_request(outbox[0].message) && outbox[0].request_id
        == request_id {
        0
    } else {
        let r = client_request_find(outbox.drop_first(), request_id);
        if r < 0 {
            -1
        } else {
            r + 1
        }
    }
}

/// Position of the first queued client reply to the given client with the
/// given id, or `-1`.
pub open spec fn client_reply_find(
    outbox: Seq<ClientTransmitView>,
    replied_client_id: ClientId,
    request_id: RequestId,
) -> int
    decreases outbox.len(),
{
    if outbox.len() == 0 {
        -1
    } else if !crate::message::client_message_is_request(outbox[0].message) && outbox[0].client_id
        == replied_client_id && outbox[0].request_id == request_id {
        0
    } else {
        let r = client_reply_find(outbox.drop_first(), replied_client_id, request_id);
        if r < 0 {
            -1
        } else {
            r + 1
        }
    }
}

/// What a first-position finder returns, for queued peer requests.
pub proof fn lemma_peer_request_find(outbox: Seq<PeerTransmitView>, request_id: RequestId)
    ensures
        peer_request_find(outbox, request_id) == -1 ==> forall|j: int|
            0 <= j < outbox.len() ==> !(peer_transmit_is_request_at(outbox, j) && (
            #[trigger] outbox[j]).request_id == request_id),
        peer_request_find(outbox, request_id) != -1 ==> 0 <= peer_request_find(outbox, request_id)
            < outbox.len() && peer_transmit_is_request_at(
            outbox,
            peer_request_find(outbox, request_id),
        ) && outbox[peer_request_find(outbox, request_id)].request_id == request_id && forall|
            j: int,
        |
            0 <= j < peer_request_find(outbox, request_id) ==> !(peer_transmit_is_request_at(
                outbox,
                j,
            ) && (#[trigger] outbox[j]).request_id == request_id),
    decreases outbox.len(),
{
    if outbox.len() > 0 && !(crate::message::peer_message_is_request(outbox[0].message)
        && outbox[0].request_id == request_id) {
        let d = outbox.drop_first();
        lemma_peer_request_find(d, request_id);
        let r = peer_request_find(outbox, request_id);
        if r == -1 {
            assert forall|j: int| 0 <= j < outbox.len() implies !(peer_transmit_is_request_at(
                outbox,
                j,
            ) && (#[trigger] outbox[j]).request_id == request_id) by {
                if j >= 1 {
                    assert(outbox[j] == d[j - 1]);
                }
            }
        } else {
            assert(outbox[r] == d[r - 1]);
            assert forall|j: int| 0 <= j < r implies !(peer_transmit_is_request_at(outbox, j) && (
            #[trigger] outbox[j]).request_id == request_id) by {
                if j >= 1 {
                    assert(outbox[j] == d[j - 1]);
                }
            }
        }
    }
}

/// What a first-position finder returns, for queued peer replies.
pub proof fn lemma_peer_reply_find(
    outbox: Seq<PeerTransmitView>,
    replied_peer_id: PeerId,
    request_id: RequestId,
)
    ensures
        peer_reply_find(outbox, replied_peer_id, request_id) == -1 ==> forall|j: int|
            0 <= j < outbox.len() ==> !(!peer_transmit_is_request_at(outbox, j) && (
            #[trigger] outbox[j]).peer_id == replied_peer_id && outbox[j].request_id == request_id),
        peer_reply_find(outbox, replied_peer_id, request_id) != -1 ==> 0 <= peer_reply_find(
            outbox,
            replied_peer_id,
            request_id,
        ) < outbox.len() && !peer_transmit_is_request_at(
            outbox,
            peer_reply_find(outbox, replied_peer_id, request_id),
        ) && outbox[peer_reply_find(outbox, replied_peer_id, request_id)].peer_id
            == replied_peer_id && outbox[peer_reply_find(outbox, replied_peer_id, request_id)].request_id
            == request_id && forall|j: int|
            0 <= j < peer_reply_find(outbox, replied_peer_id, request_id) ==> !(
            !peer_transmit_is_request_at(outbox, j) && (#[trigger] outbox[j]).peer_id
                == replied_peer_id && outbox[j].request_id == request_id),
    decreases outbox.len(),
{
    if outbox.len() > 0 && !(!crate::message::peer_message_is_request(outbox[0].message)
        && outbox[0].peer_id == replied_peer_id && outbox[0].request_id == request_id) {
        let d = outbox.drop_first();
        lemma_peer_reply_find(d, replied_peer_id, request_id);
        let r = peer_reply_find(outbox, replied_peer_id, request_id);
        if r == -1 {
            assert forall|j: int| 0 <= j < outbox.len() implies !(!peer_transmit_is_request_at(
                outbox,
                j,
            ) && (#[trigger] outbox[j]).peer_id == replied_peer_id && outbox[j].request_id
                == request_id) by {
                if j >= 1 {
                    assert(outbox[j] == d[j - 1]);
                }
            }
        } else {
            assert(outbox[r] == d[r - 1]);
            assert forall|j: int| 0 <= j < r implies !(!peer_transmit_is_request_at(outbox, j) && (
            #[trigger] outbox[j]).peer_id == replied_peer_id && outbox[j].request_id == request_id) by {
                if j >= 1 {
                    assert(outbox[j] == d[j - 1]);
                }
            }
        }
    }
}


/// Peers after one queued peer request of `peer_id` is delivered, or `None`
/// when the request is missing, an id is out of range, or the delivery is
/// one the core cannot take.
pub open spec fn transmit_peer_request_spec(
    peers: Seq<PeerView>,
    peer_id: PeerId,
    request_id: RequestId,
) -> Option<Seq<PeerView>> {
    if !(1 <= peer_id.0 <= peers.len()) {
        None
    } else {
        let sender = peers[peer_id.0 - 1];
        let position = peer_request_find(sender.peer_outbox, request_id);
        if position < 0 {
            None
        } else {
            let transmit = sender.peer_outbox[position];
            if !(1 <= transmit.peer_id.0 <= peers.len()) {
                None
            } else {
                let removed = peers.update(
                    peer_id.0 - 1,
                    PeerView { peer_outbox: sender.peer_outbox.remove(position), ..sender },
                );
                let target = removed[transmit.peer_id.0 - 1];
                if !peer_message_deliverable(
                    target,
                    peer_id,
                    transmit.request_id,
                    transmit.message,
                ) {
                    None
                } else {
                    Some(
                        removed.update(
                            transmit.peer_id.0 - 1,
                            receive_peer_message_step(
                                target,
                                peer_id,
                                transmit.request_id,
                                transmit.message,
                            ),
                        ),
                    )
                }
            }
        }
    }
}

/// Peers after one queued peer request of `peer_id` is dropped, or `None`
/// when it is missing.
pub open spec fn drop_peer_request_spec(
    peers: Seq<PeerView>,
    peer_id: PeerId,
    request_id: RequestId,
) -> Option<Seq<PeerView>> {
    if !(1 <= peer_id.0 <= peers.len()) {
        None
    } else {
        let sender = peers[peer_id.0 - 1];
        let position = peer_request_find(sender.peer_outbox, request_id);
        if position < 0 {
            None
        } else {
            Some(
                peers.update(
                    peer_id.0 - 1,
                    PeerView { peer_outbox: sender.peer_outbox.remove(position), ..sender },
                ),
            )
        }
    }
}

/// Peers after one queued peer reply of `peer_id` is delivered, or `None`.
pub open spec fn transmit_peer_reply_spec(
    peers: Seq<PeerView>,
    peer_id: PeerId,
    replied_peer_id: PeerId,
    request_id: RequestId,
) -> Option<Seq<PeerView>> {
    if !(1 <= peer_id.0 <= peers.len()) {
        None
    } else {
        let sender = peers[peer_id.0 - 1];
        let position = peer_reply_find(sender.peer_outbox, replied_peer_id, request_id);
        if position < 0 {
            None
        } else {
            let transmit = sender.peer_outbox[position];
            if !(1 <= transmit.peer_id.0 <= peers.len()) {
                None
            } else {
                let removed = peers.update(
                    peer_id.0 - 1,
                    PeerView { peer_outbox: sender.peer_outbox.remove(position), ..sender },
                );
                let target = removed[transmit.peer_id.0 - 1];
                if !peer_message_deliverable(
                    target,
                    peer_id,
                    transmit.request_id,
                    transmit.message,
                ) {
                    None
                } else {
                    Some(
                        removed.update(
                            transmit.peer_id.0 - 1,
                            receive_peer_message_step(
                                target,
                                peer_id,
                                transmit.request_id,
                                transmit.message,
                            ),
                        ),
                    )
                }
            }
        }
    }
}

/// Peers after one queued peer reply of `peer_id` is dropped, or `None`.
pub open spec fn drop_peer_reply_spec(
    peers: Seq<PeerView>,
    peer_id: PeerId,
    replied_peer_id: PeerId,
    request_id: RequestId,
) -> Option<Seq<PeerView>> {
    if !(1 <= peer_id.0 <= peers.len()) {
        None
    } else {
        let sender = peers[peer_id.0 - 1];
        let position = peer_reply_find(sender.peer_outbox, replied_peer_id, request_id);
        if position < 0 {
            None
        } else {
            Some(
                peers.update(
                    peer_id.0 - 1,
                    PeerView { peer_outbox: sender.peer_outbox.remove(position), ..sender },
                ),
            )
        }
    }
}

/// Peers after the listed peer requests of `peer_id` are delivered in
/// listed order, each as the singular form; `None` as soon as one cannot.
pub open spec fn transmit_peer_requests_spec(
    peers: Seq<PeerView>,
    peer_id: PeerId,
    request_ids: Seq<RequestId>,
) -> Option<Seq<PeerView>>
    decreases request_ids.len(),
{
    if request_ids.len() == 0 {
        Some(peers)
    } else {
        match transmit_peer_request_spec(peers, peer_id, request_ids[0]) {
            Some(delivered) => transmit_peer_requests_spec(
                delivered,
                peer_id,
                request_ids.drop_first(),
            ),
            None => None,
        }
    }
}

/// Peers after the listed peer requests of `peer_id` are dropped in listed
/// order; `None` as soon as one is missing.
pub open spec fn drop_peer_requests_spec(
    peers: Seq<PeerView>,
    peer_id: PeerId,
    request_ids: Seq<RequestId>,
) -> Option<Seq<PeerView>>
    decreases request_ids.len(),
{
    if request_ids.len() == 0 {
        Some(peers)
    } else {
        match drop_peer_request_spec(peers, peer_id, request_ids[0]) {
            Some(dropped) => drop_peer_requests_spec(dropped, peer_id, request_ids.drop_first()),
            None => None,
        }
    }
}

/// Peers after the listed peer replies of `peer_id` are delivered in
/// listed order; `None` as soon as one cannot be.
pub open spec fn transmit_peer_replies_spec(
    peers: Seq<PeerView>,
    peer_id: PeerId,
    replied_peer_ids_and_request_ids: Seq<(PeerId, RequestId)>,
) -> Option<Seq<PeerView>>
    decreases replied_peer_ids_and_request_ids.len(),
{
    if replied_peer_ids_and_request_ids.len() == 0 {
        Some(peers)
    } else {
        let pair = replied_peer_ids_and_request_ids[0];
        match transmit_peer_reply_spec(peers, peer_id, pair.0, pair.1) {
            Some(delivered) => transmit_peer_replies_spec(
                delivered,
                peer_id,
                replied_peer_ids_and_request_ids.drop_first(),
            ),
            None => None,
        }
    }
}

/// Peers after the listed peer replies of `peer_id` are dropped in listed
/// order; `None` as soon as one is missing.
pub open spec fn drop_peer_replies_spec(
    peers: Seq<PeerView>,
    peer_id: PeerId,
    replied_peer_ids_and_request_ids: Seq<(PeerId, RequestId)>,
) -> Option<Seq<PeerView>>
    decreases replied_peer_ids_and_request_ids.len(),
{
    if replied_peer_ids_and_request_ids.len() == 0 {
        Some(peers)
    } else {
        let pair = replied_peer_ids_and_request_ids[0];
        match drop_peer_reply_spec(peers, peer_id, pair.0, pair.1) {
            Some(dropped) => drop_peer_replies_spec(
                dropped,
                peer_id,
                replied_peer_ids_and_request_ids.drop_first(),
            ),
            None => None,
        }
    }
}

/// Peers after each listed peer's election timeout fires in listed order;
/// `None` as soon as an id is out of range or a peer lacks the headroom.
pub open spec fn timeout_elections_spec(peers: Seq<PeerView>, peer_ids: Seq<PeerId>) -> Option<
    Seq<PeerView>,
>
    decreases peer_ids.len(),
{
    if peer_ids.len() == 0 {
        Some(peers)
    } else {
        let peer_id = peer_ids[0];
        if !(1 <= peer_id.0 <= peers.len()) || !crate::peer::election_timeout_enabled(
            peers[peer_id.0 - 1],
        ) {
            None
        } else {
            timeout_elections_spec(
                peers.update(peer_id.0 - 1, election_timeout_step(peers[peer_id.0 - 1])),
                peer_ids.drop_first(),
            )
        }
    }
}

/// Replay peers after the scripted updates are applied in listed order;
/// `None` as soon as one addresses a peer outside the cluster.
pub open spec fn apply_updates_spec(replay: Seq<PeerView>, updates: Seq<UpdateView>) -> Option<
    Seq<PeerView>,
>
    decreases updates.len(),
{
    if updates.len() == 0 {
        Some(replay)
    } else {
        let update = updates[0];
        if !(1 <= update.peer_id.0 <= replay.len()) {
            None
        } else {
            apply_updates_spec(
                replay.update(
                    update.peer_id.0 - 1,
                    crate::update::apply_changes_spec(replay[update.peer_id.0 - 1], update.changes),
                ),
                updates.drop_first(),
            )
        }
    }
}

/// Whether a check would pass: replay peers exist, every scripted update
/// addresses one, and after applying them every live peer observably
/// equals its replay peer.
pub open spec fn check_passes(
    peers: Seq<PeerView>,
    replay: Seq<PeerView>,
    updates: Seq<UpdateView>,
) -> bool {
    &&& replay.len() > 0
    &&& apply_updates_spec(replay, updates) matches Some(updated) && updated.len() == peers.len()
        && forall|i: int|
        0 <= i < peers.len() ==> observably_equal(#[trigger] peers[i], updated[i])
}

/// Every field the checker compares between a live peer and its replay
/// peer: the full observable state vector but for the client outbox.
pub open spec fn observably_equal(live: PeerView, replay: PeerView) -> bool {
    &&& live.current_term == replay.current_term
    &&& live.voted_for == replay.voted_for
    &&& live.log == replay.log
    &&& live.snapshot == replay.snapshot
    &&& live.commit_index == replay.commit_index
    &&& live.last_applied == replay.last_applied
    &&& live.role == replay.role
    &&& live.machine == replay.machine
    &&& live.peer_outbox == replay.peer_outbox
}

/// The three vectors of state a simulation owns, mathematically: what an
/// action is performed on.
#[verifier::ext_equal]
pub ghost struct SimulationStateView {
    pub clients: Seq<ClientView>,
    pub peers: Seq<PeerView>,
    pub replay: Seq<PeerView>,
}

/// Whether an action can be performed on the state: exactly when `perform`
/// returns `Ok` on it.
pub open spec fn action_enabled(s: SimulationStateView, action: ActionView) -> bool {
    match action {
        ActionView::TimeoutElection { peer_id } => 1 <= peer_id.0 <= s.peers.len()
            && crate::peer::election_timeout_enabled(s.peers[peer_id.0 - 1]),
        ActionView::TimeoutElections { peer_ids } => timeout_elections_spec(
            s.peers,
            peer_ids,
        ) is Some,
        ActionView::TimeoutHeartbeat { peer_id } => 1 <= peer_id.0 <= s.peers.len()
            && crate::peer::heartbeat_enabled(s.peers[peer_id.0 - 1]),
        ActionView::ApplyCommitted { peer_id } => match peer_id {
            Some(peer_id) => 1 <= peer_id.0 <= s.peers.len()
                && crate::peer::apply_committed_enabled(s.peers[peer_id.0 - 1]),
            None => forall|i: int|
                0 <= i < s.peers.len() ==> crate::peer::apply_committed_enabled(
                    #[trigger] s.peers[i],
                ),
        },
        ActionView::TransmitPeerRequest { peer_id, request_id } => transmit_peer_request_spec(
            s.peers,
            peer_id,
            request_id,
        ) is Some,
        ActionView::TransmitPeerRequests { peer_id, request_ids } => transmit_peer_requests_spec(
            s.peers,
            peer_id,
            request_ids,
        ) is Some,
        ActionView::DropPeerRequest { peer_id, request_id } => drop_peer_request_spec(
            s.peers,
            peer_id,
            request_id,
        ) is Some,
        ActionView::DropPeerRequests { peer_id, request_ids } => drop_peer_requests_spec(
            s.peers,
            peer_id,
            request_ids,
        ) is Some,
        ActionView::TransmitPeerReply { peer_id, replied_peer_id_and_request_id } => {
            transmit_peer_reply_spec(
                s.peers,
                peer_id,
                replied_peer_id_and_request_id.0,
                replied_peer_id_and_request_id.1,
            ) is Some
        },
        ActionView::TransmitPeerReplies { peer_id, replied_peer_ids_and_request_ids } => {
            transmit_peer_replies_spec(
                s.peers,
                peer_id,
                replied_peer_ids_and_request_ids,
            ) is Some
        },
        ActionView::DropPeerReply { peer_id, replied_peer_id_and_request_id } => {
            drop_peer_reply_spec(
                s.peers,
                peer_id,
                replied_peer_id_and_request_id.0,
                replied_peer_id_and_request_id.1,
            ) is Some
        },
        ActionView::DropPeerReplies { peer_id, replied_peer_ids_and_request_ids } => {
            drop_peer_replies_spec(
                s.peers,
                peer_id,
                replied_peer_ids_and_request_ids,
            ) is Some
        },
        ActionView::SendCommand { client_id, peer_id, command } => 1 <= client_id.0
            <= s.clients.len() && s.clients[client_id.0 - 1].next_request_id < usize::MAX && !(
        peer_id is None && s.clients[client_id.0 - 1].leader is None && s.clients[client_id.0
            - 1].cluster.len() == 0),
        ActionView::SendQuery { client_id, peer_id, query } => 1 <= client_id.0 <= s.clients.len()
            && s.clients[client_id.0 - 1].next_request_id < usize::MAX && !(peer_id is None
            && s.clients[client_id.0 - 1].leader is None && s.clients[client_id.0
            - 1].cluster.len() == 0),
        ActionView::TransmitClientRequest { client_id, request_id } => {
            transmit_client_request_spec(s.clients, s.peers, client_id, request_id) is Some
        },
        ActionView::TransmitClientReply { peer_id, replied_client_id_and_request_id } => {
            transmit_client_reply_spec(
                s.peers,
                s.clients,
                peer_id,
                replied_client_id_and_request_id.0,
                replied_client_id_and_request_id.1,
            ) is Some
        },
        ActionView::DropClientReply { peer_id, replied_client_id_and_request_id } => {
            drop_client_reply_spec(
                s.peers,
                peer_id,
                replied_client_id_and_request_id.0,
                replied_client_id_and_request_id.1,
            ) is Some
        },
        ActionView::Check { updates } => check_passes(s.peers, s.replay, updates),
    }
}

/// How the state steps when the action is performed successfully.
pub open spec fn action_step_rel(
    before: SimulationStateView,
    action: ActionView,
    after: SimulationStateView,
) -> bool {
    match action {
        ActionView::TimeoutElection { peer_id } => after.peers == before.peers.update(
            peer_id.0 - 1,
            election_timeout_step(before.peers[peer_id.0 - 1]),
        ) && after.clients == before.clients && after.replay == before.replay,
        ActionView::TimeoutElections { peer_ids } => Some(after.peers) == timeout_elections_spec(
            before.peers,
            peer_ids,
        ) && after.clients == before.clients && after.replay == before.replay,
        ActionView::TimeoutHeartbeat { peer_id } => after.peers == before.peers.update(
            peer_id.0 - 1,
            heartbeat_step(before.peers[peer_id.0 - 1]),
        ) && after.clients == before.clients && after.replay == before.replay,
        ActionView::ApplyCommitted { peer_id } => after.clients == before.clients && after.replay
            == before.replay && (match peer_id {
            Some(peer_id) => after.peers == before.peers.update(
                peer_id.0 - 1,
                apply_committed_step(before.peers[peer_id.0 - 1]),
            ),
            None => after.peers.len() == before.peers.len() && forall|i: int|
                0 <= i < before.peers.len() ==> (#[trigger] after.peers[i])
                    == apply_committed_step(before.peers[i]),
        }),
        ActionView::TransmitPeerRequest { peer_id, request_id } => Some(after.peers)
            == transmit_peer_request_spec(before.peers, peer_id, request_id) && after.clients
            == before.clients && after.replay == before.replay,
        ActionView::TransmitPeerRequests { peer_id, request_ids } => Some(after.peers)
            == transmit_peer_requests_spec(before.peers, peer_id, request_ids) && after.clients
            == before.clients && after.replay == before.replay,
        ActionView::DropPeerRequest { peer_id, request_id } => Some(after.peers)
            == drop_peer_request_spec(before.peers, peer_id, request_id) && after.clients
            == before.clients && after.replay == before.replay,
        ActionView::DropPeerRequests { peer_id, request_ids } => Some(after.peers)
            == drop_peer_requests_spec(before.peers, peer_id, request_ids) && after.clients
            == before.clients && after.replay == before.replay,
        ActionView::TransmitPeerReply { peer_id, replied_peer_id_and_request_id } => Some(
            after.peers,
        ) == transmit_peer_reply_spec(
            before.peers,
            peer_id,
            replied_peer_id_and_request_id.0,
            replied_peer_id_and_request_id.1,
        ) && after.clients == before.clients && after.replay == before.replay,
        ActionView::TransmitPeerReplies { peer_id, replied_peer_ids_and_request_ids } => Some(
            after.peers,
        ) == transmit_peer_replies_spec(
            before.peers,
            peer_id,
            replied_peer_ids_and_request_ids,
        ) && after.clients == before.clients && after.replay == before.replay,
        ActionView::DropPeerReply { peer_id, replied_peer_id_and_request_id } => Some(after.peers)
            == drop_peer_reply_spec(
            before.peers,
            peer_id,
            replied_peer_id_and_request_id.0,
            replied_peer_id_and_request_id.1,
        ) && after.clients == before.clients && after.replay == before.replay,
        ActionView::DropPeerReplies { peer_id, replied_peer_ids_and_request_ids } => Some(
            after.peers,
        ) == drop_peer_replies_spec(
            before.peers,
            peer_id,
            replied_peer_ids_and_request_ids,
        ) && after.clients == before.clients && after.replay == before.replay,
        ActionView::SendCommand { client_id, peer_id, command } => after.peers == before.peers
            && after.replay == before.replay && 1 <= client_id.0 <= before.clients.len() && (
        exists|target: PeerId|
            #[trigger] crate::client::send_target_ok(
                before.clients[client_id.0 - 1],
                peer_id,
                target,
            ) && after.clients == before.clients.update(
                client_id.0 - 1,
                crate::client::client_after_command(
                    before.clients[client_id.0 - 1],
                    target,
                    command,
                ),
            )),
        ActionView::SendQuery { client_id, peer_id, query } => after.peers == before.peers
            && after.replay == before.replay && 1 <= client_id.0 <= before.clients.len() && (
        exists|target: PeerId|
            #[trigger] crate::client::send_target_ok(
                before.clients[client_id.0 - 1],
                peer_id,
                target,
            ) && after.clients == before.clients.update(
                client_id.0 - 1,
                crate::client::client_after_query(before.clients[client_id.0 - 1], target, query),
            )),
        ActionView::TransmitClientRequest { client_id, request_id } => Some(
            (after.clients, after.peers),
        ) == transmit_client_request_spec(before.clients, before.peers, client_id, request_id)
            && after.replay == before.replay,
        ActionView::TransmitClientReply { peer_id, replied_client_id_and_request_id } => Some(
            (after.peers, after.clients),
        ) == transmit_client_reply_spec(
            before.peers,
            before.clients,
            peer_id,
            replied_client_id_and_request_id.0,
            replied_client_id_and_request_id.1,
        ) && after.replay == before.replay,
        ActionView::DropClientReply { peer_id, replied_client_id_and_request_id } => Some(
            after.peers,
        ) == drop_client_reply_spec(
            before.peers,
            peer_id,
            replied_client_id_and_request_id.0,
            replied_client_id_and_request_id.1,
        ) && after.clients == before.clients && after.replay == before.replay,
        ActionView::Check { updates } => after.peers == before.peers && after.clients
            == before.clients && Some(after.replay) == apply_updates_spec(before.replay, updates),
    }
}

/// What still holds of the state when the action fails with the error.
pub open spec fn action_failure_rel(
    before: SimulationStateView,
    action: ActionView,
    error: SimulationError,
    after: SimulationStateView,
) -> bool {
    match action {
        ActionView::TimeoutElections { .. } | ActionView::TransmitPeerRequests { .. }
            | ActionView::DropPeerRequests { .. } | ActionView::TransmitPeerReplies { .. }
            | ActionView::DropPeerReplies { .. } => after.clients == before.clients && after.replay
            == before.replay && after.peers.len() == before.peers.len(),
        ActionView::SendCommand { client_id, .. } | ActionView::SendQuery { client_id, .. } => {
            &&& after.peers == before.peers
            &&& after.replay == before.replay
            &&& (after.clients == before.clients || (1 <= client_id.0 <= before.clients.len()
                && after.clients == before.clients.update(
                client_id.0 - 1,
                ClientView {
                    next_request_id: (before.clients[client_id.0 - 1].next_request_id + 1) as usize,
                    ..before.clients[client_id.0 - 1]
                },
            )))
        },
        ActionView::Check { updates } => {
            &&& after.peers == before.peers
            &&& after.clients == before.clients
            &&& match error {
                SimulationError::ChecksNotEnabled => (before.replay.len() == 0 && after.replay
                    == before.replay) || (Some(after.replay) == apply_updates_spec(
                    before.replay,
                    updates,
                ) && after.replay.len() != before.peers.len()),
                SimulationError::UpdateFailed { .. } => apply_updates_spec(
                    before.replay,
                    updates,
                ) is None,
                SimulationError::Mismatch { peer_id } => Some(after.replay) == apply_updates_spec(
                    before.replay,
                    updates,
                ) && 1 <= peer_id.0 <= before.peers.len() && !observably_equal(
                    before.peers[peer_id.0 - 1],
                    after.replay[peer_id.0 - 1],
                ) && forall|i: int|
                    0 <= i < peer_id.0 - 1 ==> observably_equal(
                        #[trigger] before.peers[i],
                        after.replay[i],
                    ),
                _ => false,
            }
        },
        _ => after == before,
    }
}

/// The listed actions, mathematically.
pub open spec fn views_of_actions(actions: Seq<Action>) -> Seq<ActionView> {
    Seq::new(actions.len(), |i: int| actions[i]@)
}

/// Whether performing the listed actions in order, each enabled and
/// stepping as [`action_step_rel`] says, can carry the state from `before`
/// to `after`.
pub open spec fn actions_run_to(
    before: SimulationStateView,
    actions: Seq<ActionView>,
    after: SimulationStateView,
) -> bool
    decreases actions.len(),
{
    if actions.len() == 0 {
        after == before
    } else {
        exists|mid: SimulationStateView|
            #[trigger] action_step_rel(before, actions[0], mid) && action_enabled(
                before,
                actions[0],
            ) && actions_run_to(mid, actions.drop_first(), after)
    }
}

/// One more enabled action extends a run.
pub proof fn lemma_actions_run_to_extend(
    before: SimulationStateView,
    actions: Seq<ActionView>,
    mid: SimulationStateView,
    action: ActionView,
    after: SimulationStateView,
)
    requires
        actions_run_to(before, actions, mid),
        action_enabled(mid, action),
        action_step_rel(mid, action, after),
    ensures
        actions_run_to(before, actions.push(action), after),
    decreases actions.len(),
{
    if actions.len() == 0 {
        assert(actions.push(action)[0] == action);
        assert(actions.push(action).drop_first() =~= Seq::<ActionView>::empty());
        assert(mid == before);
        assert(action_step_rel(before, actions.push(action)[0], after));
        assert(actions_run_to(after, actions.push(action).drop_first(), after));
    } else {
        let first_mid = choose|m: SimulationStateView|
            #[trigger] action_step_rel(before, actions[0], m) && action_enabled(before, actions[0])
                && actions_run_to(m, actions.drop_first(), mid);
        lemma_actions_run_to_extend(first_mid, actions.drop_first(), mid, action, after);
        assert(actions.push(action)[0] == actions[0]);
        assert(actions.push(action).drop_first() =~= actions.drop_first().push(action));
        assert(action_step_rel(before, actions.push(action)[0], first_mid));
    }
}

/// A deterministic driver around a cluster: it owns the clients and peers,
/// delivers or drops their queued transmits on command, and can check the
/// live peers against a scripted replay cluster.
pub struct Simulation<S: Storage> {
    clients: Vec<Client>,
    consistency: Consistency,
    peers: Vec<Peer<S>>,
    replay_peers: Vec<Peer<S>>,
}

impl<S: Storage> Simulation<S> {
    /// The live peers, mathematically.
    pub closed spec fn peers_view(&self) -> Seq<PeerView> {
        Seq::new(self.peers@.len(), |i: int| self.peers@[i]@)
    }

    /// The clients, mathematically.
    pub closed spec fn clients_view(&self) -> Seq<ClientView> {
        Seq::new(self.clients@.len(), |i: int| self.clients@[i]@)
    }

    /// The replay peers, mathematically.
    pub closed spec fn replay_view(&self) -> Seq<PeerView> {
        Seq::new(self.replay_peers@.len(), |i: int| self.replay_peers@[i]@)
    }

    /// The whole owned state, mathematically.
    pub open spec fn state_view(&self) -> SimulationStateView {
        SimulationStateView {
            clients: self.clients_view(),
            peers: self.peers_view(),
            replay: self.replay_view(),
        }
    }

    /// The invariant the driver keeps: every live peer keeps the peer
    /// invariant on a reliable storage, and every replay storage is
    /// reliable too.
    pub closed spec fn inv(&self) -> bool {
        &&& forall|i: int|
            0 <= i < self.peers@.len() ==> peer_inv((#[trigger] self.peers@[i])@) && self.peers@[i].storage_reliable()
        &&& forall|i: int|
            0 <= i < self.replay_peers@.len() ==> (#[trigger] self.replay_peers@[i]).storage_reliable()
    }

    /// Creates a new simulation: one peer per initial storage, ids one
    /// through the count in order, and the given number of clients.
    pub fn new(
        consistency: Consistency,
        initial_peer_storages: Vec<S>,
        number_of_clients: usize,
    ) -> (r: Simulation<S>)
        requires
            number_of_clients >= 1,
            initial_peer_storages@.len() >= 1,
            initial_peer_storages@.len() < usize::MAX,
            number_of_clients < usize::MAX,
            forall|i: int|
                0 <= i < initial_peer_storages@.len() ==> (#[trigger] initial_peer_storages@[i]).reliable(),
        ensures
            r.inv(),
            r.peers_view().len() == initial_peer_storages@.len(),
            r.clients_view().len() == number_of_clients,
            r.replay_view().len() == 0,
            forall|i: int|
                0 <= i < r.peers_view().len() ==> (#[trigger] r.peers_view()[i]).id == PeerId(
                    (i + 1) as usize,
                ) && r.peers_view()[i].current_term == initial_peer_storages@[i].model().current_term
                    && r.peers_view()[i].voted_for == initial_peer_storages@[i].model().voted_for
                    && r.peers_view()[i].log == initial_peer_storages@[i].model().log
                    && r.peers_view()[i].snapshot == initial_peer_storages@[i].model().snapshot
                    && r.peers_view()[i].role == crate::role::RoleView::Follower(
                    crate::role::FollowerState { leader_id: None },
                ) && r.peers_view()[i].peer_outbox.len() == 0,
    {
        let number_of_peers = initial_peer_storages.len();
        let mut members: Vec<PeerId> = Vec::new();
        let mut i: usize = 0;
        while i < number_of_peers
            invariant
                i <= number_of_peers,
                members@.len() == i,
                forall|j: int| 0 <= j < i ==> (#[trigger] members@[j]) == PeerId((j + 1) as usize),
                forall|j1: int, j2: int|
                    0 <= j1 < j2 < i ==> (#[trigger] members@[j1]).0 < (#[trigger] members@[j2]).0,
            decreases number_of_peers - i,
        {
            members.push(PeerId(i + 1));
            i = i + 1;
        }
        let cluster = Cluster::new(members);

        let mut clients: Vec<Client> = Vec::new();
        let mut c: usize = 0;
        while c < number_of_clients
            invariant
                c <= number_of_clients,
                clients@.len() == c,
            decreases number_of_clients - c,
        {
            clients.push(Client::new(ClientId(c + 1), cluster.clone()));
            c = c + 1;
        }

        let mut peers: Vec<Peer<S>> = Vec::new();
        let ghost initial = initial_peer_storages@;
        let mut storages = initial_peer_storages;
        let mut p: usize = 0;
        while p < number_of_peers
            invariant
                p <= number_of_peers,
                peers@.len() == p,
                storages@.len() == number_of_peers - p,
                cluster.wf(),
                cluster@.len() == number_of_peers,
                forall|j: int|
                    0 <= j < cluster@.len() ==> (#[trigger] cluster@[j]) == PeerId(
                        (j + 1) as usize,
                    ),
                initial == initial_peer_storages@,
                initial.len() == number_of_peers,
                forall|j: int|
                    0 <= j < storages@.len() ==> (#[trigger] storages@[j]) == initial[p + j],
                forall|j: int|
                    0 <= j < p ==> peer_inv((#[trigger] peers@[j])@) && peers@[j].storage_reliable()
                        && peers@[j]@.id == PeerId((j + 1) as usize) && peers@[j]@.current_term
                        == initial[j].model().current_term && peers@[j]@.voted_for
                        == initial[j].model().voted_for && peers@[j]@.log
                        == initial[j].model().log && peers@[j]@.snapshot
                        == initial[j].model().snapshot && peers@[j]@.role
                        == crate::role::RoleView::Follower(
                        crate::role::FollowerState { leader_id: None },
                    ) && peers@[j]@.peer_outbox.len() == 0,
                forall|i2: int| 0 <= i2 < initial.len() ==> (#[trigger] initial[i2]).reliable(),
            decreases number_of_peers - p,
        {
            let storage = storages.remove(0);
            let peer_id = PeerId(p + 1);
            proof {
                assert(cluster@[p as int] == peer_id);
                assert(cluster@.contains(peer_id));
            }
            peers.push(Peer::new(peer_id, cluster.clone(), consistency, storage));
            p = p + 1;
        }

        let r = Simulation { clients, consistency, peers, replay_peers: Vec::new() };
        r
    }

    /// Enables checks: builds the parallel cluster of replay peers from
    /// fresh storages, one per live peer.
    pub fn enable_checks(self, replay_storages: Vec<S>) -> (r: Simulation<S>)
        requires
            self.inv(),
            replay_storages@.len() == self.peers_view().len(),
            replay_storages@.len() < usize::MAX,
            forall|i: int|
                0 <= i < replay_storages@.len() ==> (#[trigger] replay_storages@[i]).reliable(),
        ensures
            r.inv(),
            r.peers_view() == self.peers_view(),
            r.clients_view() == self.clients_view(),
            r.replay_view().len() == replay_storages@.len(),
    {
        let number_of_peers = replay_storages.len();
        let mut members: Vec<PeerId> = Vec::new();
        let mut i: usize = 0;
        while i < number_of_peers
            invariant
                i <= number_of_peers,
                number_of_peers < usize::MAX,
                members@.len() == i,
                forall|j: int| 0 <= j < i ==> (#[trigger] members@[j]) == PeerId((j + 1) as usize),
                forall|j1: int, j2: int|
                    0 <= j1 < j2 < i ==> (#[trigger] members@[j1]).0 < (#[trigger] members@[j2]).0,
            decreases number_of_peers - i,
        {
            members.push(PeerId(i + 1));
            i = i + 1;
        }
        let cluster = Cluster::new(members);

        let mut replay_peers: Vec<Peer<S>> = Vec::new();
        let mut storages = replay_storages;
        let mut p: usize = 0;
        while p < number_of_peers
            invariant
                p <= number_of_peers,
                replay_peers@.len() == p,
                storages@.len() == number_of_peers - p,
                cluster.wf(),
                cluster@.len() == number_of_peers,
                forall|j: int|
                    0 <= j < cluster@.len() ==> (#[trigger] cluster@[j]) == PeerId(
                        (j + 1) as usize,
                    ),
                forall|j: int|
                    0 <= j < storages@.len() ==> (#[trigger] storages@[j]).reliable(),
                forall|j: int|
                    0 <= j < p ==> (#[trigger] replay_peers@[j]).storage_reliable(),
            decreases number_of_peers - p,
        {
            let storage = storages.remove(0);
            let peer_id = PeerId(p + 1);
            proof {
                assert(cluster@[p as int] == peer_id);
                assert(cluster@.contains(peer_id));
            }
            replay_peers.push(Peer::new(peer_id, cluster.clone(), self.consistency, storage));
            p = p + 1;
        }

        let r = Simulation {
            clients: self.clients,
            consistency: self.consistency,
            peers: self.peers,
            replay_peers,
        };
        proof {
            assert(r.peers_view() =~= self.peers_view());
            assert(r.clients_view() =~= self.clients_view());
        }
        r
    }

    /// Gets the number of clients in the simulation.
    pub fn number_of_clients(&self) -> (r: usize)
        ensures
            r == self.clients_view().len(),
    {
        self.clients.len()
    }

    /// Gets the number of peers in the simulation.
    pub fn number_of_peers(&self) -> (r: usize)
        ensures
            r == self.peers_view().len(),
    {
        self.peers.len()
    }

    /// Gets the peer with the given identifier.
    pub fn peer(&self, peer_id: PeerId) -> (r: &Peer<S>)
        requires
            1 <= peer_id.0 <= self.peers_view().len(),
        ensures
            r@ == self.peers_view()[peer_id.0 - 1],
    {
        &self.peers[peer_id.0 - 1]
    }

    /// Gets the client with the given identifier.
    pub fn client(&self, client_id: ClientId) -> (r: &Client)
        requires
            1 <= client_id.0 <= self.clients_view().len(),
        ensures
            r@ == self.clients_view()[client_id.0 - 1],
    {
        &self.clients[client_id.0 - 1]
    }
}


impl<S: Storage> Simulation<S> {
    /// Delivers the first queued peer request of `peer_id` with the given
    /// id: removes it from the sender's queue and hands it to its target.
    fn deliver_peer_request(&mut self, peer_id: PeerId, request_id: RequestId) -> (r: Result<
        (),
        SimulationError,
    >)
        requires
            old(self).inv(),
        ensures
            final(self).inv(),
            final(self).clients_view() == old(self).clients_view(),
            final(self).replay_view() == old(self).replay_view(),
            match r {
                Ok(_) => Some(final(self).peers_view()) == transmit_peer_request_spec(
                    old(self).peers_view(),
                    peer_id,
                    request_id,
                ),
                Err(_) => final(self).peers_view() == old(self).peers_view()
                    && transmit_peer_request_spec(old(self).peers_view(), peer_id, request_id)
                    is None,
            },
    {
        if peer_id.0 < 1 || peer_id.0 > self.peers.len() {
            proof {
                assert(self.peers_view() =~= old(self).peers_view());
            }
            return Err(SimulationError::UnknownPeer { peer_id });
        }
        let index = peer_id.0 - 1;
        proof {
            lemma_peer_request_find(self.peers_view()[index as int].peer_outbox, request_id);
        }
        let position = match self.peers[index].position_of_peer_request(request_id) {
            Some(position) => position,
            None => {
                proof {
                    assert(self.peers_view() =~= old(self).peers_view());
                }
                return Err(SimulationError::MissingPeerRequest { peer_id, request_id });
            },
        };
        proof {
            let outbox = self.peers_view()[index as int].peer_outbox;
            let found = peer_request_find(outbox, request_id);
            if found < position as int {
                assert(!(peer_transmit_is_request_at(outbox, found) && outbox[found].request_id
                    == request_id));
            } else if found > position as int {
                assert(!(peer_transmit_is_request_at(outbox, position as int) && outbox[position as int].request_id
                    == request_id));
            }
            assert(found == position as int);
        }
        let target_id = self.peers[index].buffered_peer_transmits()[position].peer_id();
        if target_id.0 < 1 || target_id.0 > self.peers.len() {
            proof {
                assert(self.peers_view() =~= old(self).peers_view());
            }
            return Err(SimulationError::UnknownPeer { peer_id: target_id });
        }
        let target_index = target_id.0 - 1;
        let deliverable = {
            let sender = &self.peers[index];
            let queued = &sender.buffered_peer_transmits()[position];
            self.peers[target_index].can_receive_peer_message(
                peer_id,
                queued.request_id(),
                queued.message(),
            )
        };
        if !deliverable {
            proof {
                assert(self.peers_view() =~= old(self).peers_view());
                let peers0 = old(self).peers_view();
                let sender = peers0[index as int];
                let transmit = sender.peer_outbox[position as int];
                let removed = peers0.update(
                    index as int,
                    PeerView { peer_outbox: sender.peer_outbox.remove(position as int), ..sender },
                );
                assert(removed[target_index as int] =~~= (PeerView {
                    peer_outbox: removed[target_index as int].peer_outbox,
                    ..peers0[target_index as int]
                }));
            }
            return Err(SimulationError::Undeliverable { peer_id: target_id });
        }
        let transmit = self.peers[index].remove_peer_transmit(position);
        let ghost removed_view = self.peers_view();
        proof {
            let peers0 = old(self).peers_view();
            let sender = peers0[index as int];
            assert(removed_view =~= peers0.update(
                index as int,
                PeerView { peer_outbox: sender.peer_outbox.remove(position as int), ..sender },
            ));
            assert(removed_view[target_index as int] =~~= (PeerView {
                peer_outbox: removed_view[target_index as int].peer_outbox,
                ..peers0[target_index as int]
            }));
        }
        let delivery_request_id = transmit.request_id();
        self.peers[target_index].receive_peer_message(
            peer_id,
            delivery_request_id,
            transmit.into_message(),
        );
        proof {
            let peers0 = old(self).peers_view();
            let sender = peers0[index as int];
            let queued = sender.peer_outbox[position as int];
            assert(self.peers_view() =~= removed_view.update(
                target_index as int,
                receive_peer_message_step(
                    removed_view[target_index as int],
                    peer_id,
                    queued.request_id,
                    queued.message,
                ),
            ));
        }
        Ok(())
    }

    /// Drops the first queued peer request of `peer_id` with the given id.
    fn discard_peer_request(&mut self, peer_id: PeerId, request_id: RequestId) -> (r: Result<
        (),
        SimulationError,
    >)
        requires
            old(self).inv(),
        ensures
            final(self).inv(),
            final(self).clients_view() == old(self).clients_view(),
            final(self).replay_view() == old(self).replay_view(),
            match r {
                Ok(_) => Some(final(self).peers_view()) == drop_peer_request_spec(
                    old(self).peers_view(),
                    peer_id,
                    request_id,
                ),
                Err(_) => final(self).peers_view() == old(self).peers_view()
                    && drop_peer_request_spec(old(self).peers_view(), peer_id, request_id) is None,
            },
    {
        if peer_id.0 < 1 || peer_id.0 > self.peers.len() {
            proof {
                assert(self.peers_view() =~= old(self).peers_view());
            }
            return Err(SimulationError::UnknownPeer { peer_id });
        }
        let index = peer_id.0 - 1;
        proof {
            lemma_peer_request_find(self.peers_view()[index as int].peer_outbox, request_id);
        }
        let position = match self.peers[index].position_of_peer_request(request_id) {
            Some(position) => position,
            None => {
                proof {
                    assert(self.peers_view() =~= old(self).peers_view());
                }
                return Err(SimulationError::MissingPeerRequest { peer_id, request_id });
            },
        };
        proof {
            let outbox = self.peers_view()[index as int].peer_outbox;
            let found = peer_request_find(outbox, request_id);
            if found < position as int {
                assert(!(peer_transmit_is_request_at(outbox, found) && outbox[found].request_id
                    == request_id));
            } else if found > position as int {
                assert(!(peer_transmit_is_request_at(outbox, position as int) && outbox[position as int].request_id
                    == request_id));
            }
            assert(found == position as int);
        }
        let _ = self.peers[index].remove_peer_transmit(position);
        proof {
            let peers0 = old(self).peers_view();
            let sender = peers0[index as int];
            assert(self.peers_view() =~= peers0.update(
                index as int,
                PeerView { peer_outbox: sender.peer_outbox.remove(position as int), ..sender },
            ));
        }
        Ok(())
    }

    /// Delivers the first queued peer reply of `peer_id` addressed to the
    /// given peer under the given id.
    fn deliver_peer_reply(
        &mut self,
        peer_id: PeerId,
        replied_peer_id: PeerId,
        request_id: RequestId,
    ) -> (r: Result<(), SimulationError>)
        requires
            old(self).inv(),
        ensures
            final(self).inv(),
            final(self).clients_view() == old(self).clients_view(),
            final(self).replay_view() == old(self).replay_view(),
            match r {
                Ok(_) => Some(final(self).peers_view()) == transmit_peer_reply_spec(
                    old(self).peers_view(),
                    peer_id,
                    replied_peer_id,
                    request_id,
                ),
                Err(_) => final(self).peers_view() == old(self).peers_view()
                    && transmit_peer_reply_spec(
                    old(self).peers_view(),
                    peer_id,
                    replied_peer_id,
                    request_id,
                ) is None,
            },
    {
        if peer_id.0 < 1 || peer_id.0 > self.peers.len() {
            proof {
                assert(self.peers_view() =~= old(self).peers_view());
            }
            return Err(SimulationError::UnknownPeer { peer_id });
        }
        let index = peer_id.0 - 1;
        proof {
            lemma_peer_reply_find(
                self.peers_view()[index as int].peer_outbox,
                replied_peer_id,
                request_id,
            );
        }
        let position = match self.peers[index].position_of_peer_reply(replied_peer_id, request_id) {
            Some(position) => position,
            None => {
                proof {
                    assert(self.peers_view() =~= old(self).peers_view());
                }
                return Err(
                    SimulationError::MissingPeerReply { peer_id, replied_peer_id, request_id },
                );
            },
        };
        proof {
            let outbox = self.peers_view()[index as int].peer_outbox;
            let found = peer_reply_find(outbox, replied_peer_id, request_id);
            if found < position as int {
                assert(!(!peer_transmit_is_request_at(outbox, found) && outbox[found].peer_id
                    == replied_peer_id && outbox[found].request_id == request_id));
            } else if found > position as int {
                assert(!(!peer_transmit_is_request_at(outbox, position as int)
                    && outbox[position as int].peer_id == replied_peer_id
                    && outbox[position as int].request_id == request_id));
            }
            assert(found == position as int);
        }
        let target_id = self.peers[index].buffered_peer_transmits()[position].peer_id();
        if target_id.0 < 1 || target_id.0 > self.peers.len() {
            proof {
                assert(self.peers_view() =~= old(self).peers_view());
            }
            return Err(SimulationError::UnknownPeer { peer_id: target_id });
        }
        let target_index = target_id.0 - 1;
        let deliverable = {
            let sender = &self.peers[index];
            let queued = &sender.buffered_peer_transmits()[position];
            self.peers[target_index].can_receive_peer_message(
                peer_id,
                queued.request_id(),
                queued.message(),
            )
        };
        if !deliverable {
            proof {
                assert(self.peers_view() =~= old(self).peers_view());
                let peers0 = old(self).peers_view();
                let sender = peers0[index as int];
                let removed = peers0.update(
                    index as int,
                    PeerView { peer_outbox: sender.peer_outbox.remove(position as int), ..sender },
                );
                assert(removed[target_index as int] =~~= (PeerView {
                    peer_outbox: removed[target_index as int].peer_outbox,
                    ..peers0[target_index as int]
                }));
            }
            return Err(SimulationError::Undeliverable { peer_id: target_id });
        }
        let transmit = self.peers[index].remove_peer_transmit(position);
        let ghost removed_view = self.peers_view();
        proof {
            let peers0 = old(self).peers_view();
            let sender = peers0[index as int];
            assert(removed_view =~= peers0.update(
                index as int,
                PeerView { peer_outbox: sender.peer_outbox.remove(position as int), ..sender },
            ));
            assert(removed_view[target_index as int] =~~= (PeerView {
                peer_outbox: removed_view[target_index as int].peer_outbox,
                ..peers0[target_index as int]
            }));
        }
        let delivery_request_id = transmit.request_id();
        self.peers[target_index].receive_peer_message(
            peer_id,
            delivery_request_id,
            transmit.into_message(),
        );
        proof {
            let peers0 = old(self).peers_view();
            let sender = peers0[index as int];
            let queued = sender.peer_outbox[position as int];
            assert(self.peers_view() =~= removed_view.update(
                target_index as int,
                receive_peer_message_step(
                    removed_view[target_index as int],
                    peer_id,
                    queued.request_id,
                    queued.message,
                ),
            ));
        }
        Ok(())
    }

    /// Drops the first queued peer reply of `peer_id` addressed to the
    /// given peer under the given id.
    fn discard_peer_reply(
        &mut self,
        peer_id: PeerId,
        replied_peer_id: PeerId,
        request_id: RequestId,
    ) -> (r: Result<(), SimulationError>)
        requires
            old(self).inv(),
        ensures
            final(self).inv(),
            final(self).clients_view() == old(self).clients_view(),
            final(self).replay_view() == old(self).replay_view(),
            match r {
                Ok(_) => Some(final(self).peers_view()) == drop_peer_reply_spec(
                    old(self).peers_view(),
                    peer_id,
                    replied_peer_id,
                    request_id,
                ),
                Err(_) => final(self).peers_view() == old(self).peers_view()
                    && drop_peer_reply_spec(
                    old(self).peers_view(),
                    peer_id,
                    replied_peer_id,
                    request_id,
                ) is None,
            },
    {
        if peer_id.0 < 1 || peer_id.0 > self.peers.len() {
            proof {
                assert(self.peers_view() =~= old(self).peers_view());
            }
            return Err(SimulationError::UnknownPeer { peer_id });
        }
        let index = peer_id.0 - 1;
        proof {
            lemma_peer_reply_find(
                self.peers_view()[index as int].peer_outbox,
                replied_peer_id,
                request_id,
            );
        }
        let position = match self.peers[index].position_of_peer_reply(replied_peer_id, request_id) {
            Some(position) => position,
            None => {
                proof {
                    assert(self.peers_view() =~= old(self).peers_view());
                }
                return Err(
                    SimulationError::MissingPeerReply { peer_id, replied_peer_id, request_id },
                );
            },
        };
        proof {
            let outbox = self.peers_view()[index as int].peer_outbox;
            let found = peer_reply_find(outbox, replied_peer_id, request_id);
            if found < position as int {
                assert(!(!peer_transmit_is_request_at(outbox, found) && outbox[found].peer_id
                    == replied_peer_id && outbox[found].request_id == request_id));
            } else if found > position as int {
                assert(!(!peer_transmit_is_request_at(outbox, position as int)
                    && outbox[position as int].peer_id == replied_peer_id
                    && outbox[position as int].request_id == request_id));
            }
            assert(found == position as int);
        }
        let _ = self.peers[index].remove_peer_transmit(position);
        proof {
            let peers0 = old(self).peers_view();
            let sender = peers0[index as int];
            assert(self.peers_view() =~= peers0.update(
                index as int,
                PeerView { peer_outbox: sender.peer_outbox.remove(position as int), ..sender },
            ));
        }
        Ok(())
    }
}


/// Client and peers after one queued request of a client is delivered to
/// its target peer, or `None`.
pub open spec fn transmit_client_request_spec(
    clients: Seq<ClientView>,
    peers: Seq<PeerView>,
    client_id: ClientId,
    request_id: RequestId,
) -> Option<(Seq<ClientView>, Seq<PeerView>)> {
    if !(1 <= client_id.0 <= clients.len()) {
        None
    } else {
        let sender = clients[client_id.0 - 1];
        let position = client_request_find(sender.outbox, request_id);
        if position < 0 {
            None
        } else {
            let transmit = sender.outbox[position];
            if !(1 <= transmit.peer_id.0 <= peers.len()) {
                None
            } else {
                let clients1 = clients.update(
                    client_id.0 - 1,
                    ClientView { outbox: sender.outbox.remove(position), ..sender },
                );
                let target = peers[transmit.peer_id.0 - 1];
                if !crate::peer::client_message_deliverable(target, transmit.message) {
                    None
                } else {
                    Some(
                        (
                            clients1,
                            peers.update(
                                transmit.peer_id.0 - 1,
                                receive_client_message_step(
                                    target,
                                    client_id,
                                    transmit.request_id,
                                    transmit.message,
                                ),
                            ),
                        ),
                    )
                }
            }
        }
    }
}

/// Whether a client reply carries an error that only clients mint.
pub open spec fn reply_minted_by_client(message: ClientMessageView) -> bool {
    ||| (message matches ClientMessageView::CommandReply(r) && (r.result matches Err(e)
        && e is EmptyCluster))
    ||| (message matches ClientMessageView::QueryReply(r) && (r.result matches Err(e)
        && e is EmptyCluster))
}

/// Peers and clients after one queued client reply of a peer is delivered
/// to the client it answers, or `None`.
pub open spec fn transmit_client_reply_spec(
    peers: Seq<PeerView>,
    clients: Seq<ClientView>,
    peer_id: PeerId,
    replied_client_id: ClientId,
    request_id: RequestId,
) -> Option<(Seq<PeerView>, Seq<ClientView>)> {
    if !(1 <= peer_id.0 <= peers.len()) {
        None
    } else {
        let sender = peers[peer_id.0 - 1];
        let position = client_reply_find(sender.client_outbox, replied_client_id, request_id);
        if position < 0 {
            None
        } else {
            let transmit = sender.client_outbox[position];
            if !(1 <= transmit.client_id.0 <= clients.len()) {
                None
            } else if reply_minted_by_client(transmit.message) {
                None
            } else {
                let peers1 = peers.update(
                    peer_id.0 - 1,
                    PeerView { client_outbox: sender.client_outbox.remove(position), ..sender },
                );
                let target = clients[transmit.client_id.0 - 1];
                Some(
                    (
                        peers1,
                        clients.update(
                            transmit.client_id.0 - 1,
                            receive_reply_step(
                                target,
                                peer_id,
                                transmit.request_id,
                                transmit.message,
                            ),
                        ),
                    ),
                )
            }
        }
    }
}

/// Peers after one queued client reply of a peer is dropped, or `None`.
pub open spec fn drop_client_reply_spec(
    peers: Seq<PeerView>,
    peer_id: PeerId,
    replied_client_id: ClientId,
    request_id: RequestId,
) -> Option<Seq<PeerView>> {
    if !(1 <= peer_id.0 <= peers.len()) {
        None
    } else {
        let sender = peers[peer_id.0 - 1];
        let position = client_reply_find(sender.client_outbox, replied_client_id, request_id);
        if position < 0 {
            None
        } else {
            Some(
                peers.update(
                    peer_id.0 - 1,
                    PeerView { client_outbox: sender.client_outbox.remove(position), ..sender },
                ),
            )
        }
    }
}

/// What a first-position finder returns, for queued client requests.
pub proof fn lemma_client_request_find(outbox: Seq<ClientTransmitView>, request_id: RequestId)
    ensures
        client_request_find(outbox, request_id) == -1 ==> forall|j: int|
            0 <= j < outbox.len() ==> !(crate::client::client_message_is_request_at(outbox, j) && (
            #[trigger] outbox[j]).request_id == request_id),
        client_request_find(outbox, request_id) != -1 ==> 0 <= client_request_find(
            outbox,
            request_id,
        ) < outbox.len() && crate::client::client_message_is_request_at(
            outbox,
            client_request_find(outbox, request_id),
        ) && outbox[client_request_find(outbox, request_id)].request_id == request_id && forall|
            j: int,
        |
            0 <= j < client_request_find(outbox, request_id) ==> !(
            crate::client::client_message_is_request_at(outbox, j) && (
            #[trigger] outbox[j]).request_id == request_id),
    decreases outbox.len(),
{
    if outbox.len() > 0 && !(crate::message::client_message_is_request(outbox[0].message)
        && outbox[0].request_id == request_id) {
        let d = outbox.drop_first();
        lemma_client_request_find(d, request_id);
        let r = client_request_find(outbox, request_id);
        if r == -1 {
            assert forall|j: int| 0 <= j < outbox.len() implies !(
            crate::client::client_message_is_request_at(outbox, j) && (
            #[trigger] outbox[j]).request_id == request_id) by {
                if j >= 1 {
                    assert(outbox[j] == d[j - 1]);
                }
            }
        } else {
            assert(outbox[r] == d[r - 1]);
            assert forall|j: int| 0 <= j < r implies !(crate::client::client_message_is_request_at(
                outbox,
                j,
            ) && (#[trigger] outbox[j]).request_id == request_id) by {
                if j >= 1 {
                    assert(outbox[j] == d[j - 1]);
                }
            }
        }
    }
}

/// What a first-position finder returns, for queued client replies.
pub proof fn lemma_client_reply_find(
    outbox: Seq<ClientTransmitView>,
    replied_client_id: ClientId,
    request_id: RequestId,
)
    ensures
        client_reply_find(outbox, replied_client_id, request_id) == -1 ==> forall|j: int|
            0 <= j < outbox.len() ==> !(!crate::message::client_message_is_request(
                outbox[j].message,
            ) && (#[trigger] outbox[j]).client_id == replied_client_id && outbox[j].request_id
                == request_id),
        client_reply_find(outbox, replied_client_id, request_id) != -1 ==> 0 <= client_reply_find(
            outbox,
            replied_client_id,
            request_id,
        ) < outbox.len() && !crate::message::client_message_is_request(
            outbox[client_reply_find(outbox, replied_client_id, request_id)].message,
        ) && outbox[client_reply_find(outbox, replied_client_id, request_id)].client_id
            == replied_client_id && outbox[client_reply_find(
            outbox,
            replied_client_id,
            request_id,
        )].request_id == request_id && forall|j: int|
            0 <= j < client_reply_find(outbox, replied_client_id, request_id) ==> !(
            !crate::message::client_message_is_request(outbox[j].message) && (
            #[trigger] outbox[j]).client_id == replied_client_id && outbox[j].request_id
                == request_id),
    decreases outbox.len(),
{
    if outbox.len() > 0 && !(!crate::message::client_message_is_request(outbox[0].message)
        && outbox[0].client_id == replied_client_id && outbox[0].request_id == request_id) {
        let d = outbox.drop_first();
        lemma_client_reply_find(d, replied_client_id, request_id);
        let r = client_reply_find(outbox, replied_client_id, request_id);
        if r == -1 {
            assert forall|j: int| 0 <= j < outbox.len() implies !(
            !crate::message::client_message_is_request(outbox[j].message) && (
            #[trigger] outbox[j]).client_id == replied_client_id && outbox[j].request_id
                == request_id) by {
                if j >= 1 {
                    assert(outbox[j] == d[j - 1]);
                }
            }
        } else {
            assert(outbox[r] == d[r - 1]);
            assert forall|j: int| 0 <= j < r implies !(!crate::message::client_message_is_request(
                outbox[j].message,
            ) && (#[trigger] outbox[j]).client_id == replied_client_id && outbox[j].request_id
                == request_id) by {
                if j >= 1 {
                    assert(outbox[j] == d[j - 1]);
                }
            }
        }
    }
}

impl<S: Storage> Simulation<S> {
    /// Delivers the first queued request of a client with the given id to
    /// its target peer.
    fn deliver_client_request(&mut self, client_id: ClientId, request_id: RequestId) -> (r: Result<
        (),
        SimulationError,
    >)
        requires
            old(self).inv(),
        ensures
            final(self).inv(),
            final(self).replay_view() == old(self).replay_view(),
            match r {
                Ok(_) => Some((final(self).clients_view(), final(self).peers_view()))
                    == transmit_client_request_spec(
                    old(self).clients_view(),
                    old(self).peers_view(),
                    client_id,
                    request_id,
                ),
                Err(_) => final(self).peers_view() == old(self).peers_view()
                    && final(self).clients_view() == old(self).clients_view()
                    && transmit_client_request_spec(
                    old(self).clients_view(),
                    old(self).peers_view(),
                    client_id,
                    request_id,
                ) is None,
            },
    {
        if client_id.0 < 1 || client_id.0 > self.clients.len() {
            proof {
                assert(self.peers_view() =~= old(self).peers_view());
                assert(self.clients_view() =~= old(self).clients_view());
            }
            return Err(SimulationError::UnknownClient { client_id });
        }
        let index = client_id.0 - 1;
        proof {
            lemma_client_request_find(self.clients_view()[index as int].outbox, request_id);
        }
        let position = match self.clients[index].position_of_request(request_id) {
            Some(position) => position,
            None => {
                proof {
                    assert(self.peers_view() =~= old(self).peers_view());
                    assert(self.clients_view() =~= old(self).clients_view());
                }
                return Err(SimulationError::MissingClientRequest { client_id, request_id });
            },
        };
        proof {
            let outbox = self.clients_view()[index as int].outbox;
            let found = client_request_find(outbox, request_id);
            if found < position as int {
                assert(!(crate::client::client_message_is_request_at(outbox, found) && outbox[found].request_id
                    == request_id));
            } else if found > position as int {
                assert(!(crate::client::client_message_is_request_at(outbox, position as int)
                    && outbox[position as int].request_id == request_id));
            }
            assert(found == position as int);
        }
        let target_id = self.clients[index].buffered_client_transmits()[position].peer_id();
        if target_id.0 < 1 || target_id.0 > self.peers.len() {
            proof {
                assert(self.peers_view() =~= old(self).peers_view());
                assert(self.clients_view() =~= old(self).clients_view());
            }
            return Err(SimulationError::UnknownPeer { peer_id: target_id });
        }
        let target_index = target_id.0 - 1;
        let deliverable = {
            let sender = &self.clients[index];
            let queued = &sender.buffered_client_transmits()[position];
            self.peers[target_index].can_receive_client_message(queued.message())
        };
        if !deliverable {
            proof {
                assert(self.peers_view() =~= old(self).peers_view());
                assert(self.clients_view() =~= old(self).clients_view());
            }
            return Err(SimulationError::Undeliverable { peer_id: target_id });
        }
        let transmit = self.clients[index].remove_client_transmit(position);
        let ghost clients_removed = self.clients_view();
        proof {
            let clients0 = old(self).clients_view();
            let sender = clients0[index as int];
            assert(clients_removed =~= clients0.update(
                index as int,
                ClientView { outbox: sender.outbox.remove(position as int), ..sender },
            ));
        }
        let delivery_request_id = transmit.request_id();
        self.peers[target_index].receive_client_message(
            client_id,
            delivery_request_id,
            transmit.into_message(),
        );
        proof {
            let peers0 = old(self).peers_view();
            let clients0 = old(self).clients_view();
            let queued = clients0[index as int].outbox[position as int];
            assert(self.peers_view() =~= peers0.update(
                target_index as int,
                receive_client_message_step(
                    peers0[target_index as int],
                    client_id,
                    queued.request_id,
                    queued.message,
                ),
            ));
        }
        Ok(())
    }

    /// Delivers the first queued client reply of a peer addressed to the
    /// given client under the given id.
    fn deliver_client_reply(
        &mut self,
        peer_id: PeerId,
        replied_client_id: ClientId,
        request_id: RequestId,
    ) -> (r: Result<(), SimulationError>)
        requires
            old(self).inv(),
        ensures
            final(self).inv(),
            final(self).replay_view() == old(self).replay_view(),
            match r {
                Ok(_) => Some((final(self).peers_view(), final(self).clients_view()))
                    == transmit_client_reply_spec(
                    old(self).peers_view(),
                    old(self).clients_view(),
                    peer_id,
                    replied_client_id,
                    request_id,
                ),
                Err(_) => final(self).peers_view() == old(self).peers_view()
                    && final(self).clients_view() == old(self).clients_view()
                    && transmit_client_reply_spec(
                    old(self).peers_view(),
                    old(self).clients_view(),
                    peer_id,
                    replied_client_id,
                    request_id,
                ) is None,
            },
    {
        if peer_id.0 < 1 || peer_id.0 > self.peers.len() {
            proof {
                assert(self.peers_view() =~= old(self).peers_view());
                assert(self.clients_view() =~= old(self).clients_view());
            }
            return Err(SimulationError::UnknownPeer { peer_id });
        }
        let index = peer_id.0 - 1;
        proof {
            lemma_client_reply_find(
                self.peers_view()[index as int].client_outbox,
                replied_client_id,
                request_id,
            );
        }
        let position = match self.peers[index].position_of_client_reply(
            replied_client_id,
            request_id,
        ) {
            Some(position) => position,
            None => {
                proof {
                    assert(self.peers_view() =~= old(self).peers_view());
                    assert(self.clients_view() =~= old(self).clients_view());
                }
                return Err(
                    SimulationError::MissingClientReply { peer_id, replied_client_id, request_id },
                );
            },
        };
        proof {
            let outbox = self.peers_view()[index as int].client_outbox;
            let found = client_reply_find(outbox, replied_client_id, request_id);
            if found < position as int {
                assert(!(!crate::message::client_message_is_request(outbox[found].message)
                    && outbox[found].client_id == replied_client_id && outbox[found].request_id
                    == request_id));
            } else if found > position as int {
                assert(!(!crate::message::client_message_is_request(
                    outbox[position as int].message,
                ) && outbox[position as int].client_id == replied_client_id
                    && outbox[position as int].request_id == request_id));
            }
            assert(found == position as int);
        }
        let target_id = self.peers[index].buffered_client_transmits()[position].client_id();
        if target_id.0 < 1 || target_id.0 > self.clients.len() {
            proof {
                assert(self.peers_view() =~= old(self).peers_view());
                assert(self.clients_view() =~= old(self).clients_view());
            }
            return Err(SimulationError::UnknownClient { client_id: target_id });
        }
        let target_index = target_id.0 - 1;
        let minted = {
            let sender = &self.peers[index];
            let queued = &sender.buffered_client_transmits()[position];
            match queued.message() {
                crate::message::ClientMessage::CommandReply(reply) => match reply.result {
                    Err(ClientError::EmptyCluster) => true,
                    _ => false,
                },
                crate::message::ClientMessage::QueryReply(reply) => match reply.result() {
                    Err(ClientError::EmptyCluster) => true,
                    _ => false,
                },
                _ => false,
            }
        };
        if minted {
            proof {
                assert(self.peers_view() =~= old(self).peers_view());
                assert(self.clients_view() =~= old(self).clients_view());
            }
            return Err(SimulationError::Undeliverable { peer_id });
        }
        let transmit = self.peers[index].remove_client_transmit(position);
        let ghost peers_removed = self.peers_view();
        proof {
            let peers0 = old(self).peers_view();
            let sender = peers0[index as int];
            assert(peers_removed =~= peers0.update(
                index as int,
                PeerView { client_outbox: sender.client_outbox.remove(position as int), ..sender },
            ));
        }
        let delivery_request_id = transmit.request_id();
        self.clients[target_index].receive_reply(
            peer_id,
            delivery_request_id,
            transmit.into_message(),
        );
        proof {
            let clients0 = old(self).clients_view();
            let peers0 = old(self).peers_view();
            let queued = peers0[index as int].client_outbox[position as int];
            assert(self.clients_view() =~= clients0.update(
                target_index as int,
                receive_reply_step(
                    clients0[target_index as int],
                    peer_id,
                    queued.request_id,
                    queued.message,
                ),
            ));
        }
        Ok(())
    }

    /// Drops the first queued client reply of a peer addressed to the given
    /// client under the given id.
    fn discard_client_reply(
        &mut self,
        peer_id: PeerId,
        replied_client_id: ClientId,
        request_id: RequestId,
    ) -> (r: Result<(), SimulationError>)
        requires
            old(self).inv(),
        ensures
            final(self).inv(),
            final(self).replay_view() == old(self).replay_view(),
            final(self).clients_view() == old(self).clients_view(),
            match r {
                Ok(_) => Some(final(self).peers_view()) == drop_client_reply_spec(
                    old(self).peers_view(),
                    peer_id,
                    replied_client_id,
                    request_id,
                ),
                Err(_) => final(self).peers_view() == old(self).peers_view()
                    && drop_client_reply_spec(
                    old(self).peers_view(),
                    peer_id,
                    replied_client_id,
                    request_id,
                ) is None,
            },
    {
        if peer_id.0 < 1 || peer_id.0 > self.peers.len() {
            proof {
                assert(self.peers_view() =~= old(self).peers_view());
            }
            return Err(SimulationError::UnknownPeer { peer_id });
        }
        let index = peer_id.0 - 1;
        proof {
            lemma_client_reply_find(
                self.peers_view()[index as int].client_outbox,
                replied_client_id,
                request_id,
            );
        }
        let position = match self.peers[index].position_of_client_reply(
            replied_client_id,
            request_id,
        ) {
            Some(position) => position,
            None => {
                proof {
                    assert(self.peers_view() =~= old(self).peers_view());
                }
                return Err(
                    SimulationError::MissingClientReply { peer_id, replied_client_id, request_id },
                );
            },
        };
        proof {
            let outbox = self.peers_view()[index as int].client_outbox;
            let found = client_reply_find(outbox, replied_client_id, request_id);
            if found < position as int {
                assert(!(!crate::message::client_message_is_request(outbox[found].message)
                    && outbox[found].client_id == replied_client_id && outbox[found].request_id
                    == request_id));
            } else if found > position as int {
                assert(!(!crate::message::client_message_is_request(
                    outbox[position as int].message,
                ) && outbox[position as int].client_id == replied_client_id
                    && outbox[position as int].request_id == request_id));
            }
            assert(found == position as int);
        }
        let _ = self.peers[index].remove_client_transmit(position);
        proof {
            let peers0 = old(self).peers_view();
            let sender = peers0[index as int];
            assert(self.peers_view() =~= peers0.update(
                index as int,
                PeerView { client_outbox: sender.client_outbox.remove(position as int), ..sender },
            ));
        }
        Ok(())
    }
}


impl<S: Storage> Simulation<S> {
    /// Compares one live peer against its replay peer on every field the
    /// checker observes.
    fn check_peer(&self, index: usize) -> (r: bool)
        requires
            index < self.peers_view().len(),
            index < self.replay_view().len(),
        ensures
            r == observably_equal(self.peers_view()[index as int], self.replay_view()[index as int]),
    {
        let live = &self.peers[index];
        let replay = &self.replay_peers[index];
        if live.current_term().0 != replay.current_term().0 {
            return false;
        }
        let votes_agree = match (live.voted_for(), replay.voted_for()) {
            (None, None) => true,
            (Some(a), Some(b)) => a.0 == b.0,
            _ => false,
        };
        if !votes_agree {
            return false;
        }
        if !live.log().deep_eq(replay.log()) {
            return false;
        }
        if !live.snapshot().deep_eq(replay.snapshot()) {
            return false;
        }
        if live.commit_index().0 != replay.commit_index().0 {
            return false;
        }
        if live.last_applied().0 != replay.last_applied().0 {
            return false;
        }
        if !live.role().deep_eq(replay.role()) {
            return false;
        }
        if !live.machine().deep_eq(replay.machine()) {
            return false;
        }
        let live_transmits = live.buffered_peer_transmits();
        let replay_transmits = replay.buffered_peer_transmits();
        if live_transmits.len() != replay_transmits.len() {
            proof {
                assert(self.peers_view()[index as int].peer_outbox.len() != self.replay_view()[index as int].peer_outbox.len());
            }
            return false;
        }
        let mut i: usize = 0;
        while i < live_transmits.len()
            invariant
                i <= live_transmits@.len(),
                live_transmits@.len() == replay_transmits@.len(),
                Seq::new(live_transmits@.len(), |k: int| live_transmits@[k]@) == self.peers_view()[index as int].peer_outbox,
                Seq::new(replay_transmits@.len(), |k: int| replay_transmits@[k]@)
                    == self.replay_view()[index as int].peer_outbox,
                index < self.peers_view().len(),
                index < self.replay_view().len(),
                forall|j: int|
                    0 <= j < i ==> (#[trigger] live_transmits@[j])@ == replay_transmits@[j]@,
            decreases live_transmits@.len() - i,
        {
            if !live_transmits[i].deep_eq(&replay_transmits[i]) {
                proof {
                    let a = self.peers_view()[index as int].peer_outbox;
                    let b = self.replay_view()[index as int].peer_outbox;
                    assert(a[i as int] != b[i as int]);
                }
                return false;
            }
            i = i + 1;
        }
        proof {
            let a = self.peers_view()[index as int].peer_outbox;
            let b = self.replay_view()[index as int].peer_outbox;
            assert(a =~= b);
        }
        true
    }

    /// Performs a single action in the simulation; see [`Action`] for the
    /// repertoire. An action succeeds exactly when it is enabled on the
    /// current state: a missing transmit, an unknown id, an impossible
    /// delivery or a failed check produce a descriptive error.
    #[verifier::rlimit(100)]
    pub fn perform(&mut self, action: Action) -> (r: Result<(), SimulationError>)
        requires
            old(self).inv(),
        ensures
            final(self).inv(),
            final(self).peers_view().len() == old(self).peers_view().len(),
            final(self).clients_view().len() == old(self).clients_view().len(),
            r is Ok <==> action_enabled(old(self).state_view(), action@),
            r is Ok ==> action_step_rel(old(self).state_view(), action@, final(self).state_view()),
            r matches Err(error) ==> action_failure_rel(
                old(self).state_view(),
                action@,
                error,
                final(self).state_view(),
            ),
    {
        match action {
            Action::TimeoutElection { peer_id } => {
                if peer_id.0 < 1 || peer_id.0 > self.peers.len() {
                    proof {
                        assert(self.peers_view() =~= old(self).peers_view());
                    }
                    return Err(SimulationError::UnknownPeer { peer_id });
                }
                let index = peer_id.0 - 1;
                if !self.peers[index].can_trigger_election() {
                    proof {
                        assert(self.peers_view() =~= old(self).peers_view());
                    }
                    return Err(SimulationError::Undeliverable { peer_id });
                }
                self.peers[index].trigger_election_timeout();
                proof {
                    assert(self.peers_view() =~= old(self).peers_view().update(
                        index as int,
                        election_timeout_step(old(self).peers_view()[index as int]),
                    ));
                }
                Ok(())
            },
            Action::TimeoutElections { peer_ids } => self.timeout_elections(peer_ids),
            Action::TimeoutHeartbeat { peer_id } => {
                if peer_id.0 < 1 || peer_id.0 > self.peers.len() {
                    proof {
                        assert(self.peers_view() =~= old(self).peers_view());
                    }
                    return Err(SimulationError::UnknownPeer { peer_id });
                }
                let index = peer_id.0 - 1;
                if !self.peers[index].can_trigger_heartbeat() {
                    proof {
                        assert(self.peers_view() =~= old(self).peers_view());
                    }
                    return Err(SimulationError::Undeliverable { peer_id });
                }
                self.peers[index].trigger_heartbeat_timeout();
                proof {
                    assert(self.peers_view() =~= old(self).peers_view().update(
                        index as int,
                        heartbeat_step(old(self).peers_view()[index as int]),
                    ));
                }
                Ok(())
            },
            Action::ApplyCommitted { peer_id } => {
                match peer_id {
                    Some(peer_id) => {
                        if peer_id.0 < 1 || peer_id.0 > self.peers.len() {
                            proof {
                                assert(self.peers_view() =~= old(self).peers_view());
                            }
                            return Err(SimulationError::UnknownPeer { peer_id });
                        }
                        let index = peer_id.0 - 1;
                        if !self.peers[index].can_apply_committed() {
                            proof {
                                assert(self.peers_view() =~= old(self).peers_view());
                            }
                            return Err(SimulationError::CannotApply { peer_id });
                        }
                        self.peers[index].apply_committed();
                        proof {
                            assert(self.peers_view() =~= old(self).peers_view().update(
                                index as int,
                                apply_committed_step(old(self).peers_view()[index as int]),
                            ));
                        }
                        Ok(())
                    },
                    None => self.apply_committed_everywhere(),
                }
            },
            Action::TransmitPeerRequest { peer_id, request_id } => {
                self.deliver_peer_request(peer_id, request_id)
            },
            Action::TransmitPeerRequests { peer_id, request_ids } => self.deliver_peer_requests(
                peer_id,
                request_ids,
            ),
            Action::DropPeerRequest { peer_id, request_id } => {
                self.discard_peer_request(peer_id, request_id)
            },
            Action::DropPeerRequests { peer_id, request_ids } => self.discard_peer_requests(
                peer_id,
                request_ids,
            ),
            Action::TransmitPeerReply { peer_id, replied_peer_id_and_request_id } => {
                self.deliver_peer_reply(
                    peer_id,
                    replied_peer_id_and_request_id.0,
                    replied_peer_id_and_request_id.1,
                )
            },
            Action::TransmitPeerReplies { peer_id, replied_peer_ids_and_request_ids } => self
                .deliver_peer_replies(peer_id, replied_peer_ids_and_request_ids),
            Action::DropPeerReply { peer_id, replied_peer_id_and_request_id } => {
                self.discard_peer_reply(
                    peer_id,
                    replied_peer_id_and_request_id.0,
                    replied_peer_id_and_request_id.1,
                )
            },
            Action::DropPeerReplies { peer_id, replied_peer_ids_and_request_ids } => self
                .discard_peer_replies(peer_id, replied_peer_ids_and_request_ids),
            Action::SendCommand { client_id, peer_id, command } => {
                if client_id.0 < 1 || client_id.0 > self.clients.len() {
                    proof {
                        assert(self.clients_view() =~= old(self).clients_view());
                    }
                    return Err(SimulationError::UnknownClient { client_id });
                }
                let index = client_id.0 - 1;
                if !(self.clients[index].next_request_id() < usize::MAX) {
                    proof {
                        assert(self.clients_view() =~= old(self).clients_view());
                    }
                    return Err(SimulationError::SendFailed { client_id });
                }
                let ghost command_view = command@;
                let outcome = self.clients[index].command(command, peer_id);
                proof {
                    assert(self.peers_view() =~= old(self).peers_view());
                    assert(self.clients_view() =~= old(self).clients_view().update(
                        index as int,
                        self.clients_view()[index as int],
                    ));
                    if outcome is Ok {
                        let sender = old(self).clients_view()[index as int];
                        let target = self.clients_view()[index as int].outbox.last().peer_id;
                        assert(crate::client::send_target_ok(sender, peer_id, target));
                        assert(self.clients_view()[index as int]
                            =~~= crate::client::client_after_command(
                            sender,
                            target,
                            command_view,
                        ));
                    }
                }
                match outcome {
                    Ok(_) => Ok(()),
                    Err(_) => Err(SimulationError::SendFailed { client_id }),
                }
            },
            Action::SendQuery { client_id, peer_id, query } => {
                if client_id.0 < 1 || client_id.0 > self.clients.len() {
                    proof {
                        assert(self.clients_view() =~= old(self).clients_view());
                    }
                    return Err(SimulationError::UnknownClient { client_id });
                }
                let index = client_id.0 - 1;
                if !(self.clients[index].next_request_id() < usize::MAX) {
                    proof {
                        assert(self.clients_view() =~= old(self).clients_view());
                    }
                    return Err(SimulationError::SendFailed { client_id });
                }
                let ghost query_view = query@;
                let outcome = self.clients[index].query(query, peer_id);
                proof {
                    assert(self.peers_view() =~= old(self).peers_view());
                    assert(self.clients_view() =~= old(self).clients_view().update(
                        index as int,
                        self.clients_view()[index as int],
                    ));
                    if outcome is Ok {
                        let sender = old(self).clients_view()[index as int];
                        let target = self.clients_view()[index as int].outbox.last().peer_id;
                        assert(crate::client::send_target_ok(sender, peer_id, target));
                        assert(self.clients_view()[index as int]
                            =~~= crate::client::client_after_query(sender, target, query_view));
                    }
                }
                match outcome {
                    Ok(_) => Ok(()),
                    Err(_) => Err(SimulationError::SendFailed { client_id }),
                }
            },
            Action::TransmitClientRequest { client_id, request_id } => {
                self.deliver_client_request(client_id, request_id)
            },
            Action::TransmitClientReply { peer_id, replied_client_id_and_request_id } => {
                self.deliver_client_reply(
                    peer_id,
                    replied_client_id_and_request_id.0,
                    replied_client_id_and_request_id.1,
                )
            },
            Action::DropClientReply { peer_id, replied_client_id_and_request_id } => {
                self.discard_client_reply(
                    peer_id,
                    replied_client_id_and_request_id.0,
                    replied_client_id_and_request_id.1,
                )
            },
            Action::Check { updates } => self.check(updates),
        }
    }

    /// Runs a sequence of actions, stopping at the first error: every
    /// action performed steps the state as `perform` promises, in listed
    /// order.
    #[verifier::rlimit(100)]
    pub fn run(&mut self, actions: Vec<Action>) -> (r: Result<(), SimulationError>)
        requires
            old(self).inv(),
        ensures
            final(self).inv(),
            r is Ok ==> actions_run_to(
                old(self).state_view(),
                views_of_actions(actions@),
                final(self).state_view(),
            ),
            r matches Err(error) ==> exists|k: int, mid: SimulationStateView|
                {
                    &&& 0 <= k < actions@.len()
                    &&& #[trigger] actions_run_to(
                        old(self).state_view(),
                        views_of_actions(actions@).take(k),
                        mid,
                    )
                    &&& !action_enabled(mid, views_of_actions(actions@)[k])
                    &&& action_failure_rel(
                        mid,
                        views_of_actions(actions@)[k],
                        error,
                        final(self).state_view(),
                    )
                },
    {
        let ghost action_views = views_of_actions(actions@);
        let ghost start = self.state_view();
        let ghost mut performed: int = 0;
        let mut remaining = actions;
        proof {
            assert(action_views.take(0) =~= Seq::<ActionView>::empty());
        }
        while remaining.len() > 0
            invariant
                self.inv(),
                0 <= performed,
                performed + remaining@.len() == action_views.len(),
                action_views == views_of_actions(actions@),
                forall|j: int|
                    0 <= j < remaining@.len() ==> (#[trigger] remaining@[j])@ == action_views[
                        performed + j
                    ],
                start == old(self).state_view(),
                actions_run_to(start, action_views.take(performed), self.state_view()),
            decreases remaining@.len(),
        {
            let action = remaining.remove(0);
            let ghost action_view = action@;
            let ghost previous = self.state_view();
            let outcome = self.perform(action);
            match outcome {
                Ok(_) => {
                    proof {
                        lemma_actions_run_to_extend(
                            start,
                            action_views.take(performed),
                            previous,
                            action_view,
                            self.state_view(),
                        );
                        assert(action_views.take(performed + 1) =~= action_views.take(
                            performed,
                        ).push(action_view));
                        performed = performed + 1;
                    }
                },
                Err(error) => {
                    proof {
                        assert(action_views[performed] == action_view);
                        assert(actions_run_to(start, action_views.take(performed), previous));
                        assert(!action_enabled(previous, action_views[performed]));
                        assert(action_failure_rel(
                            previous,
                            action_views[performed],
                            error,
                            self.state_view(),
                        ));
                    }
                    return Err(error);
                },
            }
        }
        proof {
            assert(action_views.take(action_views.len() as int) =~= action_views);
        }
        Ok(())
    }
}


impl<S: Storage> Simulation<S> {
    /// Triggers the election timeout of each listed peer, in listed order,
    /// stopping at the first peer that is unknown or lacks the headroom.
    fn timeout_elections(&mut self, peer_ids: Vec<PeerId>) -> (r: Result<(), SimulationError>)
        requires
            old(self).inv(),
        ensures
            final(self).inv(),
            final(self).peers_view().len() == old(self).peers_view().len(),
            final(self).clients_view() == old(self).clients_view(),
            final(self).replay_view() == old(self).replay_view(),
            match r {
                Ok(_) => Some(final(self).peers_view()) == timeout_elections_spec(
                    old(self).peers_view(),
                    peer_ids@,
                ),
                Err(_) => timeout_elections_spec(old(self).peers_view(), peer_ids@) is None,
            },
    {
        let ghost ids = peer_ids@;
        let mut k: usize = 0;
        proof {
            assert(ids.skip(0) =~= ids);
        }
        while k < peer_ids.len()
            invariant
                self.inv(),
                k <= peer_ids@.len(),
                ids == peer_ids@,
                self.clients_view() == old(self).clients_view(),
                self.replay_view() == old(self).replay_view(),
                self.peers_view().len() == old(self).peers_view().len(),
                timeout_elections_spec(old(self).peers_view(), ids) == timeout_elections_spec(
                    self.peers_view(),
                    ids.skip(k as int),
                ),
            decreases peer_ids@.len() - k,
        {
            proof {
                assert(ids.skip(k as int).drop_first() =~= ids.skip(k + 1));
                assert(ids.skip(k as int)[0] == ids[k as int]);
            }
            let peer_id = peer_ids[k];
            if peer_id.0 < 1 || peer_id.0 > self.peers.len() {
                return Err(SimulationError::UnknownPeer { peer_id });
            }
            let index = peer_id.0 - 1;
            if !self.peers[index].can_trigger_election() {
                return Err(SimulationError::Undeliverable { peer_id });
            }
            let ghost before = self.peers_view();
            self.peers[index].trigger_election_timeout();
            proof {
                assert(self.peers_view() =~= before.update(
                    index as int,
                    election_timeout_step(before[index as int]),
                ));
            }
            k = k + 1;
        }
        proof {
            assert(ids.skip(ids.len() as int) =~= Seq::<PeerId>::empty());
        }
        Ok(())
    }

    /// Applies committed entries on every peer, in cluster order, after
    /// checking that every peer can: a peer with a committed entry missing
    /// from its log is reported before anything is applied.
    fn apply_committed_everywhere(&mut self) -> (r: Result<(), SimulationError>)
        requires
            old(self).inv(),
        ensures
            final(self).inv(),
            final(self).peers_view().len() == old(self).peers_view().len(),
            final(self).clients_view() == old(self).clients_view(),
            final(self).replay_view() == old(self).replay_view(),
            r is Ok <==> forall|i: int|
                0 <= i < old(self).peers_view().len() ==> crate::peer::apply_committed_enabled(
                    #[trigger] old(self).peers_view()[i],
                ),
            r is Ok ==> forall|i: int|
                0 <= i < old(self).peers_view().len() ==> (#[trigger] final(self).peers_view()[i])
                    == apply_committed_step(old(self).peers_view()[i]),
            r is Err ==> final(self).peers_view() == old(self).peers_view(),
    {
        let mut index: usize = 0;
        while index < self.peers.len()
            invariant
                self.inv(),
                index <= self.peers_view().len(),
                self.peers_view() == old(self).peers_view(),
                self.clients_view() == old(self).clients_view(),
                self.replay_view() == old(self).replay_view(),
                forall|i: int|
                    0 <= i < index ==> crate::peer::apply_committed_enabled(
                        #[trigger] self.peers_view()[i],
                    ),
            decreases self.peers_view().len() - index,
        {
            if !self.peers[index].can_apply_committed() {
                proof {
                    assert(!crate::peer::apply_committed_enabled(
                        old(self).peers_view()[index as int],
                    ));
                }
                return Err(SimulationError::CannotApply { peer_id: PeerId(index + 1) });
            }
            index = index + 1;
        }
        index = 0;
        while index < self.peers.len()
            invariant
                self.inv(),
                index <= self.peers_view().len(),
                self.peers_view().len() == old(self).peers_view().len(),
                self.clients_view() == old(self).clients_view(),
                self.replay_view() == old(self).replay_view(),
                forall|i: int|
                    0 <= i < old(self).peers_view().len() ==> crate::peer::apply_committed_enabled(
                        #[trigger] old(self).peers_view()[i],
                    ),
                forall|i: int|
                    0 <= i < index ==> (#[trigger] self.peers_view()[i]) == apply_committed_step(
                        old(self).peers_view()[i],
                    ),
                forall|i: int|
                    index <= i < self.peers_view().len() ==> (#[trigger] self.peers_view()[i])
                        == old(self).peers_view()[i],
            decreases self.peers_view().len() - index,
        {
            let ghost before = self.peers_view();
            proof {
                assert(self.peers_view()[index as int] == old(self).peers_view()[index as int]);
                assert(crate::peer::apply_committed_enabled(self.peers_view()[index as int]));
            }
            self.peers[index].apply_committed();
            proof {
                assert forall|i: int| 0 <= i < index + 1 implies (#[trigger] self.peers_view()[i])
                    == apply_committed_step(old(self).peers_view()[i]) by {
                    if i < index {
                        assert(self.peers_view()[i] == before[i]);
                    } else {
                        assert(before[index as int] == old(self).peers_view()[index as int]);
                    }
                }
                assert forall|i: int| index + 1 <= i < self.peers_view().len() implies (
                #[trigger] self.peers_view()[i]) == old(self).peers_view()[i] by {
                    assert(self.peers_view()[i] == before[i]);
                }
            }
            index = index + 1;
        }
        Ok(())
    }

    /// Delivers the listed peer requests of a peer in listed order, each
    /// as the singular form does, stopping at the first one that cannot be.
    fn deliver_peer_requests(&mut self, peer_id: PeerId, request_ids: Vec<RequestId>) -> (r: Result<
        (),
        SimulationError,
    >)
        requires
            old(self).inv(),
        ensures
            final(self).inv(),
            final(self).peers_view().len() == old(self).peers_view().len(),
            final(self).clients_view() == old(self).clients_view(),
            final(self).replay_view() == old(self).replay_view(),
            match r {
                Ok(_) => Some(final(self).peers_view()) == transmit_peer_requests_spec(
                    old(self).peers_view(),
                    peer_id,
                    request_ids@,
                ),
                Err(_) => transmit_peer_requests_spec(
                    old(self).peers_view(),
                    peer_id,
                    request_ids@,
                ) is None,
            },
    {
        let ghost ids = request_ids@;
        let mut k: usize = 0;
        proof {
            assert(ids.skip(0) =~= ids);
        }
        while k < request_ids.len()
            invariant
                self.inv(),
                k <= request_ids@.len(),
                ids == request_ids@,
                self.clients_view() == old(self).clients_view(),
                self.replay_view() == old(self).replay_view(),
                self.peers_view().len() == old(self).peers_view().len(),
                transmit_peer_requests_spec(old(self).peers_view(), peer_id, ids)
                    == transmit_peer_requests_spec(self.peers_view(), peer_id, ids.skip(k as int)),
            decreases request_ids@.len() - k,
        {
            proof {
                assert(ids.skip(k as int).drop_first() =~= ids.skip(k + 1));
                assert(ids.skip(k as int)[0] == ids[k as int]);
            }
            let outcome = self.deliver_peer_request(peer_id, request_ids[k]);
            match outcome {
                Ok(_) => {},
                Err(error) => {
                    return Err(error);
                },
            }
            k = k + 1;
        }
        proof {
            assert(ids.skip(ids.len() as int) =~= Seq::<RequestId>::empty());
        }
        Ok(())
    }

    /// Drops the listed peer requests of a peer in listed order, each as
    /// the singular form does, stopping at the first missing one.
    fn discard_peer_requests(&mut self, peer_id: PeerId, request_ids: Vec<RequestId>) -> (r: Result<
        (),
        SimulationError,
    >)
        requires
            old(self).inv(),
        ensures
            final(self).inv(),
            final(self).peers_view().len() == old(self).peers_view().len(),
            final(self).clients_view() == old(self).clients_view(),
            final(self).replay_view() == old(self).replay_view(),
            match r {
                Ok(_) => Some(final(self).peers_view()) == drop_peer_requests_spec(
                    old(self).peers_view(),
                    peer_id,
                    request_ids@,
                ),
                Err(_) => drop_peer_requests_spec(
                    old(self).peers_view(),
                    peer_id,
                    request_ids@,
                ) is None,
            },
    {
        let ghost ids = request_ids@;
        let mut k: usize = 0;
        proof {
            assert(ids.skip(0) =~= ids);
        }
        while k < request_ids.len()
            invariant
                self.inv(),
                k <= request_ids@.len(),
                ids == request_ids@,
                self.clients_view() == old(self).clients_view(),
                self.replay_view() == old(self).replay_view(),
                self.peers_view().len() == old(self).peers_view().len(),
                drop_peer_requests_spec(old(self).peers_view(), peer_id, ids)
                    == drop_peer_requests_spec(self.peers_view(), peer_id, ids.skip(k as int)),
            decreases request_ids@.len() - k,
        {
            proof {
                assert(ids.skip(k as int).drop_first() =~= ids.skip(k + 1));
                assert(ids.skip(k as int)[0] == ids[k as int]);
            }
            let outcome = self.discard_peer_request(peer_id, request_ids[k]);
            match outcome {
                Ok(_) => {},
                Err(error) => {
                    return Err(error);
                },
            }
            k = k + 1;
        }
        proof {
            assert(ids.skip(ids.len() as int) =~= Seq::<RequestId>::empty());
        }
        Ok(())
    }

    /// Delivers the listed peer replies of a peer in listed order, each as
    /// the singular form does, stopping at the first one that cannot be.
    fn deliver_peer_replies(
        &mut self,
        peer_id: PeerId,
        replied_peer_ids_and_request_ids: Vec<(PeerId, RequestId)>,
    ) -> (r: Result<(), SimulationError>)
        requires
            old(self).inv(),
        ensures
            final(self).inv(),
            final(self).peers_view().len() == old(self).peers_view().len(),
            final(self).clients_view() == old(self).clients_view(),
            final(self).replay_view() == old(self).replay_view(),
            match r {
                Ok(_) => Some(final(self).peers_view()) == transmit_peer_replies_spec(
                    old(self).peers_view(),
                    peer_id,
                    replied_peer_ids_and_request_ids@,
                ),
                Err(_) => transmit_peer_replies_spec(
                    old(self).peers_view(),
                    peer_id,
                    replied_peer_ids_and_request_ids@,
                ) is None,
            },
    {
        let ghost pairs = replied_peer_ids_and_request_ids@;
        let mut k: usize = 0;
        proof {
            assert(pairs.skip(0) =~= pairs);
        }
        while k < replied_peer_ids_and_request_ids.len()
            invariant
                self.inv(),
                k <= replied_peer_ids_and_request_ids@.len(),
                pairs == replied_peer_ids_and_request_ids@,
                self.clients_view() == old(self).clients_view(),
                self.replay_view() == old(self).replay_view(),
                self.peers_view().len() == old(self).peers_view().len(),
                transmit_peer_replies_spec(old(self).peers_view(), peer_id, pairs)
                    == transmit_peer_replies_spec(
                    self.peers_view(),
                    peer_id,
                    pairs.skip(k as int),
                ),
            decreases replied_peer_ids_and_request_ids@.len() - k,
        {
            proof {
                assert(pairs.skip(k as int).drop_first() =~= pairs.skip(k + 1));
                assert(pairs.skip(k as int)[0] == pairs[k as int]);
            }
            let pair = replied_peer_ids_and_request_ids[k];
            let outcome = self.deliver_peer_reply(peer_id, pair.0, pair.1);
            match outcome {
                Ok(_) => {},
                Err(error) => {
                    return Err(error);
                },
            }
            k = k + 1;
        }
        proof {
            assert(pairs.skip(pairs.len() as int) =~= Seq::<(PeerId, RequestId)>::empty());
        }
        Ok(())
    }

    /// Drops the listed peer replies of a peer in listed order, each as
    /// the singular form does, stopping at the first missing one.
    fn discard_peer_replies(
        &mut self,
        peer_id: PeerId,
        replied_peer_ids_and_request_ids: Vec<(PeerId, RequestId)>,
    ) -> (r: Result<(), SimulationError>)
        requires
            old(self).inv(),
        ensures
            final(self).inv(),
            final(self).peers_view().len() == old(self).peers_view().len(),
            final(self).clients_view() == old(self).clients_view(),
            final(self).replay_view() == old(self).replay_view(),
            match r {
                Ok(_) => Some(final(self).peers_view()) == drop_peer_replies_spec(
                    old(self).peers_view(),
                    peer_id,
                    replied_peer_ids_and_request_ids@,
                ),
                Err(_) => drop_peer_replies_spec(
                    old(self).peers_view(),
                    peer_id,
                    replied_peer_ids_and_request_ids@,
                ) is None,
            },
    {
        let ghost pairs = replied_peer_ids_and_request_ids@;
        let mut k: usize = 0;
        proof {
            assert(pairs.skip(0) =~= pairs);
        }
        while k < replied_peer_ids_and_request_ids.len()
            invariant
                self.inv(),
                k <= replied_peer_ids_and_request_ids@.len(),
                pairs == replied_peer_ids_and_request_ids@,
                self.clients_view() == old(self).clients_view(),
                self.replay_view() == old(self).replay_view(),
                self.peers_view().len() == old(self).peers_view().len(),
                drop_peer_replies_spec(old(self).peers_view(), peer_id, pairs)
                    == drop_peer_replies_spec(self.peers_view(), peer_id, pairs.skip(k as int)),
            decreases replied_peer_ids_and_request_ids@.len() - k,
        {
            proof {
                assert(pairs.skip(k as int).drop_first() =~= pairs.skip(k + 1));
                assert(pairs.skip(k as int)[0] == pairs[k as int]);
            }
            let pair = replied_peer_ids_and_request_ids[k];
            let outcome = self.discard_peer_reply(peer_id, pair.0, pair.1);
            match outcome {
                Ok(_) => {},
                Err(error) => {
                    return Err(error);
                },
            }
            k = k + 1;
        }
        proof {
            assert(pairs.skip(pairs.len() as int) =~= Seq::<(PeerId, RequestId)>::empty());
        }
        Ok(())
    }

    /// Applies the scripted updates to the replay peers, then checks every
    /// live peer against its replay peer.
    fn check(&mut self, updates: Vec<Update>) -> (r: Result<(), SimulationError>)
        requires
            old(self).inv(),
        ensures
            final(self).inv(),
            final(self).peers_view() == old(self).peers_view(),
            final(self).clients_view() == old(self).clients_view(),
            r is Ok <==> check_passes(
                old(self).peers_view(),
                old(self).replay_view(),
                Seq::new(updates@.len(), |i: int| updates@[i]@),
            ),
            r is Ok ==> Some(final(self).replay_view()) == apply_updates_spec(
                old(self).replay_view(),
                Seq::new(updates@.len(), |i: int| updates@[i]@),
            ),
            match r {
                Ok(_) => true,
                Err(error) => {
                    let update_views = Seq::new(updates@.len(), |i: int| updates@[i]@);
                    match error {
                        SimulationError::ChecksNotEnabled => (old(self).replay_view().len() == 0
                            && final(self).replay_view() == old(self).replay_view())
                            || (Some(final(self).replay_view()) == apply_updates_spec(
                            old(self).replay_view(),
                            update_views,
                        ) && final(self).replay_view().len() != old(self).peers_view().len()),
                        SimulationError::UpdateFailed { .. } => apply_updates_spec(
                            old(self).replay_view(),
                            update_views,
                        ) is None,
                        SimulationError::Mismatch { peer_id } => Some(final(self).replay_view())
                            == apply_updates_spec(old(self).replay_view(), update_views) && 1
                            <= peer_id.0 <= old(self).peers_view().len() && !observably_equal(
                            old(self).peers_view()[peer_id.0 - 1],
                            final(self).replay_view()[peer_id.0 - 1],
                        ) && forall|i: int|
                            0 <= i < peer_id.0 - 1 ==> observably_equal(
                                #[trigger] old(self).peers_view()[i],
                                final(self).replay_view()[i],
                            ),
                        _ => false,
                    }
                },
            },
    {
        let ghost update_views = Seq::new(updates@.len(), |i: int| updates@[i]@);
        if self.replay_peers.len() == 0 {
            proof {
                assert(self.peers_view() =~= old(self).peers_view());
                assert(self.clients_view() =~= old(self).clients_view());
            }
            return Err(SimulationError::ChecksNotEnabled);
        }
        let mut remaining = updates;
        let ghost mut applied: int = 0;
        proof {
            assert(update_views.skip(0) =~= update_views);
        }
        while remaining.len() > 0
            invariant
                self.inv(),
                0 <= applied,
                applied + remaining@.len() == update_views.len(),
                update_views == Seq::new(updates@.len(), |i: int| updates@[i]@),
                forall|j: int|
                    0 <= j < remaining@.len() ==> (#[trigger] remaining@[j])@ == update_views[
                        applied + j
                    ],
                self.peers_view() == old(self).peers_view(),
                self.clients_view() == old(self).clients_view(),
                self.replay_view().len() == old(self).replay_view().len(),
                old(self).replay_view().len() > 0,
                apply_updates_spec(old(self).replay_view(), update_views) == apply_updates_spec(
                    self.replay_view(),
                    update_views.skip(applied),
                ),
            decreases remaining@.len(),
        {
            proof {
                assert(update_views.skip(applied).drop_first() =~= update_views.skip(applied + 1));
                assert(update_views.skip(applied)[0] == update_views[applied]);
            }
            let update = remaining.remove(0);
            let target = update.peer_id;
            let ghost update_view = update@;
            let ghost replay_before = self.replay_view();
            if target.0 < 1 || target.0 > self.replay_peers.len() {
                proof {
                    assert(apply_updates_spec(
                        self.replay_view(),
                        update_views.skip(applied),
                    ) is None);
                    assert(apply_updates_spec(old(self).replay_view(), update_views) is None);
                }
                return Err(SimulationError::UpdateFailed { peer_id: target });
            }
            proof {
                assert(self.replay_peers@[target.0 - 1].storage_reliable());
            }
            let outcome = update.apply_to(&mut self.replay_peers);
            proof {
                assert(self.peers_view() =~= old(self).peers_view());
                assert(self.clients_view() =~= old(self).clients_view());
            }
            match outcome {
                Ok(_) => {},
                Err(_) => {
                    proof {
                        assert(false);
                    }
                    return Err(SimulationError::UpdateFailed { peer_id: target });
                },
            }
            proof {
                assert(self.replay_view() =~= replay_before.update(
                    update_view.peer_id.0 - 1,
                    crate::update::apply_changes_spec(
                        replay_before[update_view.peer_id.0 - 1],
                        update_view.changes,
                    ),
                ));
                applied = applied + 1;
            }
        }
        proof {
            assert(update_views.skip(update_views.len() as int) =~= Seq::<UpdateView>::empty());
        }
        if self.replay_peers.len() != self.peers.len() {
            return Err(SimulationError::ChecksNotEnabled);
        }
        let mut index: usize = 0;
        while index < self.peers.len()
            invariant
                self.inv(),
                index <= self.peers_view().len(),
                update_views == Seq::new(updates@.len(), |i: int| updates@[i]@),
                self.peers_view() == old(self).peers_view(),
                self.clients_view() == old(self).clients_view(),
                self.replay_view().len() == self.peers_view().len(),
                Some(self.replay_view()) == apply_updates_spec(
                    old(self).replay_view(),
                    update_views,
                ),
                forall|i: int|
                    0 <= i < index ==> observably_equal(
                        #[trigger] self.peers_view()[i],
                        self.replay_view()[i],
                    ),
            decreases self.peers_view().len() - index,
        {
            if !self.check_peer(index) {
                proof {
                    assert(!observably_equal(
                        old(self).peers_view()[index as int],
                        self.replay_view()[index as int],
                    ));
                }
                return Err(SimulationError::Mismatch { peer_id: PeerId(index + 1) });
            }
            index = index + 1;
        }
        Ok(())
    }

}


/// Terms never retreat across one peer-message delivery of the driver.
proof fn lemma_transmit_delivery_term_monotonic(
    peers: Seq<PeerView>,
    after: Seq<PeerView>,
    sender_index: int,
    removed_position: int,
    sender_id: PeerId,
    request_id: RequestId,
    message: crate::message::PeerMessageView,
)
    requires
        0 <= sender_index < peers.len(),
        0 <= removed_position < peers[sender_index].peer_outbox.len(),
        ({
            let sender = peers[sender_index];
            let removed = peers.update(
                sender_index,
                PeerView { peer_outbox: sender.peer_outbox.remove(removed_position), ..sender },
            );
            exists|target_index: int|
                0 <= target_index < peers.len() && after == removed.update(
                    target_index,
                    #[trigger] receive_peer_message_step(
                        removed[target_index],
                        sender_id,
                        request_id,
                        message,
                    ),
                )
        }),
    ensures
        after.len() == peers.len(),
        forall|i: int|
            0 <= i < peers.len() ==> (#[trigger] after[i]).current_term.0
                >= peers[i].current_term.0,
{
    let sender = peers[sender_index];
    let removed = peers.update(
        sender_index,
        PeerView { peer_outbox: sender.peer_outbox.remove(removed_position), ..sender },
    );
    let target_index = choose|target_index: int|
        0 <= target_index < peers.len() && after == removed.update(
            target_index,
            #[trigger] receive_peer_message_step(
                removed[target_index],
                sender_id,
                request_id,
                message,
            ),
        );
    assert forall|i: int| 0 <= i < peers.len() implies (#[trigger] after[i]).current_term.0
        >= peers[i].current_term.0 by {
        crate::peer::lemma_peer_message_term_monotonic(
            removed[target_index],
            sender_id,
            request_id,
            message,
        );
        if i != target_index {
            assert(after[i] == removed[i]);
        }
    }
}

/// Terms never retreat when one queued peer request is delivered.
proof fn lemma_transmit_peer_request_term_monotonic(
    peers: Seq<PeerView>,
    peer_id: PeerId,
    request_id: RequestId,
    after: Seq<PeerView>,
)
    requires
        transmit_peer_request_spec(peers, peer_id, request_id) == Some(after),
    ensures
        after.len() == peers.len(),
        forall|i: int|
            0 <= i < peers.len() ==> (#[trigger] after[i]).current_term.0
                >= peers[i].current_term.0,
{
    let sender = peers[peer_id.0 - 1];
    let position = peer_request_find(sender.peer_outbox, request_id);
    let transmit = sender.peer_outbox[position];
    lemma_peer_request_find(sender.peer_outbox, request_id);
    lemma_transmit_delivery_term_monotonic(
        peers,
        after,
        peer_id.0 - 1,
        position,
        peer_id,
        transmit.request_id,
        transmit.message,
    );
}

/// Terms never retreat when one queued peer reply is delivered.
proof fn lemma_transmit_peer_reply_term_monotonic(
    peers: Seq<PeerView>,
    peer_id: PeerId,
    replied_peer_id: PeerId,
    request_id: RequestId,
    after: Seq<PeerView>,
)
    requires
        transmit_peer_reply_spec(peers, peer_id, replied_peer_id, request_id) == Some(after),
    ensures
        after.len() == peers.len(),
        forall|i: int|
            0 <= i < peers.len() ==> (#[trigger] after[i]).current_term.0
                >= peers[i].current_term.0,
{
    let sender = peers[peer_id.0 - 1];
    let position = peer_reply_find(sender.peer_outbox, replied_peer_id, request_id);
    let transmit = sender.peer_outbox[position];
    lemma_peer_reply_find(sender.peer_outbox, replied_peer_id, request_id);
    lemma_transmit_delivery_term_monotonic(
        peers,
        after,
        peer_id.0 - 1,
        position,
        peer_id,
        transmit.request_id,
        transmit.message,
    );
}

/// Terms never retreat over a run of listed peer-request deliveries.
proof fn lemma_transmit_peer_requests_term_monotonic(
    peers: Seq<PeerView>,
    peer_id: PeerId,
    request_ids: Seq<RequestId>,
    after: Seq<PeerView>,
)
    requires
        transmit_peer_requests_spec(peers, peer_id, request_ids) == Some(after),
    ensures
        after.len() == peers.len(),
        forall|i: int|
            0 <= i < peers.len() ==> (#[trigger] after[i]).current_term.0
                >= peers[i].current_term.0,
    decreases request_ids.len(),
{
    if request_ids.len() == 0 {
        assert(after == peers);
    } else {
        let delivered = transmit_peer_request_spec(peers, peer_id, request_ids[0])->Some_0;
        lemma_transmit_peer_request_term_monotonic(peers, peer_id, request_ids[0], delivered);
        lemma_transmit_peer_requests_term_monotonic(
            delivered,
            peer_id,
            request_ids.drop_first(),
            after,
        );
    }
}

/// Terms never retreat over a run of listed peer-reply deliveries.
proof fn lemma_transmit_peer_replies_term_monotonic(
    peers: Seq<PeerView>,
    peer_id: PeerId,
    replied_peer_ids_and_request_ids: Seq<(PeerId, RequestId)>,
    after: Seq<PeerView>,
)
    requires
        transmit_peer_replies_spec(peers, peer_id, replied_peer_ids_and_request_ids) == Some(
            after,
        ),
    ensures
        after.len() == peers.len(),
        forall|i: int|
            0 <= i < peers.len() ==> (#[trigger] after[i]).current_term.0
                >= peers[i].current_term.0,
    decreases replied_peer_ids_and_request_ids.len(),
{
    if replied_peer_ids_and_request_ids.len() == 0 {
        assert(after == peers);
    } else {
        let pair = replied_peer_ids_and_request_ids[0];
        let delivered = transmit_peer_reply_spec(peers, peer_id, pair.0, pair.1)->Some_0;
        lemma_transmit_peer_reply_term_monotonic(peers, peer_id, pair.0, pair.1, delivered);
        lemma_transmit_peer_replies_term_monotonic(
            delivered,
            peer_id,
            replied_peer_ids_and_request_ids.drop_first(),
            after,
        );
    }
}

/// Terms never retreat over a run of listed election timeouts.
proof fn lemma_timeout_elections_term_monotonic(
    peers: Seq<PeerView>,
    peer_ids: Seq<PeerId>,
    after: Seq<PeerView>,
)
    requires
        timeout_elections_spec(peers, peer_ids) == Some(after),
    ensures
        after.len() == peers.len(),
        forall|i: int|
            0 <= i < peers.len() ==> (#[trigger] after[i]).current_term.0
                >= peers[i].current_term.0,
    decreases peer_ids.len(),
{
    if peer_ids.len() == 0 {
        assert(after == peers);
    } else {
        let peer_id = peer_ids[0];
        let stepped = peers.update(
            peer_id.0 - 1,
            election_timeout_step(peers[peer_id.0 - 1]),
        );
        lemma_timeout_elections_term_monotonic(stepped, peer_ids.drop_first(), after);
    }
}

/// Terms never retreat over a run of listed peer-request drops.
proof fn lemma_drop_peer_requests_term_monotonic(
    peers: Seq<PeerView>,
    peer_id: PeerId,
    request_ids: Seq<RequestId>,
    after: Seq<PeerView>,
)
    requires
        drop_peer_requests_spec(peers, peer_id, request_ids) == Some(after),
    ensures
        after.len() == peers.len(),
        forall|i: int|
            0 <= i < peers.len() ==> (#[trigger] after[i]).current_term.0
                >= peers[i].current_term.0,
    decreases request_ids.len(),
{
    if request_ids.len() == 0 {
        assert(after == peers);
    } else {
        let dropped = drop_peer_request_spec(peers, peer_id, request_ids[0])->Some_0;
        lemma_drop_peer_requests_term_monotonic(dropped, peer_id, request_ids.drop_first(), after);
    }
}

/// Terms never retreat over a run of listed peer-reply drops.
proof fn lemma_drop_peer_replies_term_monotonic(
    peers: Seq<PeerView>,
    peer_id: PeerId,
    replied_peer_ids_and_request_ids: Seq<(PeerId, RequestId)>,
    after: Seq<PeerView>,
)
    requires
        drop_peer_replies_spec(peers, peer_id, replied_peer_ids_and_request_ids) == Some(after),
    ensures
        after.len() == peers.len(),
        forall|i: int|
            0 <= i < peers.len() ==> (#[trigger] after[i]).current_term.0
                >= peers[i].current_term.0,
    decreases replied_peer_ids_and_request_ids.len(),
{
    if replied_peer_ids_and_request_ids.len() == 0 {
        assert(after == peers);
    } else {
        let pair = replied_peer_ids_and_request_ids[0];
        let dropped = drop_peer_reply_spec(peers, peer_id, pair.0, pair.1)->Some_0;
        lemma_drop_peer_replies_term_monotonic(
            dropped,
            peer_id,
            replied_peer_ids_and_request_ids.drop_first(),
            after,
        );
    }
}

/// No successfully performed action ever lowers any peer's current term:
/// terms are monotonic across the whole driver.
pub proof fn lemma_action_step_term_monotonic(
    before: SimulationStateView,
    action: ActionView,
    after: SimulationStateView,
)
    requires
        action_enabled(before, action),
        action_step_rel(before, action, after),
    ensures
        after.peers.len() == before.peers.len(),
        forall|i: int|
            0 <= i < before.peers.len() ==> (#[trigger] after.peers[i]).current_term.0
                >= before.peers[i].current_term.0,
{
    match action {
        ActionView::TimeoutElection { peer_id } => {
            assert forall|i: int| 0 <= i < before.peers.len() implies (
            #[trigger] after.peers[i]).current_term.0 >= before.peers[i].current_term.0 by {
                if i != peer_id.0 - 1 {
                    assert(after.peers[i] == before.peers[i]);
                }
            }
        },
        ActionView::TimeoutHeartbeat { peer_id } => {
            assert forall|i: int| 0 <= i < before.peers.len() implies (
            #[trigger] after.peers[i]).current_term.0 >= before.peers[i].current_term.0 by {
                if i != peer_id.0 - 1 {
                    assert(after.peers[i] == before.peers[i]);
                }
            }
        },
        ActionView::ApplyCommitted { peer_id } => {
            assert forall|i: int| 0 <= i < before.peers.len() implies (
            #[trigger] after.peers[i]).current_term.0 >= before.peers[i].current_term.0 by {
                match peer_id {
                    Some(peer_id) => {
                        if i != peer_id.0 - 1 {
                            assert(after.peers[i] == before.peers[i]);
                        }
                    },
                    None => {},
                }
            }
        },
        ActionView::DropPeerRequest { peer_id, request_id } => {
            assert forall|i: int| 0 <= i < before.peers.len() implies (
            #[trigger] after.peers[i]).current_term.0 >= before.peers[i].current_term.0 by {
                if i != peer_id.0 - 1 {
                    assert(after.peers[i] == before.peers[i]);
                }
            }
        },
        ActionView::DropPeerRequests { peer_id, request_ids } => {
            lemma_drop_peer_requests_term_monotonic(
                before.peers,
                peer_id,
                request_ids,
                after.peers,
            );
        },
        ActionView::DropPeerReply { peer_id, replied_peer_id_and_request_id } => {
            assert forall|i: int| 0 <= i < before.peers.len() implies (
            #[trigger] after.peers[i]).current_term.0 >= before.peers[i].current_term.0 by {
                if i != peer_id.0 - 1 {
                    assert(after.peers[i] == before.peers[i]);
                }
            }
        },
        ActionView::DropPeerReplies { peer_id, replied_peer_ids_and_request_ids } => {
            lemma_drop_peer_replies_term_monotonic(
                before.peers,
                peer_id,
                replied_peer_ids_and_request_ids,
                after.peers,
            );
        },
        ActionView::TransmitClientRequest { client_id, request_id } => {
            let sender = before.clients[client_id.0 - 1];
            let position = client_request_find(sender.outbox, request_id);
            let transmit = sender.outbox[position];
            assert forall|i: int| 0 <= i < before.peers.len() implies (
            #[trigger] after.peers[i]).current_term.0 >= before.peers[i].current_term.0 by {
                if i != transmit.peer_id.0 - 1 {
                    assert(after.peers[i] == before.peers[i]);
                }
            }
        },
        ActionView::TransmitClientReply { peer_id, replied_client_id_and_request_id } => {
            assert forall|i: int| 0 <= i < before.peers.len() implies (
            #[trigger] after.peers[i]).current_term.0 >= before.peers[i].current_term.0 by {
                if i != peer_id.0 - 1 {
                    assert(after.peers[i] == before.peers[i]);
                }
            }
        },
        ActionView::DropClientReply { peer_id, replied_client_id_and_request_id } => {
            assert forall|i: int| 0 <= i < before.peers.len() implies (
            #[trigger] after.peers[i]).current_term.0 >= before.peers[i].current_term.0 by {
                if i != peer_id.0 - 1 {
                    assert(after.peers[i] == before.peers[i]);
                }
            }
        },
        ActionView::TimeoutElections { peer_ids } => {
            lemma_timeout_elections_term_monotonic(before.peers, peer_ids, after.peers);
        },
        ActionView::TransmitPeerRequest { peer_id, request_id } => {
            lemma_transmit_peer_request_term_monotonic(
                before.peers,
                peer_id,
                request_id,
                after.peers,
            );
        },
        ActionView::TransmitPeerRequests { peer_id, request_ids } => {
            lemma_transmit_peer_requests_term_monotonic(
                before.peers,
                peer_id,
                request_ids,
                after.peers,
            );
        },
        ActionView::TransmitPeerReply { peer_id, replied_peer_id_and_request_id } => {
            lemma_transmit_peer_reply_term_monotonic(
                before.peers,
                peer_id,
                replied_peer_id_and_request_id.0,
                replied_peer_id_and_request_id.1,
                after.peers,
            );
        },
        ActionView::TransmitPeerReplies { peer_id, replied_peer_ids_and_request_ids } => {
            lemma_transmit_peer_replies_term_monotonic(
                before.peers,
                peer_id,
                replied_peer_ids_and_request_ids,
                after.peers,
            );
        },
        ActionView::SendCommand { .. } => {},
        ActionView::SendQuery { .. } => {},
        ActionView::Check { .. } => {},
    }
}

/// Terms are monotonic across any successful run of actions.
pub proof fn lemma_run_term_monotonic(
    before: SimulationStateView,
    actions: Seq<ActionView>,
    after: SimulationStateView,
)
    requires
        actions_run_to(before, actions, after),
    ensures
        after.peers.len() == before.peers.len(),
        forall|i: int|
            0 <= i < before.peers.len() ==> (#[trigger] after.peers[i]).current_term.0
                >= before.peers[i].current_term.0,
    decreases actions.len(),
{
    if actions.len() > 0 {
        let mid = choose|mid: SimulationStateView|
            #[trigger] action_step_rel(before, actions[0], mid) && action_enabled(
                before,
                actions[0],
            ) && actions_run_to(mid, actions.drop_first(), after);
        lemma_action_step_term_monotonic(before, actions[0], mid);
        lemma_run_term_monotonic(mid, actions.drop_first(), after);
    }
}

} // verus!
