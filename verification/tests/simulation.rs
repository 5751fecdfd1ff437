//! Driver-level behaviors: idempotent errors, the update oracle, the
//! single-peer election and client submission.

use std::collections::VecDeque;

use rafty::action::Action;
use rafty::client::Client;
use rafty::errors::ClientError;
use rafty::kv::Command;
use rafty::message::PeerMessage;
use rafty::primitives::{ClientId, Cluster, Consistency, LogIndex, PeerId, RequestId, Term};
use rafty::simulation::{Simulation, SimulationError};
use rafty::storage::MemoryStorage;
use rafty::transmit::PeerTransmit;
use rafty::update::Update;

fn fresh_simulation(peers: usize, clients: usize) -> Simulation<MemoryStorage> {
    Simulation::new(Consistency::Strong, vec![MemoryStorage::default(); peers], clients)
}

#[test]
fn transmitting_a_missing_request_id_errors_and_changes_nothing() {
    let mut simulation = fresh_simulation(3, 1);
    simulation.perform(Action::TimeoutElection { peer_id: PeerId(1) }).unwrap();
    let term_before = simulation.peer(PeerId(1)).current_term();
    let queued_before = simulation.peer(PeerId(1)).buffered_peer_transmits().len();

    let outcome = simulation.perform(Action::TransmitPeerRequest {
        peer_id: PeerId(1),
        request_id: RequestId(99),
    });
    assert_eq!(
        outcome,
        Err(SimulationError::MissingPeerRequest {
            peer_id: PeerId(1),
            request_id: RequestId(99),
        }),
    );
    assert_eq!(simulation.peer(PeerId(1)).current_term(), term_before);
    assert_eq!(simulation.peer(PeerId(1)).buffered_peer_transmits().len(), queued_before);

    // The same action twice: the same descriptive error, still no change.
    let again = simulation.perform(Action::TransmitPeerRequest {
        peer_id: PeerId(1),
        request_id: RequestId(99),
    });
    assert_eq!(
        again,
        Err(SimulationError::MissingPeerRequest {
            peer_id: PeerId(1),
            request_id: RequestId(99),
        }),
    );
    assert_eq!(simulation.peer(PeerId(1)).current_term(), term_before);
    assert_eq!(simulation.peer(PeerId(1)).buffered_peer_transmits().len(), queued_before);
}

#[test]
fn dropping_a_missing_reply_errors_and_changes_nothing() {
    let mut simulation = fresh_simulation(3, 1);
    let outcome = simulation.perform(Action::DropPeerReply {
        peer_id: PeerId(2),
        replied_peer_id_and_request_id: (PeerId(1), RequestId(0)),
    });
    assert_eq!(
        outcome,
        Err(SimulationError::MissingPeerReply {
            peer_id: PeerId(2),
            replied_peer_id: PeerId(1),
            request_id: RequestId(0),
        }),
    );
    assert_eq!(simulation.peer(PeerId(2)).buffered_peer_transmits().len(), 0);
}

#[test]
fn clearing_then_setting_buffered_peer_transmits_yields_what_was_set() {
    let mut simulation = fresh_simulation(2, 1).enable_checks(vec![MemoryStorage::default(); 2]);
    simulation.perform(Action::TimeoutElection { peer_id: PeerId(1) }).unwrap();

    let expected: VecDeque<PeerTransmit> = std::iter::once(PeerTransmit::new(
        PeerId(2),
        RequestId(0),
        PeerMessage::RequestVoteRequest(rafty::message::RequestVoteRequest::new(
            Term(1),
            PeerId(1),
            LogIndex(0),
            Term(0),
        )),
    ))
    .collect();

    let outcome = simulation.perform(Action::Check {
        updates: vec![Update::peer(PeerId(1))
            .set_term(Term(1))
            .set_voted_for(Some(PeerId(1)))
            .set_role(rafty::role::Role::Candidate(rafty::role::CandidateState::new(
                1,
                vec![RequestId(0)],
            )))
            .clear_buffered_peer_transmits()
            .set_buffered_peer_transmits(expected)],
    });
    assert!(outcome.is_ok(), "{:?}", outcome);
}

#[test]
fn single_peer_cluster_election_becomes_leader_without_vote_requests() {
    let mut simulation = fresh_simulation(1, 1);
    simulation.perform(Action::TimeoutElection { peer_id: PeerId(1) }).unwrap();
    let peer = simulation.peer(PeerId(1));
    assert!(peer.role().is_leader());
    assert_eq!(peer.current_term(), Term(1));
    assert_eq!(peer.voted_for(), Some(PeerId(1)));
    assert_eq!(peer.buffered_peer_transmits().len(), 0);
    assert_eq!(peer.log().len(), 1);
}

#[test]
fn a_client_command_targets_a_cluster_member() {
    let mut simulation = fresh_simulation(3, 1);
    simulation
        .perform(Action::SendCommand {
            client_id: ClientId(1),
            peer_id: None,
            command: Command::NoOp,
        })
        .unwrap();
    let transmits = simulation.client(ClientId(1)).buffered_client_transmits();
    assert_eq!(transmits.len(), 1);
    let target = transmits[0].peer_id();
    assert!(1 <= target.0 && target.0 <= 3, "target {:?} outside the cluster", target);
    assert!(transmits[0].message().is_request());
}

#[test]
fn a_client_against_an_empty_cluster_reports_it() {
    let mut client = Client::new(ClientId(1), Cluster::new(vec![]));
    let outcome = client.command(Command::NoOp, None);
    assert_eq!(outcome, Err(ClientError::EmptyCluster));
}

#[test]
fn an_unknown_peer_id_is_refused() {
    let mut simulation = fresh_simulation(2, 1);
    let outcome = simulation.perform(Action::TimeoutElection { peer_id: PeerId(9) });
    assert_eq!(outcome, Err(SimulationError::UnknownPeer { peer_id: PeerId(9) }));
}

#[test]
fn checks_without_replay_peers_are_refused() {
    let mut simulation = fresh_simulation(2, 1);
    let outcome = simulation.perform(Action::Check { updates: vec![] });
    assert_eq!(outcome, Err(SimulationError::ChecksNotEnabled));
}
