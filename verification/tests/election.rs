//! Election tests: the five-peer seed scenario, checked step by step
//! against the replay oracle.

use std::collections::VecDeque;

use rafty::action::Action;
use rafty::kv::{Command, Machine};
use rafty::log::LogEntry;
use rafty::message::{
    AppendEntriesReply, AppendEntriesRequest, PeerMessage, RequestVoteReply, RequestVoteRequest,
    Vote,
};
use rafty::primitives::{Consistency, LogIndex, PeerId, RequestId, Term};
use rafty::role::{CandidateState, FollowerState, IndexMap, LeaderState, RequestMap, Role};
use rafty::simulation::Simulation;
use rafty::snapshot::Snapshot;
use rafty::storage::MemoryStorage;
use rafty::transmit::PeerTransmit;
use rafty::update::Update;

fn no_op_entry() -> LogEntry {
    LogEntry::new(LogIndex(1), Term(1), Command::NoOp)
}

fn initial_append_entries_request() -> AppendEntriesRequest {
    AppendEntriesRequest::new(
        Term(1),
        PeerId(2),
        LogIndex(0),
        Term(0),
        vec![no_op_entry()],
        LogIndex(0),
    )
}

fn heartbeat_request() -> AppendEntriesRequest {
    AppendEntriesRequest::new(Term(1), PeerId(2), LogIndex(1), Term(1), vec![], LogIndex(1))
}

fn leader_state(
    match_one: usize,
    match_three: usize,
    match_four: usize,
    match_five: usize,
    recorded: &[usize],
    request: &AppendEntriesRequest,
) -> LeaderState {
    let next_index = IndexMap::from_pairs(vec![
        (PeerId(1), LogIndex(2)),
        (PeerId(3), LogIndex(2)),
        (PeerId(4), LogIndex(2)),
        (PeerId(5), LogIndex(2)),
    ]);
    let match_index = IndexMap::from_pairs(vec![
        (PeerId(1), LogIndex(match_one)),
        (PeerId(2), LogIndex(1)),
        (PeerId(3), LogIndex(match_three)),
        (PeerId(4), LogIndex(match_four)),
        (PeerId(5), LogIndex(match_five)),
    ]);
    let mut append_entries_requests = RequestMap::new();
    for request_id in recorded {
        append_entries_requests.push_entry(RequestId(*request_id), request.clone());
    }
    LeaderState::new(next_index, match_index, append_entries_requests)
}

#[test]
fn single_candidate_election() {
    let consistency = Consistency::Strong;
    let number_of_clients = 2;
    let number_of_peers: usize = 5;

    let initial_peer_storages = vec![MemoryStorage::default(); number_of_peers];
    let replay_storages = initial_peer_storages.clone();

    let mut actions: Vec<Action> = Vec::new();

    // Cluster initializes.
    actions.push(Action::Check {
        updates: (1..=number_of_peers)
            .map(|peer_id| {
                Update::peer(PeerId(peer_id))
                    .set_term(Term(0))
                    .set_voted_for(None)
                    .set_log(vec![])
                    .set_commit_index(LogIndex(0))
                    .set_last_applied(LogIndex(0))
                    .set_role(Role::Follower(FollowerState::new(None)))
                    .set_machine(Machine::default())
                    .set_snapshot(Snapshot::default())
                    .clear_buffered_peer_transmits()
            })
            .collect(),
    });

    // Election times out on peer 2.
    actions.push(Action::TimeoutElection { peer_id: PeerId(2) });
    actions.push(Action::Check {
        updates: vec![Update::peer(PeerId(2))
            .set_term(Term(1))
            .set_voted_for(Some(PeerId(2)))
            .set_role(Role::Candidate(CandidateState::new(
                1,
                vec![RequestId(0), RequestId(1), RequestId(2), RequestId(3)],
            )))
            .set_buffered_peer_transmits(
                (1..=number_of_peers)
                    .filter(|peer_id| *peer_id != 2)
                    .enumerate()
                    .map(|(request_id, peer_id)| {
                        let request =
                            RequestVoteRequest::new(Term(1), PeerId(2), LogIndex(0), Term(0));
                        PeerTransmit::new(
                            PeerId(peer_id),
                            RequestId(request_id),
                            PeerMessage::RequestVoteRequest(request),
                        )
                    })
                    .collect::<VecDeque<_>>(),
            )],
    });

    // Peer 2 sends its vote requests to the other peers.
    actions.push(Action::TransmitPeerRequests {
        peer_id: PeerId(2),
        request_ids: vec![RequestId(0), RequestId(1), RequestId(2), RequestId(3)],
    });
    actions.push(Action::Check {
        updates: (1..=number_of_peers)
            .filter(|peer_id| *peer_id != 2)
            .enumerate()
            .map(|(request_id, peer_id)| {
                Update::peer(PeerId(peer_id))
                    .set_term(Term(1))
                    .set_voted_for(Some(PeerId(2)))
                    .set_buffered_peer_transmits(
                        std::iter::once(PeerTransmit::new(
                            PeerId(2),
                            RequestId(request_id),
                            PeerMessage::RequestVoteReply(RequestVoteReply::new(
                                Term(1),
                                Vote::Granted,
                            )),
                        ))
                        .collect::<VecDeque<_>>(),
                    )
            })
            .chain(std::iter::once(
                Update::peer(PeerId(2)).clear_buffered_peer_transmits(),
            ))
            .collect(),
    });

    // Peer 1 replies to vote request 0 of peer 2.
    actions.push(Action::TransmitPeerReply {
        peer_id: PeerId(1),
        replied_peer_id_and_request_id: (PeerId(2), RequestId(0)),
    });
    actions.push(Action::Check {
        updates: vec![
            Update::peer(PeerId(1)).clear_buffered_peer_transmits(),
            Update::peer(PeerId(2)).set_role(Role::Candidate(CandidateState::new(
                2,
                vec![RequestId(1), RequestId(2), RequestId(3)],
            ))),
        ],
    });

    // Peer 3 replies to vote request 1 of peer 2: majority reached.
    actions.push(Action::TransmitPeerReply {
        peer_id: PeerId(3),
        replied_peer_id_and_request_id: (PeerId(2), RequestId(1)),
    });
    actions.push(Action::Check {
        updates: vec![
            Update::peer(PeerId(3)).clear_buffered_peer_transmits(),
            Update::peer(PeerId(2))
                .set_log(vec![no_op_entry()])
                .set_role(Role::Leader(leader_state(
                    0,
                    0,
                    0,
                    0,
                    &[4, 5, 6, 7],
                    &initial_append_entries_request(),
                )))
                .set_buffered_peer_transmits(
                    (1..=number_of_peers)
                        .filter(|peer_id| *peer_id != 2)
                        .enumerate()
                        .map(|(request_id, peer_id)| {
                            PeerTransmit::new(
                                PeerId(peer_id),
                                RequestId(request_id + 4),
                                PeerMessage::AppendEntriesRequest(
                                    initial_append_entries_request(),
                                ),
                            )
                        })
                        .collect::<VecDeque<_>>(),
                ),
        ],
    });

    // Peer 4 replies to vote request 2 of peer 2: stale, election over.
    actions.push(Action::TransmitPeerReply {
        peer_id: PeerId(4),
        replied_peer_id_and_request_id: (PeerId(2), RequestId(2)),
    });
    actions.push(Action::Check {
        updates: vec![Update::peer(PeerId(4)).clear_buffered_peer_transmits()],
    });

    // Peer 5 replies to vote request 3 of peer 2: stale, election over.
    actions.push(Action::TransmitPeerReply {
        peer_id: PeerId(5),
        replied_peer_id_and_request_id: (PeerId(2), RequestId(3)),
    });
    actions.push(Action::Check {
        updates: vec![Update::peer(PeerId(5)).clear_buffered_peer_transmits()],
    });

    // Peer 2 sends the initial replication requests to the other peers.
    actions.push(Action::TransmitPeerRequests {
        peer_id: PeerId(2),
        request_ids: vec![RequestId(4), RequestId(5), RequestId(6), RequestId(7)],
    });
    actions.push(Action::Check {
        updates: (1..=number_of_peers)
            .filter(|peer_id| *peer_id != 2)
            .enumerate()
            .map(|(request_id, peer_id)| {
                Update::peer(PeerId(peer_id))
                    .set_log(vec![no_op_entry()])
                    .set_role(Role::Follower(FollowerState::new(Some(PeerId(2)))))
                    .set_buffered_peer_transmits(
                        std::iter::once(PeerTransmit::new(
                            PeerId(2),
                            RequestId(request_id + 4),
                            PeerMessage::AppendEntriesReply(AppendEntriesReply::new(
                                Term(1),
                                true,
                            )),
                        ))
                        .collect::<VecDeque<_>>(),
                    )
            })
            .chain(std::iter::once(
                Update::peer(PeerId(2)).clear_buffered_peer_transmits(),
            ))
            .collect(),
    });

    // Peer 1 replies to replication request 4 of peer 2.
    actions.push(Action::TransmitPeerReply {
        peer_id: PeerId(1),
        replied_peer_id_and_request_id: (PeerId(2), RequestId(4)),
    });
    actions.push(Action::Check {
        updates: vec![
            Update::peer(PeerId(1)).clear_buffered_peer_transmits(),
            Update::peer(PeerId(2)).set_role(Role::Leader(leader_state(
                1,
                0,
                0,
                0,
                &[5, 6, 7],
                &initial_append_entries_request(),
            ))),
        ],
    });

    // Peer 3 replies to replication request 5 of peer 2: majority replicated.
    actions.push(Action::TransmitPeerReply {
        peer_id: PeerId(3),
        replied_peer_id_and_request_id: (PeerId(2), RequestId(5)),
    });
    actions.push(Action::Check {
        updates: vec![
            Update::peer(PeerId(3)).clear_buffered_peer_transmits(),
            Update::peer(PeerId(2))
                .set_commit_index(LogIndex(1))
                .set_role(Role::Leader(leader_state(
                    1,
                    1,
                    0,
                    0,
                    &[6, 7],
                    &initial_append_entries_request(),
                ))),
        ],
    });

    // Peers apply committed entries: only the leader has learned the commit.
    actions.push(Action::ApplyCommitted { peer_id: None });
    actions.push(Action::Check {
        updates: vec![Update::peer(PeerId(2)).set_last_applied(LogIndex(1))],
    });

    // Peer 4 replies to replication request 6 of peer 2.
    actions.push(Action::TransmitPeerReply {
        peer_id: PeerId(4),
        replied_peer_id_and_request_id: (PeerId(2), RequestId(6)),
    });
    actions.push(Action::Check {
        updates: vec![
            Update::peer(PeerId(4)).clear_buffered_peer_transmits(),
            Update::peer(PeerId(2)).set_role(Role::Leader(leader_state(
                1,
                1,
                1,
                0,
                &[7],
                &initial_append_entries_request(),
            ))),
        ],
    });

    // Peer 5 replies to replication request 7 of peer 2.
    actions.push(Action::TransmitPeerReply {
        peer_id: PeerId(5),
        replied_peer_id_and_request_id: (PeerId(2), RequestId(7)),
    });
    actions.push(Action::Check {
        updates: vec![
            Update::peer(PeerId(5)).clear_buffered_peer_transmits(),
            Update::peer(PeerId(2)).set_role(Role::Leader(leader_state(
                1,
                1,
                1,
                1,
                &[],
                &initial_append_entries_request(),
            ))),
        ],
    });

    // Heartbeat times out on peer 2.
    actions.push(Action::TimeoutHeartbeat { peer_id: PeerId(2) });
    actions.push(Action::Check {
        updates: vec![Update::peer(PeerId(2))
            .set_role(Role::Leader(leader_state(
                1,
                1,
                1,
                1,
                &[8, 9, 10, 11],
                &heartbeat_request(),
            )))
            .set_buffered_peer_transmits(
                (1..=number_of_peers)
                    .filter(|peer_id| *peer_id != 2)
                    .enumerate()
                    .map(|(request_id, peer_id)| {
                        PeerTransmit::new(
                            PeerId(peer_id),
                            RequestId(request_id + 8),
                            PeerMessage::AppendEntriesRequest(heartbeat_request()),
                        )
                    })
                    .collect::<VecDeque<_>>(),
            )],
    });

    // Peer 2 sends the heartbeats to the other peers.
    actions.push(Action::TransmitPeerRequests {
        peer_id: PeerId(2),
        request_ids: vec![RequestId(8), RequestId(9), RequestId(10), RequestId(11)],
    });
    actions.push(Action::Check {
        updates: (1..=number_of_peers)
            .filter(|peer_id| *peer_id != 2)
            .enumerate()
            .map(|(request_id, peer_id)| {
                Update::peer(PeerId(peer_id))
                    .set_commit_index(LogIndex(1))
                    .set_last_applied(LogIndex(0))
                    .set_buffered_peer_transmits(
                        std::iter::once(PeerTransmit::new(
                            PeerId(2),
                            RequestId(request_id + 8),
                            PeerMessage::AppendEntriesReply(AppendEntriesReply::new(
                                Term(1),
                                true,
                            )),
                        ))
                        .collect::<VecDeque<_>>(),
                    )
            })
            .chain(std::iter::once(
                Update::peer(PeerId(2)).clear_buffered_peer_transmits(),
            ))
            .collect(),
    });

    // Peers apply committed entries: now everybody has applied the no-op.
    actions.push(Action::ApplyCommitted { peer_id: None });
    actions.push(Action::Check {
        updates: (1..=number_of_peers)
            .filter(|peer_id| *peer_id != 2)
            .map(|peer_id| Update::peer(PeerId(peer_id)).set_last_applied(LogIndex(1)))
            .collect(),
    });

    let mut simulation =
        Simulation::new(consistency, initial_peer_storages, number_of_clients)
            .enable_checks(replay_storages);
    let outcome = simulation.run(actions);
    assert!(outcome.is_ok(), "{:?}", outcome);
}
