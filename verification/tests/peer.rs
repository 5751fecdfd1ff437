//! Single-peer behaviors: vote rules and replication boundaries.

use rafty::kv::{Command, Machine};
use rafty::log::LogEntry;
use rafty::message::{
    AppendEntriesRequest, PeerMessage, RequestVoteRequest, Vote,
};
use rafty::peer::Peer;
use rafty::primitives::{ClientId, Cluster, Consistency, LogIndex, PeerId, RequestId, Term};
use rafty::snapshot::Snapshot;
use rafty::storage::MemoryStorage;

fn cluster_of(n: usize) -> Cluster {
    Cluster::new((1..=n).map(PeerId).collect())
}

fn fresh_peer(id: usize, n: usize) -> Peer<MemoryStorage> {
    Peer::new(PeerId(id), cluster_of(n), Consistency::Strong, MemoryStorage::new())
}

#[test]
fn vote_request_uses_snapshot_when_log_is_empty() {
    let mut peer = fresh_peer(1, 3);
    peer.set_snapshot(Snapshot::new(LogIndex(7), Term(3), Machine::new())).unwrap();
    peer.trigger_election_timeout();
    let transmits = peer.buffered_peer_transmits();
    assert_eq!(transmits.len(), 2);
    match transmits[0].message() {
        PeerMessage::RequestVoteRequest(request) => {
            assert_eq!(request.last_log_index, LogIndex(7));
            assert_eq!(request.last_log_term, Term(3));
            assert_eq!(request.term, Term(1));
            assert_eq!(request.candidate_id, PeerId(1));
        },
        other => panic!("unexpected message {:?}", other),
    }
}

#[test]
fn zero_prev_log_index_bypasses_consistency_check() {
    let mut peer = fresh_peer(1, 3);
    let entry = LogEntry::new(LogIndex(1), Term(1), Command::NoOp);
    let request = AppendEntriesRequest::new(
        Term(1),
        PeerId(2),
        LogIndex(0),
        Term(0),
        vec![entry],
        LogIndex(0),
    );
    peer.receive_peer_message(PeerId(2), RequestId(0), PeerMessage::AppendEntriesRequest(request));
    assert_eq!(peer.log().len(), 1);
    assert_eq!(peer.commit_index(), LogIndex(0));
    let transmits = peer.buffered_peer_transmits();
    assert_eq!(transmits.len(), 1);
    match transmits[0].message() {
        PeerMessage::AppendEntriesReply(reply) => {
            assert!(reply.success);
            assert_eq!(reply.term, Term(0));
        },
        other => panic!("unexpected message {:?}", other),
    }
}

#[test]
fn conflicting_prev_log_term_truncates_from_prev_log_index() {
    let mut peer = fresh_peer(1, 3);
    peer.set_current_term(Term(1)).unwrap();
    peer.set_log(vec![
        LogEntry::new(LogIndex(1), Term(1), Command::NoOp),
        LogEntry::new(LogIndex(2), Term(1), Command::NoOp),
    ])
    .unwrap();
    let request = AppendEntriesRequest::new(
        Term(1),
        PeerId(2),
        LogIndex(2),
        Term(9),
        vec![],
        LogIndex(0),
    );
    peer.receive_peer_message(PeerId(2), RequestId(0), PeerMessage::AppendEntriesRequest(request));
    assert_eq!(peer.log().len(), 1);
    assert_eq!(peer.log().at(0).index(), LogIndex(1));
    let transmits = peer.buffered_peer_transmits();
    match transmits[0].message() {
        PeerMessage::AppendEntriesReply(reply) => {
            assert!(!reply.success);
            assert_eq!(reply.term, Term(1));
        },
        other => panic!("unexpected message {:?}", other),
    }
}

#[test]
fn missing_prev_log_entry_is_refused_without_truncation() {
    let mut peer = fresh_peer(1, 3);
    peer.set_current_term(Term(1)).unwrap();
    peer.set_log(vec![LogEntry::new(LogIndex(1), Term(1), Command::NoOp)]).unwrap();
    let request = AppendEntriesRequest::new(
        Term(1),
        PeerId(2),
        LogIndex(5),
        Term(1),
        vec![],
        LogIndex(0),
    );
    peer.receive_peer_message(PeerId(2), RequestId(0), PeerMessage::AppendEntriesRequest(request));
    assert_eq!(peer.log().len(), 1);
    match peer.buffered_peer_transmits()[0].message() {
        PeerMessage::AppendEntriesReply(reply) => assert!(!reply.success),
        other => panic!("unexpected message {:?}", other),
    }
}

#[test]
fn vote_denied_when_candidate_log_is_less_up_to_date() {
    let mut peer = fresh_peer(1, 3);
    peer.set_current_term(Term(1)).unwrap();
    peer.set_log(vec![LogEntry::new(LogIndex(1), Term(1), Command::NoOp)]).unwrap();
    let request = RequestVoteRequest::new(Term(2), PeerId(2), LogIndex(0), Term(0));
    peer.receive_peer_message(PeerId(2), RequestId(0), PeerMessage::RequestVoteRequest(request));
    match peer.buffered_peer_transmits()[0].message() {
        PeerMessage::RequestVoteReply(reply) => {
            assert_eq!(reply.vote, Vote::NotGrantedDueToBeingLessUpToDate);
            assert_eq!(reply.term, Term(2));
        },
        other => panic!("unexpected message {:?}", other),
    }
    assert_eq!(peer.current_term(), Term(2));
    assert_eq!(peer.voted_for(), None);
}

#[test]
fn vote_denied_when_already_granted_to_another_peer() {
    let mut peer = fresh_peer(1, 3);
    peer.set_current_term(Term(1)).unwrap();
    peer.set_voted_for(Some(PeerId(3))).unwrap();
    let request = RequestVoteRequest::new(Term(1), PeerId(2), LogIndex(0), Term(0));
    peer.receive_peer_message(PeerId(2), RequestId(0), PeerMessage::RequestVoteRequest(request));
    match peer.buffered_peer_transmits()[0].message() {
        PeerMessage::RequestVoteReply(reply) => {
            assert_eq!(reply.vote, Vote::NotGrantedDueToBeingGrantedToAnotherPeer);
        },
        other => panic!("unexpected message {:?}", other),
    }
    assert_eq!(peer.voted_for(), Some(PeerId(3)));
}

#[test]
fn stale_term_vote_request_is_refused() {
    let mut peer = fresh_peer(1, 3);
    peer.set_current_term(Term(5)).unwrap();
    let request = RequestVoteRequest::new(Term(3), PeerId(2), LogIndex(9), Term(3));
    peer.receive_peer_message(PeerId(2), RequestId(0), PeerMessage::RequestVoteRequest(request));
    match peer.buffered_peer_transmits()[0].message() {
        PeerMessage::RequestVoteReply(reply) => {
            assert_eq!(reply.vote, Vote::NotGrantedDueToBeingInHigherTerm);
            assert_eq!(reply.term, Term(5));
        },
        other => panic!("unexpected message {:?}", other),
    }
    assert_eq!(peer.current_term(), Term(5));
}

#[test]
fn applying_committed_entries_folds_commands_into_the_machine() {
    let mut peer = fresh_peer(1, 3);
    peer.set_log(vec![
        LogEntry::new(
            LogIndex(1),
            Term(1),
            Command::Insert { key: "k".to_string(), value: "v".to_string() },
        ),
        LogEntry::new(
            LogIndex(2),
            Term(1),
            Command::Upsert { key: "k".to_string(), value: "w".to_string() },
        ),
    ])
    .unwrap();
    peer.set_commit_index(LogIndex(2));
    peer.apply_committed();
    assert_eq!(peer.last_applied(), LogIndex(2));
    let value = peer.machine().query(&rafty::kv::Query::Entry { key: "k".to_string() });
    assert_eq!(value, rafty::kv::QueryResult::Entry { value: Some("w".to_string()) });
}

#[test]
fn command_request_redirects_to_known_leader() {
    let mut peer = fresh_peer(1, 3);
    peer.set_role(rafty::role::Role::Follower(rafty::role::FollowerState::new(Some(PeerId(3)))));
    peer.receive_client_message(
        ClientId(1),
        RequestId(0),
        rafty::message::ClientMessage::CommandRequest(rafty::message::CommandRequest::new(
            Command::NoOp,
        )),
    );
    let transmits = peer.buffered_client_transmits();
    assert_eq!(transmits.len(), 1);
    match transmits[0].message() {
        rafty::message::ClientMessage::CommandReply(reply) => {
            assert_eq!(
                reply.result,
                Err(rafty::errors::ClientError::LeaderChanged { new_leader_id: PeerId(3) }),
            );
        },
        other => panic!("unexpected message {:?}", other),
    }
}

#[test]
fn command_request_without_a_leader_reports_leader_unknown() {
    let mut peer = fresh_peer(1, 3);
    peer.receive_client_message(
        ClientId(1),
        RequestId(0),
        rafty::message::ClientMessage::CommandRequest(rafty::message::CommandRequest::new(
            Command::NoOp,
        )),
    );
    match peer.buffered_client_transmits()[0].message() {
        rafty::message::ClientMessage::CommandReply(reply) => {
            assert_eq!(reply.result, Err(rafty::errors::ClientError::LeaderUnknown));
        },
        other => panic!("unexpected message {:?}", other),
    }
}
