//! The per-peer Raft state machine.

use vstd::prelude::*;

use crate::errors::{ClientError, StorageError};
use crate::kv::{Command, CommandView, Machine, MachineView, Query, QueryView, apply_spec, query_spec};
use crate::log::{
    Log, LogEntry, LogEntryView, lemma_append_preserves_contiguity, log_below, log_contiguous,
    log_find,
};
use crate::message::{
    AppendEntriesReply, AppendEntriesRequest, AppendEntriesRequestView, ClientMessage,
    ClientMessageView, CommandReply, PeerMessage, PeerMessageView, QueryReply, QueryReplyView,
    RequestVoteReply, RequestVoteRequest, Vote,
};
use crate::primitives::{
    ClientId, Cluster, Consistency, LogIndex, PeerId, RequestCounter, RequestId, Term,
    peer_ids_sorted,
};
use crate::role::{
    CandidateState, CandidateStateView, FollowerState, IndexMap, LeaderState, LeaderStateView,
    RequestMap, Role, RoleView, lemma_request_id_find, lemma_request_key_find, peer_key_find,
    request_id_find, request_ids_sorted, request_key_find,
};
use crate::snapshot::{Snapshot, SnapshotView};
use crate::storage::{Storage, StorageModel};
use crate::transmit::{ClientTransmit, ClientTransmitView, PeerTransmit, PeerTransmitView};
use std::collections::VecDeque;

verus! {

/// Mathematical image of a [`Peer`]: every observable part of its state.
#[verifier::ext_equal]
pub ghost struct PeerView {
    pub id: PeerId,
    pub cluster: Seq<PeerId>,
    pub consistency: Consistency,
    pub role: RoleView,
    pub machine: MachineView,
    pub current_term: Term,
    pub voted_for: Option<PeerId>,
    pub log: Seq<LogEntryView>,
    pub snapshot: SnapshotView,
    pub commit_index: LogIndex,
    pub last_applied: LogIndex,
    pub next_request_id: usize,
    pub peer_outbox: Seq<PeerTransmitView>,
    pub client_outbox: Seq<ClientTransmitView>,
}

/// The other members of the cluster, in cluster order.
pub open spec fn others_of(cluster: Seq<PeerId>, id: PeerId) -> Seq<PeerId>
    decreases cluster.len(),
{
    if cluster.len() == 0 {
        Seq::empty()
    } else {
        let rest = others_of(cluster.drop_last(), id);
        if cluster.last() == id {
            rest
        } else {
            rest.push(cluster.last())
        }
    }
}

/// How many peers make a majority of the cluster.
pub open spec fn majority_of(cluster: Seq<PeerId>) -> int {
    cluster.len() as int / 2 + 1
}

/// The index of the last log entry, or of the snapshot when the log is empty.
pub open spec fn last_log_index(p: PeerView) -> LogIndex {
    if p.log.len() > 0 {
        p.log.last().index
    } else {
        p.snapshot.last_included_index
    }
}

/// The term of the last log entry, or of the snapshot when the log is empty.
pub open spec fn last_log_term(p: PeerView) -> Term {
    if p.log.len() > 0 {
        p.log.last().term
    } else {
        p.snapshot.last_included_term
    }
}

/// Structural invariant every live peer keeps: the cluster is an ordered set
/// containing the peer, and every request id a role records was issued by
/// this peer's counter.
pub open spec fn peer_inv(p: PeerView) -> bool {
    &&& peer_ids_sorted(p.cluster)
    &&& p.cluster.contains(p.id)
    &&& (p.role matches RoleView::Candidate(c) ==> {
        &&& forall|j: int|
            0 <= j < c.vote_request_ids.len() ==> (#[trigger] c.vote_request_ids[j]).0
                < p.next_request_id
        &&& c.votes_granted + c.vote_request_ids.len() <= p.cluster.len()
    })
    &&& (p.role matches RoleView::Leader(l) ==> forall|j: int|
        0 <= j < l.append_entries_requests.len() ==> (#[trigger] l.append_entries_requests[j]).0.0
            < p.next_request_id)
}

/// A cluster of `n` distinct members has `n - 1` members besides `id`.
pub proof fn lemma_others_len(cluster: Seq<PeerId>, id: PeerId)
    requires
        peer_ids_sorted(cluster),
        cluster.contains(id),
    ensures
        others_of(cluster, id).len() == cluster.len() - 1,
    decreases cluster.len(),
{
    if cluster.len() > 0 {
        let last = cluster.last();
        let rest = cluster.drop_last();
        if last == id {
            lemma_others_all(rest, id);
        } else {
            let k = choose|k: int| 0 <= k < cluster.len() && cluster[k] == id;
            assert(0 <= k < rest.len() && rest[k] == id);
            assert(rest.contains(id));
            assert(peer_ids_sorted(rest)) by {
                assert forall|i: int, j: int| 0 <= i < j < rest.len() implies (
                #[trigger] rest[i]).0 < (#[trigger] rest[j]).0 by {
                    assert(cluster[i] == rest[i] && cluster[j] == rest[j]);
                }
            }
            lemma_others_len(rest, id);
        }
    }
}

/// A sequence not containing `id` keeps all its members.
pub proof fn lemma_others_all(s: Seq<PeerId>, id: PeerId)
    requires
        forall|j: int| 0 <= j < s.len() ==> (#[trigger] s[j]) != id,
    ensures
        others_of(s, id) == s,
    decreases s.len(),
{
    if s.len() == 0 {
        assert(others_of(s, id) =~= s);
    } else {
        let rest = s.drop_last();
        assert forall|j: int| 0 <= j < rest.len() implies (#[trigger] rest[j]) != id by {
            assert(s[j] == rest[j]);
        }
        lemma_others_all(rest, id);
        assert(others_of(s, id) =~= s);
    }
}

/// The machine after applying the commands of the entries with indices
/// `lo + 1 ..= hi`, each looked up in the log.
pub open spec fn apply_range(m: MachineView, log: Seq<LogEntryView>, lo: LogIndex, hi: LogIndex)
    -> MachineView
    decreases hi.0 - lo.0,
{
    if lo.0 >= hi.0 {
        m
    } else {
        let next = LogIndex((lo.0 + 1) as usize);
        let position = log_find(log, next);
        let stepped = apply_spec(m, log[position].command).0;
        apply_range(stepped, log, next, hi)
    }
}


/// The vote request a candidate broadcasts, computed on its persisted state.
pub open spec fn vote_request_of(p: PeerView) -> RequestVoteRequest {
    RequestVoteRequest {
        term: p.current_term,
        candidate_id: p.id,
        last_log_index: last_log_index(p),
        last_log_term: last_log_term(p),
    }
}

/// One message to every other peer, with fresh request ids from `first_id` on.
pub open spec fn broadcast_of(others: Seq<PeerId>, first_id: usize, message: PeerMessageView)
    -> Seq<PeerTransmitView> {
    Seq::new(
        others.len(),
        |k: int| PeerTransmitView {
            peer_id: others[k],
            request_id: RequestId((first_id + k) as usize),
            message,
        },
    )
}

/// The state after stepping up as leader (section: become leader): a no-op
/// entry is appended at the next index and replication to every other peer
/// begins, with `next_index` just past the no-op and `match_index` at the
/// snapshot boundary for the others.
pub open spec fn become_leader_step(p: PeerView) -> PeerView {
    let prev_log_index = last_log_index(p);
    let prev_log_term = last_log_term(p);
    let no_op_index = LogIndex((prev_log_index.0 + 1) as usize);
    let entry = LogEntryView { index: no_op_index, term: p.current_term, command: CommandView::NoOp };
    let request = AppendEntriesRequestView {
        term: p.current_term,
        leader_id: p.id,
        prev_log_index,
        prev_log_term,
        entries: seq![entry],
        leader_commit: p.commit_index,
    };
    let others = others_of(p.cluster, p.id);
    PeerView {
        log: p.log.push(entry),
        role: RoleView::Leader(
            LeaderStateView {
                next_index: Seq::new(
                    others.len(),
                    |k: int| (others[k], LogIndex((no_op_index.0 + 1) as usize)),
                ),
                match_index: Seq::new(
                    p.cluster.len(),
                    |k: int| (
                        p.cluster[k],
                        if p.cluster[k] == p.id {
                            no_op_index
                        } else {
                            p.snapshot.last_included_index
                        },
                    ),
                ),
                append_entries_requests: Seq::new(
                    others.len(),
                    |k: int| (RequestId((p.next_request_id + k) as usize), request),
                ),
            },
        ),
        next_request_id: (p.next_request_id + others.len()) as usize,
        peer_outbox: p.peer_outbox + broadcast_of(
            others,
            p.next_request_id,
            PeerMessageView::AppendEntriesRequest(request),
        ),
        ..p
    }
}

/// The state after an election timeout whose persist succeeded: the term
/// advances by one with a vote for self; a single-peer cluster becomes leader
/// at once, any other becomes a candidate and solicits every other peer.
pub open spec fn election_timeout_step(p: PeerView) -> PeerView {
    let persisted = PeerView {
        current_term: Term((p.current_term.0 + 1) as usize),
        voted_for: Some(p.id),
        ..p
    };
    if p.cluster.len() == 1 {
        become_leader_step(persisted)
    } else {
        let others = others_of(p.cluster, p.id);
        PeerView {
            role: RoleView::Candidate(
                CandidateStateView {
                    votes_granted: 1,
                    vote_request_ids: Seq::new(
                        others.len(),
                        |k: int| RequestId((p.next_request_id + k) as usize),
                    ),
                },
            ),
            next_request_id: (p.next_request_id + others.len()) as usize,
            peer_outbox: persisted.peer_outbox + broadcast_of(
                others,
                p.next_request_id,
                PeerMessageView::RequestVoteRequest(vote_request_of(persisted)),
            ),
            ..persisted
        }
    }
}

/// A freshly elected leader's first appended entry is a no-op at its
/// current term (leader completeness on no-op).
pub proof fn lemma_leader_appends_no_op_first(p: PeerView)
    ensures
        become_leader_step(p).log == p.log.push(
            LogEntryView {
                index: LogIndex((last_log_index(p).0 + 1) as usize),
                term: p.current_term,
                command: CommandView::NoOp,
            },
        ),
        become_leader_step(p).log.last().command == CommandView::NoOp,
        become_leader_step(p).log.last().term == p.current_term,
{
}

/// A peer of the cluster: the Raft state machine.
pub struct Peer<S: Storage> {
    pub(crate) id: PeerId,
    pub(crate) cluster: Cluster,
    pub(crate) consistency: Consistency,
    pub(crate) role: Role,
    pub(crate) machine: Machine,
    pub(crate) storage: S,
    pub(crate) commit_index: LogIndex,
    pub(crate) last_applied: LogIndex,
    pub(crate) request_counter: RequestCounter,
    pub(crate) buffered_peer_transmits: VecDeque<PeerTransmit>,
    pub(crate) buffered_client_transmits: VecDeque<ClientTransmit>,
}

impl<S: Storage> View for Peer<S> {
    type V = PeerView;

    closed spec fn view(&self) -> PeerView {
        PeerView {
            id: self.id,
            cluster: self.cluster@,
            consistency: self.consistency,
            role: self.role@,
            machine: self.machine@,
            current_term: self.storage.model().current_term,
            voted_for: self.storage.model().voted_for,
            log: self.storage.model().log,
            snapshot: self.storage.model().snapshot,
            commit_index: self.commit_index,
            last_applied: self.last_applied,
            next_request_id: self.request_counter.spec_next(),
            peer_outbox: Seq::new(
                self.buffered_peer_transmits@.len(),
                |i: int| self.buffered_peer_transmits@[i]@,
            ),
            client_outbox: Seq::new(
                self.buffered_client_transmits@.len(),
                |i: int| self.buffered_client_transmits@[i]@,
            ),
        }
    }
}

impl<S: Storage> Peer<S> {
    /// Whether this peer's storage never fails a write.
    pub open spec fn storage_reliable(&self) -> bool {
        self.spec_storage().reliable()
    }

    /// The storage of the peer, for specification purposes.
    pub closed spec fn spec_storage(&self) -> S {
        self.storage
    }

    /// Creates a new peer: a follower that knows no leader, with machine,
    /// commit index and last applied loaded from the storage's snapshot.
    pub fn new(id: PeerId, cluster: Cluster, consistency: Consistency, storage: S) -> (r: Peer<S>)
        requires
            cluster.wf(),
            cluster@.contains(id),
        ensures
            peer_inv(r@),
            r@.id == id,
            r@.cluster == cluster@,
            r@.consistency == consistency,
            r@.role == RoleView::Follower(crate::role::FollowerState { leader_id: None }),
            r@.machine == storage.model().snapshot.machine,
            r@.current_term == storage.model().current_term,
            r@.voted_for == storage.model().voted_for,
            r@.log == storage.model().log,
            r@.snapshot == storage.model().snapshot,
            r@.commit_index == storage.model().snapshot.last_included_index,
            r@.last_applied == storage.model().snapshot.last_included_index,
            r@.next_request_id == 0,
            r@.peer_outbox == Seq::<PeerTransmitView>::empty(),
            r@.client_outbox == Seq::<ClientTransmitView>::empty(),
            r.spec_storage() == storage,
    {
        let machine = storage.snapshot().machine().clone();
        let commit_index = storage.snapshot().last_included_index();
        let last_applied = storage.snapshot().last_included_index();
        let r = Peer {
            id,
            cluster,
            consistency,
            role: Role::default(),
            machine,
            storage,
            commit_index,
            last_applied,
            request_counter: RequestCounter::new(),
            buffered_peer_transmits: VecDeque::new(),
            buffered_client_transmits: VecDeque::new(),
        };
        proof {
            assert(r@.peer_outbox =~= Seq::<PeerTransmitView>::empty());
            assert(r@.client_outbox =~= Seq::<ClientTransmitView>::empty());
        }
        r
    }

    /// Gets the identifier of the peer.
    pub fn id(&self) -> (r: PeerId)
        ensures
            r == self@.id,
    {
        self.id
    }

    /// Gets the cluster of the peer.
    pub fn cluster(&self) -> (r: &Cluster)
        ensures
            r@ == self@.cluster,
    {
        &self.cluster
    }

    /// Gets how many peers make a majority of the cluster.
    pub fn majority(&self) -> (r: usize)
        requires
            self@.cluster.len() < usize::MAX,
        ensures
            r == majority_of(self@.cluster),
    {
        self.cluster.majority()
    }

    /// Gets the role of the peer.
    pub fn role(&self) -> (r: &Role)
        ensures
            r@ == self@.role,
    {
        &self.role
    }

    /// Gets the machine of the peer.
    pub fn machine(&self) -> (r: &Machine)
        ensures
            r@ == self@.machine,
    {
        &self.machine
    }

    /// Gets the storage of the peer.
    pub fn storage(&self) -> (r: &S)
        ensures
            *r == self.spec_storage(),
    {
        &self.storage
    }

    /// Gets the current term of the peer.
    pub fn current_term(&self) -> (r: Term)
        ensures
            r == self@.current_term,
    {
        self.storage.current_term()
    }

    /// Gets which peer this peer voted for in the current term, if any.
    pub fn voted_for(&self) -> (r: Option<PeerId>)
        ensures
            r == self@.voted_for,
    {
        self.storage.voted_for()
    }

    /// Gets the log of the peer.
    pub fn log(&self) -> (r: &Log)
        ensures
            r@ == self@.log,
    {
        self.storage.log()
    }

    /// Gets the latest snapshot of the peer.
    pub fn snapshot(&self) -> (r: &Snapshot)
        ensures
            r@ == self@.snapshot,
    {
        self.storage.snapshot()
    }

    /// Gets the commit index of the peer.
    pub fn commit_index(&self) -> (r: LogIndex)
        ensures
            r == self@.commit_index,
    {
        self.commit_index
    }

    /// Gets the last applied index of the peer.
    pub fn last_applied(&self) -> (r: LogIndex)
        ensures
            r == self@.last_applied,
    {
        self.last_applied
    }

    /// Gets the buffered outbound peer transmits of the peer.
    pub fn buffered_peer_transmits(&self) -> (r: &VecDeque<PeerTransmit>)
        ensures
            Seq::new(r@.len(), |i: int| r@[i]@) == self@.peer_outbox,
    {
        &self.buffered_peer_transmits
    }

    /// Gets the buffered outbound client transmits of the peer.
    pub fn buffered_client_transmits(&self) -> (r: &VecDeque<ClientTransmit>)
        ensures
            Seq::new(r@.len(), |i: int| r@[i]@) == self@.client_outbox,
    {
        &self.buffered_client_transmits
    }
}


impl<S: Storage> Peer<S> {
    /// The other members of the cluster, in cluster order.
    fn compute_others(&self) -> (r: Vec<PeerId>)
        requires
            peer_ids_sorted(self@.cluster),
        ensures
            r@ == others_of(self@.cluster, self@.id),
            peer_ids_sorted(r@),
            forall|j: int| 0 <= j < r@.len() ==> (#[trigger] r@[j]) != self@.id,
    {
        let mut others: Vec<PeerId> = Vec::new();
        let mut i: usize = 0;
        proof {
            assert(others_of(self@.cluster.take(0), self@.id) =~= Seq::<PeerId>::empty());
        }
        while i < self.cluster.len()
            invariant
                i <= self@.cluster.len(),
                peer_ids_sorted(self@.cluster),
                others@ == others_of(self@.cluster.take(i as int), self@.id),
                peer_ids_sorted(others@),
                forall|j: int| 0 <= j < others@.len() ==> (#[trigger] others@[j]) != self@.id,
                i > 0 && others@.len() > 0 ==> others@.last().0 <= self@.cluster[i - 1].0,
            decreases self@.cluster.len() - i,
        {
            let member = self.cluster.member(i);
            proof {
                assert(self@.cluster.take(i + 1).drop_last() =~= self@.cluster.take(i as int));
                assert(self@.cluster.take(i + 1).last() == self@.cluster[i as int]);
            }
            if member.0 != self.id.0 {
                let ghost before = others@;
                proof {
                    assert forall|j: int| 0 <= j < before.len() implies (#[trigger] before[j]).0
                        < member.0 by {
                        if j < before.len() - 1 {
                            assert(before[j].0 < before[before.len() - 1].0);
                        }
                        assert(before.last().0 <= self@.cluster[i - 1].0);
                        assert(self@.cluster[i - 1].0 < self@.cluster[i as int].0);
                    }
                }
                others.push(member);
            }
            i = i + 1;
        }
        proof {
            assert(self@.cluster.take(self@.cluster.len() as int) =~= self@.cluster);
        }
        others
    }

    /// Steps up as leader: appends a no-op entry at the next index, starts
    /// replicating it to every other peer and initializes the leader maps.
    pub(crate) fn become_leader(&mut self)
        requires
            peer_inv(old(self)@),
            old(self).storage_reliable(),
            last_log_index(old(self)@).0 + 2 <= usize::MAX,
            old(self)@.next_request_id + old(self)@.cluster.len() <= usize::MAX,
        ensures
            peer_inv(final(self)@),
            final(self).storage_reliable(),
            final(self)@ == become_leader_step(old(self)@),
    {
        let current_term = self.storage.current_term();
        let (prev_log_index, prev_log_term) = match self.storage.log().last() {
            Some(entry) => (entry.index(), entry.term()),
            None => (
                self.storage.snapshot().last_included_index(),
                self.storage.snapshot().last_included_term(),
            ),
        };
        proof {
            assert(prev_log_index == last_log_index(old(self)@));
            assert(prev_log_term == last_log_term(old(self)@));
        }
        let no_op_index = prev_log_index.next();
        let no_op_entry = LogEntry::new(no_op_index, current_term, Command::no_op());
        let ghost entry_view = no_op_entry@;
        let append_result = self.storage.append_log_entry(no_op_entry.clone());
        match append_result {
            Ok(_) => {},
            Err(_) => {
                proof {
                    assert(false);
                }
            },
        }
        let mut request_entries: Vec<LogEntry> = Vec::new();
        request_entries.push(no_op_entry);
        let request = AppendEntriesRequest::new(
            current_term,
            self.id,
            prev_log_index,
            prev_log_term,
            request_entries,
            self.commit_index,
        );
        let ghost request_view = request@;
        proof {
            assert(request_view.entries =~= seq![entry_view]);
        }
        let others = self.compute_others();
        proof {
            lemma_others_len(old(self)@.cluster, old(self)@.id);
        }
        let snapshot_index = self.storage.snapshot().last_included_index();

        let ghost base = old(self)@.next_request_id;
        let ghost broadcast = broadcast_of(
            others@,
            base,
            PeerMessageView::AppendEntriesRequest(request_view),
        );
        let mut append_entries_requests = RequestMap::new();
        let mut k: usize = 0;
        proof {
            assert(Seq::new(
                self.buffered_peer_transmits@.len(),
                |i: int| self.buffered_peer_transmits@[i]@,
            ) + broadcast.take(0) =~= old(self)@.peer_outbox);
        }
        while k < others.len()
            invariant
                k <= others@.len(),
                others@ == others_of(old(self)@.cluster, old(self)@.id),
                request_view == request@,
                broadcast == broadcast_of(
                    others@,
                    base,
                    PeerMessageView::AppendEntriesRequest(request_view),
                ),
                base == old(self)@.next_request_id,
                base + others@.len() <= usize::MAX,
                self.request_counter.spec_next() == base + k,
                append_entries_requests@ == Seq::new(
                    k as nat,
                    |j: int| (RequestId((base + j) as usize), request_view),
                ),
                Seq::new(
                    self.buffered_peer_transmits@.len(),
                    |i: int| self.buffered_peer_transmits@[i]@,
                ) == old(self)@.peer_outbox + broadcast.take(k as int),
                self.id == old(self)@.id,
                self.cluster@ == old(self)@.cluster,
                self.consistency == old(self)@.consistency,
                self.role@ == old(self)@.role,
                self.machine@ == old(self)@.machine,
                self.storage.model() == (StorageModel {
                    current_term: old(self)@.current_term,
                    voted_for: old(self)@.voted_for,
                    log: old(self)@.log.push(entry_view),
                    snapshot: old(self)@.snapshot,
                }),
                self.storage.reliable(),
                self.commit_index == old(self)@.commit_index,
                self.last_applied == old(self)@.last_applied,
                Seq::new(
                    self.buffered_client_transmits@.len(),
                    |i: int| self.buffered_client_transmits@[i]@,
                ) == old(self)@.client_outbox,
            decreases others@.len() - k,
        {
            let target = others[k];
            let rid = RequestId(self.request_counter.next());
            let transmit = PeerTransmit::new(
                target,
                rid,
                PeerMessage::AppendEntriesRequest(request.clone()),
            );
            let ghost recorded_before = append_entries_requests@;
            let ghost outbox_before = Seq::new(
                self.buffered_peer_transmits@.len(),
                |i: int| self.buffered_peer_transmits@[i]@,
            );
            proof {
                assert forall|j: int| 0 <= j < recorded_before.len() implies (
                #[trigger] recorded_before[j]).0.0 < rid.0 by {}
            }
            append_entries_requests.push_entry(rid, request.clone());
            self.buffered_peer_transmits.push_back(transmit);
            proof {
                assert(append_entries_requests@ =~= Seq::new(
                    (k + 1) as nat,
                    |j: int| (RequestId((base + j) as usize), request_view),
                ));
                assert(Seq::new(
                    self.buffered_peer_transmits@.len(),
                    |i: int| self.buffered_peer_transmits@[i]@,
                ) =~= outbox_before.push(transmit@));
                assert(transmit@ == broadcast[k as int]);
                assert(broadcast.take(k + 1) =~= broadcast.take(k as int).push(
                    broadcast[k as int],
                ));
                assert(outbox_before.push(transmit@) =~= old(self)@.peer_outbox + broadcast.take(
                    k + 1,
                ));
            }
            k = k + 1;
        }
        proof {
            assert(broadcast.take(others@.len() as int) =~= broadcast);
        }

        let mut next_index = IndexMap::new();
        k = 0;
        while k < others.len()
            invariant
                k <= others@.len(),
                peer_ids_sorted(others@),
                no_op_index.0 < usize::MAX,
                next_index@ == Seq::new(
                    k as nat,
                    |j: int| (others@[j], LogIndex((no_op_index.0 + 1) as usize)),
                ),
            decreases others@.len() - k,
        {
            proof {
                assert forall|j: int| 0 <= j < next_index@.len() implies (
                #[trigger] next_index@[j]).0.0 < others@[k as int].0 by {
                    assert(others@[j].0 < others@[k as int].0);
                }
            }
            next_index.push_entry(others[k], no_op_index.next());
            proof {
                assert(next_index@ =~= Seq::new(
                    (k + 1) as nat,
                    |j: int| (others@[j], LogIndex((no_op_index.0 + 1) as usize)),
                ));
            }
            k = k + 1;
        }

        let mut match_index = IndexMap::new();
        k = 0;
        while k < self.cluster.len()
            invariant
                k <= self@.cluster.len(),
                self.cluster@ == old(self)@.cluster,
                self.id == old(self)@.id,
                peer_ids_sorted(self@.cluster),
                match_index@ == Seq::new(
                    k as nat,
                    |j: int| (
                        old(self)@.cluster[j],
                        if old(self)@.cluster[j] == old(self)@.id {
                            no_op_index
                        } else {
                            snapshot_index
                        },
                    ),
                ),
            decreases self@.cluster.len() - k,
        {
            let member = self.cluster.member(k);
            proof {
                assert forall|j: int| 0 <= j < match_index@.len() implies (
                #[trigger] match_index@[j]).0.0 < member.0 by {
                    assert(old(self)@.cluster[j].0 < old(self)@.cluster[k as int].0);
                }
            }
            if member.0 == self.id.0 {
                proof {
                    assert(member == old(self)@.id);
                }
                match_index.push_entry(member, no_op_index);
            } else {
                match_index.push_entry(member, snapshot_index);
            }
            proof {
                assert(match_index@ =~= Seq::new(
                    (k + 1) as nat,
                    |j: int| (
                        old(self)@.cluster[j],
                        if old(self)@.cluster[j] == old(self)@.id {
                            no_op_index
                        } else {
                            snapshot_index
                        },
                    ),
                ));
            }
            k = k + 1;
        }

        self.role = Role::Leader(
            LeaderState::new(next_index, match_index, append_entries_requests),
        );
        proof {
            let stepped = become_leader_step(old(self)@);
            assert(self@.role =~~= stepped.role);
            assert(self@.peer_outbox =~~= stepped.peer_outbox);
            assert(self@.log =~~= stepped.log);
            assert(self@ =~~= stepped);
        }
    }
}


impl<S: Storage> Peer<S> {
    /// Handles an election timeout: advances the term, votes for itself, and
    /// either becomes leader at once (single-peer cluster) or steps up as a
    /// candidate and solicits votes from every other peer.
    ///
    /// If persisting the new term and vote fails, nothing changes.
    pub fn trigger_election_timeout(&mut self)
        requires
            peer_inv(old(self)@),
            old(self)@.current_term.0 < usize::MAX,
            old(self)@.next_request_id + old(self)@.cluster.len() <= usize::MAX,
            last_log_index(old(self)@).0 + 2 <= usize::MAX,
            old(self)@.cluster.len() == 1 ==> old(self).storage_reliable(),
        ensures
            peer_inv(final(self)@),
            final(self).storage_reliable() == old(self).storage_reliable(),
            final(self)@ == election_timeout_step(old(self)@) || final(self)@ == old(self)@,
            old(self).storage_reliable() ==> final(self)@ == election_timeout_step(old(self)@),
            final(self)@.current_term.0 >= old(self)@.current_term.0,
            final(self)@.commit_index == old(self)@.commit_index,
            final(self)@.last_applied == old(self)@.last_applied,
            final(self)@.machine == old(self)@.machine,
    {
        let current_term = self.storage.current_term();
        let new_term = current_term.next();
        let persisted = self.storage.set_current_term_and_voted_for(new_term, Some(self.id));
        match persisted {
            Err(_) => {
                proof {
                    assert(self@ =~~= old(self)@);
                }
                return ;
            },
            Ok(_) => {},
        }
        let ghost after_persist = PeerView {
            current_term: new_term,
            voted_for: Some(old(self)@.id),
            ..old(self)@
        };
        proof {
            assert(self@ =~~= after_persist);
        }
        if self.cluster.len() == 1 {
            self.become_leader();
            proof {
                assert(self@ =~~= election_timeout_step(old(self)@));
            }
            return ;
        }
        let request = RequestVoteRequest::new(
            new_term,
            self.id,
            match self.storage.log().last() {
                Some(entry) => entry.index(),
                None => self.storage.snapshot().last_included_index(),
            },
            match self.storage.log().last() {
                Some(entry) => entry.term(),
                None => self.storage.snapshot().last_included_term(),
            },
        );
        proof {
            assert(request == vote_request_of(after_persist));
        }
        let others = self.compute_others();
        proof {
            lemma_others_len(old(self)@.cluster, old(self)@.id);
        }
        let ghost base = old(self)@.next_request_id;
        let ghost broadcast = broadcast_of(
            others@,
            base,
            PeerMessageView::RequestVoteRequest(request),
        );
        let mut vote_request_ids: Vec<RequestId> = Vec::new();
        let mut k: usize = 0;
        proof {
            assert(Seq::new(
                self.buffered_peer_transmits@.len(),
                |i: int| self.buffered_peer_transmits@[i]@,
            ) + broadcast.take(0) =~= old(self)@.peer_outbox);
        }
        while k < others.len()
            invariant
                k <= others@.len(),
                others@ == others_of(old(self)@.cluster, old(self)@.id),
                broadcast == broadcast_of(
                    others@,
                    base,
                    PeerMessageView::RequestVoteRequest(request),
                ),
                base == old(self)@.next_request_id,
                base + others@.len() <= usize::MAX,
                self.request_counter.spec_next() == base + k,
                vote_request_ids@ == Seq::new(
                    k as nat,
                    |j: int| RequestId((base + j) as usize),
                ),
                Seq::new(
                    self.buffered_peer_transmits@.len(),
                    |i: int| self.buffered_peer_transmits@[i]@,
                ) == old(self)@.peer_outbox + broadcast.take(k as int),
                self.id == old(self)@.id,
                self.cluster@ == old(self)@.cluster,
                self.consistency == old(self)@.consistency,
                self.role@ == old(self)@.role,
                self.machine@ == old(self)@.machine,
                self.storage.model() == (StorageModel {
                    current_term: new_term,
                    voted_for: Some(old(self)@.id),
                    log: old(self)@.log,
                    snapshot: old(self)@.snapshot,
                }),
                self.storage.reliable() == old(self).storage_reliable(),
                self.commit_index == old(self)@.commit_index,
                self.last_applied == old(self)@.last_applied,
                Seq::new(
                    self.buffered_client_transmits@.len(),
                    |i: int| self.buffered_client_transmits@[i]@,
                ) == old(self)@.client_outbox,
            decreases others@.len() - k,
        {
            let target = others[k];
            let rid = RequestId(self.request_counter.next());
            let transmit = PeerTransmit::new(
                target,
                rid,
                PeerMessage::RequestVoteRequest(request),
            );
            let ghost outbox_before = Seq::new(
                self.buffered_peer_transmits@.len(),
                |i: int| self.buffered_peer_transmits@[i]@,
            );
            vote_request_ids.push(rid);
            self.buffered_peer_transmits.push_back(transmit);
            proof {
                assert(vote_request_ids@ =~= Seq::new(
                    (k + 1) as nat,
                    |j: int| RequestId((base + j) as usize),
                ));
                assert(Seq::new(
                    self.buffered_peer_transmits@.len(),
                    |i: int| self.buffered_peer_transmits@[i]@,
                ) =~= outbox_before.push(transmit@));
                assert(transmit@ == broadcast[k as int]);
                assert(broadcast.take(k + 1) =~= broadcast.take(k as int).push(
                    broadcast[k as int],
                ));
                assert(outbox_before.push(transmit@) =~= old(self)@.peer_outbox + broadcast.take(
                    k + 1,
                ));
            }
            k = k + 1;
        }
        proof {
            assert(broadcast.take(others@.len() as int) =~= broadcast);
            assert(request_ids_sorted(vote_request_ids@));
        }
        self.role = Role::Candidate(CandidateState::new(1, vote_request_ids));
        proof {
            let stepped = election_timeout_step(old(self)@);
            assert(self@.role =~~= stepped.role);
            assert(self@.peer_outbox =~~= stepped.peer_outbox);
            assert(self@ =~~= stepped);
        }
    }
}


/// The state after a heartbeat timeout: a leader records and enqueues an
/// empty replication request to every other peer; any other role ignores it.
pub open spec fn heartbeat_step(p: PeerView) -> PeerView {
    if p.role is Leader {
        let l = p.role->Leader_0;
        let request = AppendEntriesRequestView {
            term: p.current_term,
            leader_id: p.id,
            prev_log_index: last_log_index(p),
            prev_log_term: last_log_term(p),
            entries: Seq::empty(),
            leader_commit: p.commit_index,
        };
        let others = others_of(p.cluster, p.id);
        PeerView {
            role: RoleView::Leader(
                LeaderStateView {
                    append_entries_requests: l.append_entries_requests + Seq::new(
                        others.len(),
                        |k: int| (RequestId((p.next_request_id + k) as usize), request),
                    ),
                    ..l
                },
            ),
            next_request_id: (p.next_request_id + others.len()) as usize,
            peer_outbox: p.peer_outbox + broadcast_of(
                others,
                p.next_request_id,
                PeerMessageView::AppendEntriesRequest(request),
            ),
            ..p
        }
    } else {
        p
    }
}

/// The state after applying every committed entry: the machine folds in the
/// commands between `last_applied` and `commit_index`, which catches up.
pub open spec fn apply_committed_step(p: PeerView) -> PeerView {
    if p.last_applied.0 < p.commit_index.0 {
        PeerView {
            machine: apply_range(p.machine, p.log, p.last_applied, p.commit_index),
            last_applied: p.commit_index,
            ..p
        }
    } else {
        p
    }
}

impl<S: Storage> Peer<S> {
    /// Handles a heartbeat timeout. Only a leader acts: it enqueues an empty
    /// replication request per other peer, recording each under a fresh id.
    pub fn trigger_heartbeat_timeout(&mut self)
        requires
            peer_inv(old(self)@),
            old(self)@.next_request_id + old(self)@.cluster.len() <= usize::MAX,
        ensures
            peer_inv(final(self)@),
            final(self).storage_reliable() == old(self).storage_reliable(),
            final(self)@ == heartbeat_step(old(self)@),
    {
        if !self.role.is_leader() {
            proof {
                assert(self@ =~~= heartbeat_step(old(self)@));
            }
            return ;
        }
        let request = AppendEntriesRequest::new(
            self.storage.current_term(),
            self.id,
            match self.storage.log().last() {
                Some(entry) => entry.index(),
                None => self.storage.snapshot().last_included_index(),
            },
            match self.storage.log().last() {
                Some(entry) => entry.term(),
                None => self.storage.snapshot().last_included_term(),
            },
            Vec::new(),
            self.commit_index,
        );
        let ghost request_view = request@;
        proof {
            assert(request_view.entries =~= Seq::<LogEntryView>::empty());
        }
        let others = self.compute_others();
        proof {
            lemma_others_len(old(self)@.cluster, old(self)@.id);
        }
        let ghost base = old(self)@.next_request_id;
        let ghost broadcast = broadcast_of(
            others@,
            base,
            PeerMessageView::AppendEntriesRequest(request_view),
        );
        let ghost old_leader = old(self)@.role->Leader_0;
        let mut k: usize = 0;
        proof {
            assert(Seq::new(
                self.buffered_peer_transmits@.len(),
                |i: int| self.buffered_peer_transmits@[i]@,
            ) + broadcast.take(0) =~= old(self)@.peer_outbox);
            assert(old_leader.append_entries_requests + Seq::new(
                0,
                |j: int| (RequestId((base + j) as usize), request_view),
            ) =~= old_leader.append_entries_requests);
            assert forall|j: int| 0 <= j < old_leader.append_entries_requests.len() implies (
            #[trigger] old_leader.append_entries_requests[j]).0.0 < base by {}
        }
        while k < others.len()
            invariant
                k <= others@.len(),
                others@ == others_of(old(self)@.cluster, old(self)@.id),
                request_view == request@,
                broadcast == broadcast_of(
                    others@,
                    base,
                    PeerMessageView::AppendEntriesRequest(request_view),
                ),
                base == old(self)@.next_request_id,
                base + others@.len() <= usize::MAX,
                old(self)@.role == RoleView::Leader(old_leader),
                peer_inv(old(self)@),
                forall|j: int|
                    0 <= j < old_leader.append_entries_requests.len() ==> (
                    #[trigger] old_leader.append_entries_requests[j]).0.0 < base,
                self.request_counter.spec_next() == base + k,
                self.role@ == RoleView::Leader(
                    LeaderStateView {
                        append_entries_requests: old_leader.append_entries_requests + Seq::new(
                            k as nat,
                            |j: int| (RequestId((base + j) as usize), request_view),
                        ),
                        ..old_leader
                    },
                ),
                Seq::new(
                    self.buffered_peer_transmits@.len(),
                    |i: int| self.buffered_peer_transmits@[i]@,
                ) == old(self)@.peer_outbox + broadcast.take(k as int),
                self.id == old(self)@.id,
                self.cluster@ == old(self)@.cluster,
                self.consistency == old(self)@.consistency,
                self.machine@ == old(self)@.machine,
                self.storage == old(self).spec_storage(),
                self.commit_index == old(self)@.commit_index,
                self.last_applied == old(self)@.last_applied,
                Seq::new(
                    self.buffered_client_transmits@.len(),
                    |i: int| self.buffered_client_transmits@[i]@,
                ) == old(self)@.client_outbox,
            decreases others@.len() - k,
        {
            let target = others[k];
            let rid = RequestId(self.request_counter.next());
            let transmit = PeerTransmit::new(
                target,
                rid,
                PeerMessage::AppendEntriesRequest(request.clone()),
            );
            let ghost outbox_before = Seq::new(
                self.buffered_peer_transmits@.len(),
                |i: int| self.buffered_peer_transmits@[i]@,
            );
            let ghost recorded_before = self.role@->Leader_0.append_entries_requests;
            match &mut self.role {
                Role::Leader(leader_state) => {
                    proof {
                        assert forall|j: int| 0 <= j < recorded_before.len() implies (
                        #[trigger] recorded_before[j]).0.0 < rid.0 by {
                            if j < old_leader.append_entries_requests.len() {
                                assert(old_leader.append_entries_requests[j].0.0 < base);
                            }
                        }
                    }
                    leader_state.append_entries_requests.push_entry(rid, request.clone());
                },
                _ => {},
            }
            self.buffered_peer_transmits.push_back(transmit);
            proof {
                assert(self.role@->Leader_0.append_entries_requests =~= old_leader.append_entries_requests
                    + Seq::new(
                    (k + 1) as nat,
                    |j: int| (RequestId((base + j) as usize), request_view),
                ));
                assert(self.role@ =~~= RoleView::Leader(
                    LeaderStateView {
                        append_entries_requests: old_leader.append_entries_requests + Seq::new(
                            (k + 1) as nat,
                            |j: int| (RequestId((base + j) as usize), request_view),
                        ),
                        ..old_leader
                    },
                ));
                assert(Seq::new(
                    self.buffered_peer_transmits@.len(),
                    |i: int| self.buffered_peer_transmits@[i]@,
                ) =~= outbox_before.push(transmit@));
                assert(transmit@ == broadcast[k as int]);
                assert(broadcast.take(k + 1) =~= broadcast.take(k as int).push(
                    broadcast[k as int],
                ));
                assert(outbox_before.push(transmit@) =~= old(self)@.peer_outbox + broadcast.take(
                    k + 1,
                ));
            }
            k = k + 1;
        }
        proof {
            assert(broadcast.take(others@.len() as int) =~= broadcast);
            let stepped = heartbeat_step(old(self)@);
            assert(self@.role =~~= stepped.role);
            assert(self@.peer_outbox =~~= stepped.peer_outbox);
            assert(self@ =~~= stepped);
        }
    }

    /// Applies the commands of every committed but unapplied entry, in index
    /// order, advancing `last_applied` up to `commit_index`.
    ///
    /// The cluster guarantees that committed entries exist in the log; the
    /// precondition states it.
    pub fn apply_committed(&mut self)
        requires
            peer_inv(old(self)@),
            old(self)@.last_applied.0 < old(self)@.commit_index.0 ==> forall|i: int|
                old(self)@.last_applied.0 < i <= old(self)@.commit_index.0 ==> #[trigger] log_find(
                    old(self)@.log,
                    LogIndex(i as usize),
                ) >= 0,
        ensures
            peer_inv(final(self)@),
            final(self).storage_reliable() == old(self).storage_reliable(),
            final(self)@ == apply_committed_step(old(self)@),
            final(self)@.last_applied.0 >= old(self)@.last_applied.0,
            final(self)@.commit_index == old(self)@.commit_index,
    {
        let mut last_applied = self.last_applied;
        while last_applied.0 < self.commit_index.0
            invariant
                old(self)@.last_applied.0 <= last_applied.0,
                old(self)@.last_applied.0 < old(self)@.commit_index.0 ==> last_applied.0 <= old(
                    self,
                )@.commit_index.0,
                old(self)@.last_applied.0 >= old(self)@.commit_index.0 ==> last_applied == old(
                    self,
                )@.last_applied,
                old(self)@.last_applied.0 < old(self)@.commit_index.0 ==> forall|i: int|
                    old(self)@.last_applied.0 < i <= old(self)@.commit_index.0
                        ==> #[trigger] log_find(old(self)@.log, LogIndex(i as usize)) >= 0,
                apply_range(self.machine@, old(self)@.log, last_applied, old(self)@.commit_index)
                    == apply_range(
                    old(self)@.machine,
                    old(self)@.log,
                    old(self)@.last_applied,
                    old(self)@.commit_index,
                ),
                self.id == old(self)@.id,
                self.cluster@ == old(self)@.cluster,
                self.consistency == old(self)@.consistency,
                self.role@ == old(self)@.role,
                self.storage == old(self).spec_storage(),
                self.commit_index == old(self)@.commit_index,
                self.last_applied == old(self)@.last_applied,
                self.request_counter.spec_next() == old(self)@.next_request_id,
                Seq::new(
                    self.buffered_peer_transmits@.len(),
                    |i: int| self.buffered_peer_transmits@[i]@,
                ) == old(self)@.peer_outbox,
                Seq::new(
                    self.buffered_client_transmits@.len(),
                    |i: int| self.buffered_client_transmits@[i]@,
                ) == old(self)@.client_outbox,
            decreases self.commit_index.0 - last_applied.0,
        {
            last_applied = last_applied.next();
            let ghost machine_before = self.machine@;
            match self.storage.log().entry(last_applied) {
                Some(entry) => {
                    let command = entry.command();
                    self.machine.apply(command);
                },
                None => {
                    proof {
                        assert(log_find(old(self)@.log, last_applied) >= 0);
                        assert(false);
                    }
                },
            }
            proof {
                assert(apply_range(
                    machine_before,
                    old(self)@.log,
                    LogIndex((last_applied.0 - 1) as usize),
                    old(self)@.commit_index,
                ) == apply_range(
                    self.machine@,
                    old(self)@.log,
                    last_applied,
                    old(self)@.commit_index,
                ));
            }
        }
        self.last_applied = last_applied;
        proof {
            assert(self@ =~~= apply_committed_step(old(self)@));
        }
    }
}


/// Whether the candidate's log, summarized by the request, is at least as up
/// to date as the receiver's (up-to-date check of the vote rule).
pub open spec fn candidate_up_to_date(p: PeerView, req: RequestVoteRequest) -> bool {
    req.last_log_term.0 > last_log_term(p).0 || (req.last_log_term == last_log_term(p)
        && req.last_log_index.0 >= last_log_index(p).0)
}

/// The state and reply after receiving a vote request, when every needed
/// persist succeeds. The vote is granted exactly when the request's term is
/// current or newer, the receiver has not voted for another peer in that
/// term, and the candidate is at least as up to date.
pub open spec fn receive_request_vote_step(p: PeerView, sender: PeerId, req: RequestVoteRequest)
    -> (PeerView, RequestVoteReply) {
    let current_term = p.current_term;
    if req.term.0 < current_term.0 {
        (p, RequestVoteReply { term: current_term, vote: Vote::NotGrantedDueToBeingInHigherTerm })
    } else if req.term == current_term && p.voted_for is Some {
        if p.voted_for != Some(sender) {
            (
                p,
                RequestVoteReply {
                    term: current_term,
                    vote: Vote::NotGrantedDueToBeingGrantedToAnotherPeer,
                },
            )
        } else {
            (p, RequestVoteReply { term: current_term, vote: Vote::Granted })
        }
    } else {
        let persisted = if req.term.0 > current_term.0 {
            PeerView { current_term: req.term, voted_for: None, ..p }
        } else {
            p
        };
        let reply_term = persisted.current_term;
        if !candidate_up_to_date(p, req) {
            (
                persisted,
                RequestVoteReply { term: reply_term, vote: Vote::NotGrantedDueToBeingLessUpToDate },
            )
        } else {
            (
                PeerView { voted_for: Some(sender), ..persisted },
                RequestVoteReply { term: reply_term, vote: Vote::Granted },
            )
        }
    }
}

impl<S: Storage> Peer<S> {
    /// Handles a vote request (receiving RequestVote). On a persist failure
    /// the vote is not granted and the state rolls back.
    pub(crate) fn receive_request_vote(&mut self, sending_peer_id: PeerId, request: RequestVoteRequest)
        -> (reply: RequestVoteReply)
        requires
            peer_inv(old(self)@),
        ensures
            peer_inv(final(self)@),
            final(self).storage_reliable() == old(self).storage_reliable(),
            old(self).storage_reliable() ==> (final(self)@, reply) == receive_request_vote_step(
                old(self)@,
                sending_peer_id,
                request,
            ),
            final(self)@ == (PeerView {
                current_term: final(self)@.current_term,
                voted_for: final(self)@.voted_for,
                ..old(self)@
            }),
            final(self)@.current_term.0 >= old(self)@.current_term.0,
            final(self)@.current_term == old(self)@.current_term ==> final(self)@.voted_for == old(
                self,
            )@.voted_for || (old(self)@.voted_for is None && final(self)@.voted_for == Some(
                sending_peer_id,
            )),
            reply.vote == Vote::Granted && old(self)@.voted_for != Some(sending_peer_id)
                ==> candidate_up_to_date(old(self)@, request),
    {
        let current_term = self.storage.current_term();
        let mut reply = RequestVoteReply::new(current_term, Vote::Granted);

        if request.term.0 < current_term.0 {
            reply.set_vote(Vote::NotGrantedDueToBeingInHigherTerm);
            proof {
                assert(self@ =~~= old(self)@);
            }
            return reply;
        }

        if request.term.0 == current_term.0 {
            match self.storage.voted_for() {
                Some(voted_peer_id) => {
                    if voted_peer_id.0 != sending_peer_id.0 {
                        reply.set_vote(Vote::NotGrantedDueToBeingGrantedToAnotherPeer);
                    }
                    proof {
                        assert(self@ =~~= old(self)@);
                    }
                    return reply;
                },
                None => {},
            }
        }

        if request.term.0 > current_term.0 {
            let persisted = self.storage.set_current_term_and_voted_for(request.term, None);
            match persisted {
                Err(_) => {
                    reply.set_vote(Vote::NotGrantedDueToStorageError);
                    proof {
                        assert(self@ =~~= old(self)@);
                    }
                    return reply;
                },
                Ok(_) => {},
            }
            reply.set_term(request.term);
        }

        match self.storage.voted_for() {
            Some(voted_peer_id) => {
                if voted_peer_id.0 != sending_peer_id.0 {
                    reply.set_vote(Vote::NotGrantedDueToBeingGrantedToAnotherPeer);
                }
                proof {
                    assert(self@ =~~= (PeerView {
                        current_term: self@.current_term,
                        voted_for: self@.voted_for,
                        ..old(self)@
                    }));
                }
                return reply;
            },
            None => {},
        }

        let (last_index, last_term) = match self.storage.log().last() {
            Some(entry) => (entry.index(), entry.term()),
            None => (
                self.storage.snapshot().last_included_index(),
                self.storage.snapshot().last_included_term(),
            ),
        };
        let is_at_least_as_up_to_date = request.last_log_term.0 > last_term.0 || (
        request.last_log_term.0 == last_term.0 && request.last_log_index.0 >= last_index.0);

        if !is_at_least_as_up_to_date {
            reply.set_vote(Vote::NotGrantedDueToBeingLessUpToDate);
            proof {
                assert(self@ =~~= (PeerView {
                    current_term: self@.current_term,
                    voted_for: self@.voted_for,
                    ..old(self)@
                }));
            }
            return reply;
        }

        let persisted = self.storage.set_voted_for(Some(sending_peer_id));
        match persisted {
            Err(_) => {
                reply.set_vote(Vote::NotGrantedDueToStorageError);
            },
            Ok(_) => {},
        }
        proof {
            assert(self@ =~~= (PeerView {
                current_term: self@.current_term,
                voted_for: self@.voted_for,
                ..old(self)@
            }));
        }
        reply
    }
}


/// Whether a replication request passes the log consistency check: a zero
/// `prev_log_index` bypasses it; otherwise the entry at `prev_log_index`
/// must exist and carry `prev_log_term`.
pub open spec fn append_entries_consistent(p: PeerView, req: AppendEntriesRequestView) -> bool {
    req.prev_log_index.0 == 0 || {
        let position = log_find(p.log, req.prev_log_index);
        position >= 0 && p.log[position].term == req.prev_log_term
    }
}

/// The state and reply after receiving a replication request. A stale term
/// is refused; a failed consistency check is refused, truncating the log
/// from the conflicting entry when terms conflict; otherwise the receiver
/// follows the sender, appends the entries and adopts the leader's commit.
pub open spec fn receive_append_entries_step(
    p: PeerView,
    sender: PeerId,
    req: AppendEntriesRequestView,
) -> (PeerView, AppendEntriesReply) {
    let current_term = p.current_term;
    if req.term.0 < current_term.0 {
        (p, AppendEntriesReply { term: current_term, success: false })
    } else if req.prev_log_index.0 != 0 && log_find(p.log, req.prev_log_index) == -1 {
        (p, AppendEntriesReply { term: current_term, success: false })
    } else if req.prev_log_index.0 != 0 && p.log[log_find(p.log, req.prev_log_index)].term
        != req.prev_log_term {
        (
            PeerView { log: log_below(p.log, req.prev_log_index), ..p },
            AppendEntriesReply { term: current_term, success: false },
        )
    } else {
        let advanced = if req.term.0 > current_term.0 {
            PeerView { current_term: req.term, ..p }
        } else {
            p
        };
        let adjusted = PeerView {
            role: RoleView::Follower(crate::role::FollowerState { leader_id: Some(sender) }),
            ..advanced
        };
        (
            PeerView { log: adjusted.log + req.entries, commit_index: req.leader_commit, ..adjusted },
            AppendEntriesReply { term: current_term, success: true },
        )
    }
}

impl<S: Storage> Peer<S> {
    /// Handles a replication request (receiving AppendEntries).
    ///
    /// Follower-side log writes must not fail, so this requires a reliable
    /// storage; and a leader never receives a consistent request of its own
    /// term, leader uniqueness permitting, so that case is excluded.
    pub(crate) fn receive_append_entries(
        &mut self,
        sending_peer_id: PeerId,
        request: AppendEntriesRequest,
    ) -> (reply: AppendEntriesReply)
        requires
            peer_inv(old(self)@),
            old(self).storage_reliable(),
            !(request@.term == old(self)@.current_term && old(self)@.role is Leader
                && append_entries_consistent(old(self)@, request@)),
        ensures
            peer_inv(final(self)@),
            final(self).storage_reliable(),
            (final(self)@, reply) == receive_append_entries_step(
                old(self)@,
                sending_peer_id,
                request@,
            ),
    {
        let current_term = self.storage.current_term();
        if request.term.0 < current_term.0 {
            proof {
                assert(self@ =~~= old(self)@);
            }
            return AppendEntriesReply::new(current_term, false);
        }

        if request.prev_log_index.0 != 0 {
            let position = match self.storage.log().position_of(request.prev_log_index) {
                Some(position) => position,
                None => {
                    proof {
                        assert(self@ =~~= old(self)@);
                    }
                    return AppendEntriesReply::new(current_term, false);
                },
            };
            let conflicting = self.storage.log().at(position).term().0 != request.prev_log_term.0;
            if conflicting {
                let truncated = self.storage.truncate_log(request.prev_log_index);
                match truncated {
                    Ok(_) => {},
                    Err(_) => {
                        proof {
                            assert(false);
                        }
                    },
                }
                proof {
                    assert(self@ =~~= (PeerView {
                        log: log_below(old(self)@.log, request@.prev_log_index),
                        ..old(self)@
                    }));
                }
                return AppendEntriesReply::new(current_term, false);
            }
        }

        if request.term.0 > current_term.0 {
            self.role = Role::Follower(FollowerState::new(Some(sending_peer_id)));
            let persisted = self.storage.set_current_term(request.term);
            match persisted {
                Ok(_) => {},
                Err(_) => {
                    proof {
                        assert(false);
                    }
                },
            }
        }

        match &mut self.role {
            Role::Follower(follower_state) => {
                follower_state.leader_id = Some(sending_peer_id);
            },
            Role::Candidate(_) => {
                self.role = Role::Follower(FollowerState::new(Some(sending_peer_id)));
            },
            Role::Leader(_) => {
                proof {
                    assert(false);
                }
            },
        }

        let ghost log_before = self.storage.model().log;
        let ghost entry_views = request@.entries;
        let mut i: usize = 0;
        proof {
            assert(log_before + entry_views.take(0) =~= log_before);
        }
        while i < request.entries.len()
            invariant
                i <= request.entries@.len(),
                entry_views == request@.entries,
                entry_views.len() == request.entries@.len(),
                forall|j: int| 0 <= j < entry_views.len() ==> entry_views[j] == request.entries@[j]@,
                self.storage.model().log == log_before + entry_views.take(i as int),
                self.storage.model().current_term == old(self)@.current_term
                    || self.storage.model().current_term == request@.term,
                self.storage.model() == (StorageModel {
                    log: self.storage.model().log,
                    current_term: self.storage.model().current_term,
                    ..old(self).spec_storage().model()
                }),
                self.storage.reliable(),
                (if request@.term.0 > old(self)@.current_term.0 {
                    self.storage.model().current_term == request@.term
                } else {
                    self.storage.model().current_term == old(self)@.current_term
                }),
                self.id == old(self)@.id,
                self.cluster@ == old(self)@.cluster,
                self.consistency == old(self)@.consistency,
                self.role@ == RoleView::Follower(FollowerState { leader_id: Some(sending_peer_id) }),
                self.machine@ == old(self)@.machine,
                self.commit_index == old(self)@.commit_index,
                self.last_applied == old(self)@.last_applied,
                self.request_counter.spec_next() == old(self)@.next_request_id,
                Seq::new(
                    self.buffered_peer_transmits@.len(),
                    |k: int| self.buffered_peer_transmits@[k]@,
                ) == old(self)@.peer_outbox,
                Seq::new(
                    self.buffered_client_transmits@.len(),
                    |k: int| self.buffered_client_transmits@[k]@,
                ) == old(self)@.client_outbox,
            decreases request.entries@.len() - i,
        {
            let appended = self.storage.append_log_entry(request.entries[i].clone());
            match appended {
                Ok(_) => {},
                Err(_) => {
                    proof {
                        assert(false);
                    }
                },
            }
            proof {
                assert(entry_views.take(i + 1) =~= entry_views.take(i as int).push(
                    entry_views[i as int],
                ));
                assert(self.storage.model().log =~= log_before + entry_views.take(i + 1));
            }
            i = i + 1;
        }
        proof {
            assert(entry_views.take(entry_views.len() as int) =~= entry_views);
        }
        self.commit_index = request.leader_commit;
        proof {
            assert(self@ =~~= receive_append_entries_step(
                old(self)@,
                sending_peer_id,
                request@,
            ).0);
        }
        AppendEntriesReply::new(current_term, true)
    }
}


/// The outbound peer queue with every pending vote request removed.
pub open spec fn drop_vote_requests(outbox: Seq<PeerTransmitView>) -> Seq<PeerTransmitView>
    decreases outbox.len(),
{
    if outbox.len() == 0 {
        Seq::empty()
    } else {
        let rest = drop_vote_requests(outbox.drop_last());
        if outbox.last().message is RequestVoteRequest {
            rest
        } else {
            rest.push(outbox.last())
        }
    }
}

/// The state after receiving a vote reply, when every needed persist
/// succeeds. A reply from a higher term forces a step down; a candidate
/// counts a granted vote against its outstanding requests and becomes
/// leader on reaching a majority; a storage-error reply is retried with
/// the same request id.
pub open spec fn receive_request_vote_reply_step(
    p: PeerView,
    sender: PeerId,
    request_id: RequestId,
    reply: RequestVoteReply,
) -> PeerView {
    if reply.term.0 > p.current_term.0 {
        PeerView {
            current_term: reply.term,
            voted_for: None,
            role: RoleView::Follower(FollowerState { leader_id: None }),
            peer_outbox: drop_vote_requests(p.peer_outbox),
            ..p
        }
    } else if !(p.role is Candidate) {
        p
    } else {
        let c = p.role->Candidate_0;
        if request_id_find(c.vote_request_ids, request_id) == -1 {
            p
        } else if reply.vote == Vote::Granted {
            let granted = CandidateStateView {
                votes_granted: (c.votes_granted + 1) as usize,
                vote_request_ids: c.vote_request_ids.remove(
                    request_id_find(c.vote_request_ids, request_id),
                ),
            };
            let counted = PeerView { role: RoleView::Candidate(granted), ..p };
            if granted.votes_granted >= majority_of(p.cluster) {
                become_leader_step(counted)
            } else {
                counted
            }
        } else if reply.vote == Vote::NotGrantedDueToStorageError {
            PeerView {
                peer_outbox: p.peer_outbox.push(
                    PeerTransmitView {
                        peer_id: sender,
                        request_id,
                        message: PeerMessageView::RequestVoteRequest(vote_request_of(p)),
                    },
                ),
                ..p
            }
        } else {
            p
        }
    }
}

impl<S: Storage> Peer<S> {
    /// Handles a vote reply (receiving RequestVoteReply).
    ///
    /// A granted vote that a candidate still waits for always carries the
    /// candidate's own term; the precondition states it. Becoming leader
    /// appends to the log, so a granted vote requires a reliable storage.
    pub(crate) fn receive_request_vote_reply(
        &mut self,
        sending_peer_id: PeerId,
        request_id: RequestId,
        reply: RequestVoteReply,
    )
        requires
            peer_inv(old(self)@),
            old(self)@.cluster.len() < usize::MAX,
            reply.vote == Vote::Granted && old(self)@.role is Candidate && reply.term.0 <= old(
                self,
            )@.current_term.0 && request_id_find(
                old(self)@.role->Candidate_0.vote_request_ids,
                request_id,
            ) >= 0 ==> reply.term == old(self)@.current_term,
            reply.vote == Vote::Granted ==> old(self).storage_reliable() && last_log_index(
                old(self)@,
            ).0 + 2 <= usize::MAX && old(self)@.next_request_id + old(self)@.cluster.len()
                <= usize::MAX,
        ensures
            peer_inv(final(self)@),
            final(self).storage_reliable() == old(self).storage_reliable(),
            old(self).storage_reliable() ==> final(self)@ == receive_request_vote_reply_step(
                old(self)@,
                sending_peer_id,
                request_id,
                reply,
            ),
            final(self)@ == receive_request_vote_reply_step(
                old(self)@,
                sending_peer_id,
                request_id,
                reply,
            ) || final(self)@ == (PeerView {
                current_term: old(self)@.current_term,
                voted_for: old(self)@.voted_for,
                ..receive_request_vote_reply_step(old(self)@, sending_peer_id, request_id, reply)
            }),
            final(self)@.current_term.0 >= old(self)@.current_term.0,
            final(self)@.current_term == old(self)@.current_term ==> final(self)@.voted_for == old(
                self,
            )@.voted_for,
    {
        if reply.term.0 > self.storage.current_term().0 {
            let persisted = self.storage.set_current_term_and_voted_for(reply.term, None);
            match persisted {
                Ok(_) => {},
                Err(_) => {},
            }
            self.role = Role::Follower(FollowerState::new(None));

            let ghost queued_before = Seq::new(
                self.buffered_peer_transmits@.len(),
                |i: int| self.buffered_peer_transmits@[i]@,
            );
            let mut kept: VecDeque<PeerTransmit> = VecDeque::new();
            let mut i: usize = 0;
            proof {
                assert(drop_vote_requests(queued_before.take(0)) =~= Seq::<
                    PeerTransmitView,
                >::empty());
            }
            while i < self.buffered_peer_transmits.len()
                invariant
                    i <= self.buffered_peer_transmits@.len(),
                    queued_before == Seq::new(
                        self.buffered_peer_transmits@.len(),
                        |k: int| self.buffered_peer_transmits@[k]@,
                    ),
                    Seq::new(kept@.len(), |k: int| kept@[k]@) == drop_vote_requests(
                        queued_before.take(i as int),
                    ),
                decreases self.buffered_peer_transmits@.len() - i,
            {
                proof {
                    assert(queued_before.take(i + 1).drop_last() =~= queued_before.take(i as int));
                    assert(queued_before.take(i + 1).last() == queued_before[i as int]);
                }
                let transmit = &self.buffered_peer_transmits[i];
                let keep = match transmit.message() {
                    PeerMessage::RequestVoteRequest(_) => false,
                    _ => true,
                };
                if keep {
                    let ghost kept_before = Seq::new(kept@.len(), |k: int| kept@[k]@);
                    kept.push_back(transmit.clone());
                    proof {
                        assert(Seq::new(kept@.len(), |k: int| kept@[k]@) =~= kept_before.push(
                            queued_before[i as int],
                        ));
                    }
                }
                i = i + 1;
            }
            proof {
                assert(queued_before.take(queued_before.len() as int) =~= queued_before);
            }
            self.buffered_peer_transmits = kept;
            proof {
                let stepped = receive_request_vote_reply_step(
                    old(self)@,
                    sending_peer_id,
                    request_id,
                    reply,
                );
                if self.storage.model().current_term == reply.term {
                    assert(self@ =~~= stepped);
                } else {
                    assert(self@ =~~= (PeerView {
                        current_term: old(self)@.current_term,
                        voted_for: old(self)@.voted_for,
                        ..stepped
                    }));
                }
            }
            return ;
        }

        let current_term = self.storage.current_term();
        let outstanding = match &self.role {
            Role::Candidate(candidate_state) => candidate_state.contains(request_id),
            _ => false,
        };
        if !outstanding {
            proof {
                if self@.role is Candidate {
                    lemma_request_id_find(self@.role->Candidate_0.vote_request_ids, request_id);
                }
                assert(self@ =~~= old(self)@);
            }
            return ;
        }
        proof {
            lemma_request_id_find(old(self)@.role->Candidate_0.vote_request_ids, request_id);
        }

        match reply.vote {
            Vote::Granted => {
                match &mut self.role {
                    Role::Candidate(candidate_state) => {
                        candidate_state.grant_vote(request_id);
                    },
                    _ => {},
                }
                let votes_granted = match &self.role {
                    Role::Candidate(candidate_state) => candidate_state.votes_granted(),
                    _ => 0,
                };
                let ghost counted = self@;
                if votes_granted >= self.cluster.majority() {
                    self.become_leader();
                    proof {
                        assert(self@ =~~= receive_request_vote_reply_step(
                            old(self)@,
                            sending_peer_id,
                            request_id,
                            reply,
                        ));
                    }
                } else {
                    proof {
                        assert(self@ =~~= receive_request_vote_reply_step(
                            old(self)@,
                            sending_peer_id,
                            request_id,
                            reply,
                        ));
                    }
                }
            },
            Vote::NotGrantedDueToStorageError => {
                let request = RequestVoteRequest::new(
                    current_term,
                    self.id,
                    match self.storage.log().last() {
                        Some(entry) => entry.index(),
                        None => self.storage.snapshot().last_included_index(),
                    },
                    match self.storage.log().last() {
                        Some(entry) => entry.term(),
                        None => self.storage.snapshot().last_included_term(),
                    },
                );
                let transmit = PeerTransmit::new(
                    sending_peer_id,
                    request_id,
                    PeerMessage::RequestVoteRequest(request),
                );
                let ghost outbox_before = Seq::new(
                    self.buffered_peer_transmits@.len(),
                    |k: int| self.buffered_peer_transmits@[k]@,
                );
                self.buffered_peer_transmits.push_back(transmit);
                proof {
                    assert(Seq::new(
                        self.buffered_peer_transmits@.len(),
                        |k: int| self.buffered_peer_transmits@[k]@,
                    ) =~= outbox_before.push(transmit@));
                    assert(self@ =~~= receive_request_vote_reply_step(
                        old(self)@,
                        sending_peer_id,
                        request_id,
                        reply,
                    ));
                }
            },
            _ => {
                proof {
                    assert(self@ =~~= old(self)@);
                }
            },
        }
    }
}


/// How many recorded match indices are at least `v`.
pub open spec fn count_at_least(match_index: Seq<(PeerId, LogIndex)>, v: usize) -> int
    decreases match_index.len(),
{
    if match_index.len() == 0 {
        0
    } else {
        count_at_least(match_index.drop_last(), v) + if match_index.last().1.0 >= v {
            1int
        } else {
            0int
        }
    }
}

/// A left-to-right scan of the recorded match indices for a commit
/// candidate: the best value seen so far is replaced by any larger one
/// that a majority of peers has reached.
pub open spec fn commit_scan(
    match_index: Seq<(PeerId, LogIndex)>,
    upto: int,
    majority: int,
    commit: LogIndex,
) -> LogIndex
    decreases upto,
{
    if upto <= 0 {
        commit
    } else {
        let best = commit_scan(match_index, upto - 1, majority, commit);
        let v = match_index[upto - 1].1;
        if v.0 > best.0 && count_at_least(match_index, v.0) >= majority {
            v
        } else {
            best
        }
    }
}

/// The new commit index: the largest recorded match value that lies above
/// the current commit index and is replicated on a majority; the current
/// commit index when there is none.
pub open spec fn commit_advance(
    match_index: Seq<(PeerId, LogIndex)>,
    majority: int,
    commit: LogIndex,
) -> LogIndex {
    commit_scan(match_index, match_index.len() as int, majority, commit)
}

/// Commit advancement never retreats, and any advance is to an index that
/// a majority of the recorded peers has replicated.
pub proof fn lemma_commit_advance(match_index: Seq<(PeerId, LogIndex)>, majority: int, commit: LogIndex)
    ensures
        commit_advance(match_index, majority, commit).0 >= commit.0,
        commit_advance(match_index, majority, commit) != commit ==> count_at_least(
            match_index,
            commit_advance(match_index, majority, commit).0,
        ) >= majority,
{
    lemma_commit_scan(match_index, match_index.len() as int, majority, commit);
}

/// Induction behind `lemma_commit_advance`, over scan length.
proof fn lemma_commit_scan(
    match_index: Seq<(PeerId, LogIndex)>,
    upto: int,
    majority: int,
    commit: LogIndex,
)
    ensures
        commit_scan(match_index, upto, majority, commit).0 >= commit.0,
        commit_scan(match_index, upto, majority, commit) != commit ==> count_at_least(
            match_index,
            commit_scan(match_index, upto, majority, commit).0,
        ) >= majority,
    decreases upto,
{
    if upto > 0 {
        lemma_commit_scan(match_index, upto - 1, majority, commit);
    }
}

/// Counts how many recorded match indices are at least `v`.
fn count_match_at_least(match_index: &IndexMap, v: usize) -> (r: usize)
    ensures
        r == count_at_least(match_index@, v),
{
    let mut count: usize = 0;
    let mut i: usize = 0;
    proof {
        assert(count_at_least(match_index@.take(0), v) == 0);
    }
    while i < match_index.len()
        invariant
            i <= match_index@.len(),
            count <= i,
            count == count_at_least(match_index@.take(i as int), v),
        decreases match_index@.len() - i,
    {
        proof {
            assert(match_index@.take(i + 1).drop_last() =~= match_index@.take(i as int));
            assert(match_index@.take(i + 1).last() == match_index@[i as int]);
        }
        let pair = match_index.at(i);
        if pair.1.0 >= v {
            count = count + 1;
        }
        i = i + 1;
    }
    proof {
        assert(match_index@.take(match_index@.len() as int) =~= match_index@);
    }
    count
}

/// Computes the new commit index from the recorded match indices.
fn advance_commit(match_index: &IndexMap, majority: usize, commit: LogIndex) -> (r: LogIndex)
    ensures
        r == commit_advance(match_index@, majority as int, commit),
{
    let mut best = commit;
    let mut i: usize = 0;
    while i < match_index.len()
        invariant
            i <= match_index@.len(),
            best == commit_scan(match_index@, i as int, majority as int, commit),
        decreases match_index@.len() - i,
    {
        let pair = match_index.at(i);
        if pair.1.0 > best.0 {
            let count = count_match_at_least(match_index, pair.1.0);
            if count >= majority {
                best = pair.1;
            }
        }
        i = i + 1;
    }
    best
}

/// The state after receiving a replication reply, when every needed persist
/// succeeds. A reply from a higher term forces a leader to step down; a
/// stale term is ignored; a leader matches the reply against its recorded
/// request, advancing replication bookkeeping and the commit index on
/// success and backing `next_index` off by one and resending on failure.
pub open spec fn receive_append_entries_reply_step(
    p: PeerView,
    sender: PeerId,
    request_id: RequestId,
    reply: AppendEntriesReply,
) -> PeerView {
    if reply.term.0 > p.current_term.0 {
        let stepped_role = if p.role is Leader {
            RoleView::Follower(FollowerState { leader_id: None })
        } else {
            p.role
        };
        PeerView { current_term: reply.term, voted_for: None, role: stepped_role, ..p }
    } else if reply.term.0 < p.current_term.0 {
        p
    } else if !(p.role is Leader) {
        p
    } else {
        let l = p.role->Leader_0;
        let found = request_key_find(l.append_entries_requests, request_id);
        if found == -1 {
            p
        } else {
            let request = l.append_entries_requests[found].1;
            let remaining = l.append_entries_requests.remove(found);
            if reply.success {
                let replicated = if request.entries.len() > 0 {
                    request.entries.last().index
                } else {
                    request.prev_log_index
                };
                let found_next = peer_key_find(l.next_index, sender);
                let advanced_next = if found_next >= 0 {
                    l.next_index.update(found_next, (sender, LogIndex((replicated.0 + 1) as usize)))
                } else {
                    l.next_index
                };
                let found_match = peer_key_find(l.match_index, sender);
                let advanced_match = if found_match >= 0 {
                    l.match_index.update(found_match, (sender, replicated))
                } else {
                    l.match_index
                };
                PeerView {
                    role: RoleView::Leader(
                        LeaderStateView {
                            next_index: advanced_next,
                            match_index: advanced_match,
                            append_entries_requests: remaining,
                        },
                    ),
                    commit_index: commit_advance(
                        advanced_match,
                        majority_of(p.cluster),
                        p.commit_index,
                    ),
                    ..p
                }
            } else {
                let found_next = peer_key_find(l.next_index, sender);
                if found_next == -1 {
                    PeerView {
                        role: RoleView::Leader(
                            LeaderStateView { append_entries_requests: remaining, ..l },
                        ),
                        ..p
                    }
                } else {
                    let decremented = LogIndex((l.next_index[found_next].1.0 - 1) as usize);
                    let position = log_find(p.log, decremented);
                    let resend = AppendEntriesRequestView {
                        term: p.current_term,
                        leader_id: p.id,
                        prev_log_index: decremented,
                        prev_log_term: p.log[position].term,
                        entries: p.log.subrange(position, p.log.len() as int),
                        leader_commit: p.commit_index,
                    };
                    PeerView {
                        role: RoleView::Leader(
                            LeaderStateView {
                                next_index: l.next_index.update(found_next, (sender, decremented)),
                                match_index: l.match_index,
                                append_entries_requests: remaining.push(
                                    (RequestId(p.next_request_id), resend),
                                ),
                            },
                        ),
                        next_request_id: (p.next_request_id + 1) as usize,
                        peer_outbox: p.peer_outbox.push(
                            PeerTransmitView {
                                peer_id: sender,
                                request_id: RequestId(p.next_request_id),
                                message: PeerMessageView::AppendEntriesRequest(resend),
                            },
                        ),
                        ..p
                    }
                }
            }
        }
    }
}


/// Removing a recorded request keeps every remaining id below the bound.
pub proof fn lemma_request_keys_bound_after_remove(
    s: Seq<(RequestId, AppendEntriesRequestView)>,
    i: int,
    bound: usize,
)
    requires
        0 <= i < s.len(),
        forall|j: int| 0 <= j < s.len() ==> (#[trigger] s[j]).0.0 < bound,
    ensures
        forall|j: int| 0 <= j < s.remove(i).len() ==> (#[trigger] s.remove(i)[j]).0.0 < bound,
{
    assert forall|j: int| 0 <= j < s.remove(i).len() implies (#[trigger] s.remove(i)[j]).0.0
        < bound by {
        if j < i {
            assert(s.remove(i)[j] == s[j]);
        } else {
            assert(s.remove(i)[j] == s[j + 1]);
        }
    }
}

impl<S: Storage> Peer<S> {
    /// Handles a replication reply (receiving AppendEntriesReply).
    ///
    /// Backing a follower's `next_index` off below the snapshot boundary
    /// would require transferring the snapshot, which this core does not do;
    /// the precondition keeps that case out, together with index headroom
    /// that the machine forces.
    pub(crate) fn receive_append_entries_reply(
        &mut self,
        sending_peer_id: PeerId,
        request_id: RequestId,
        reply: AppendEntriesReply,
    )
        requires
            peer_inv(old(self)@),
            old(self)@.cluster.len() < usize::MAX,
            old(self)@.next_request_id < usize::MAX,
            ({
                let p = old(self)@;
                reply.term == p.current_term && p.role is Leader ==> {
                    let l = p.role->Leader_0;
                    let found = request_key_find(l.append_entries_requests, request_id);
                    found >= 0 ==> {
                        let request = l.append_entries_requests[found].1;
                        &&& (reply.success ==> (if request.entries.len() > 0 {
                            request.entries.last().index.0
                        } else {
                            request.prev_log_index.0
                        }) < usize::MAX)
                        &&& (!reply.success ==> {
                            let found_next = peer_key_find(l.next_index, sending_peer_id);
                            found_next >= 0 ==> l.next_index[found_next].1.0
                                > p.snapshot.last_included_index.0 + 1 && log_find(
                                p.log,
                                LogIndex((l.next_index[found_next].1.0 - 1) as usize),
                            ) >= 0
                        })
                    }
                }
            }),
        ensures
            peer_inv(final(self)@),
            final(self).storage_reliable() == old(self).storage_reliable(),
            old(self).storage_reliable() ==> final(self)@ == receive_append_entries_reply_step(
                old(self)@,
                sending_peer_id,
                request_id,
                reply,
            ),
            final(self)@ == receive_append_entries_reply_step(
                old(self)@,
                sending_peer_id,
                request_id,
                reply,
            ) || final(self)@ == (PeerView {
                current_term: old(self)@.current_term,
                voted_for: old(self)@.voted_for,
                ..receive_append_entries_reply_step(old(self)@, sending_peer_id, request_id, reply)
            }),
            final(self)@.current_term.0 >= old(self)@.current_term.0,
            final(self)@.current_term == old(self)@.current_term ==> final(self)@.voted_for == old(
                self,
            )@.voted_for,
            final(self)@.commit_index.0 >= old(self)@.commit_index.0,
    {
        let current_term = self.storage.current_term();
        if reply.term.0 > current_term.0 {
            let persisted = self.storage.set_current_term_and_voted_for(reply.term, None);
            match persisted {
                Ok(_) => {},
                Err(_) => {},
            }
            if self.role.is_leader() {
                self.role = Role::Follower(FollowerState::new(None));
            }
            proof {
                let stepped = receive_append_entries_reply_step(
                    old(self)@,
                    sending_peer_id,
                    request_id,
                    reply,
                );
                if self.storage.model().current_term == reply.term {
                    assert(self@ =~~= stepped);
                } else {
                    assert(self@ =~~= (PeerView {
                        current_term: old(self)@.current_term,
                        voted_for: old(self)@.voted_for,
                        ..stepped
                    }));
                }
            }
            return ;
        }
        if reply.term.0 < current_term.0 {
            proof {
                assert(self@ =~~= old(self)@);
            }
            return ;
        }
        if !self.role.is_leader() {
            proof {
                assert(self@ =~~= old(self)@);
            }
            return ;
        }

        let removed = match &mut self.role {
            Role::Leader(leader_state) => leader_state.append_entries_requests.remove(request_id),
            _ => None,
        };
        let request = match removed {
            Some(request) => request,
            None => {
                proof {
                    assert(self@ =~~= old(self)@);
                }
                return ;
            },
        };
        proof {
            lemma_request_key_find(
                old(self)@.role->Leader_0.append_entries_requests,
                request_id,
            );
            lemma_request_keys_bound_after_remove(
                old(self)@.role->Leader_0.append_entries_requests,
                request_key_find(old(self)@.role->Leader_0.append_entries_requests, request_id),
                old(self)@.next_request_id,
            );
        }

        if reply.success {
            let replicated = if request.entries.len() > 0 {
                request.entries[request.entries.len() - 1].index()
            } else {
                request.prev_log_index
            };
            match &mut self.role {
                Role::Leader(leader_state) => {
                    leader_state.next_index.update_existing(sending_peer_id, replicated.next());
                    leader_state.match_index.update_existing(sending_peer_id, replicated);
                },
                _ => {},
            }
            let majority = self.cluster.majority();
            let new_commit_index = match &self.role {
                Role::Leader(leader_state) => advance_commit(
                    &leader_state.match_index,
                    majority,
                    self.commit_index,
                ),
                _ => self.commit_index,
            };
            proof {
                match &self.role {
                    Role::Leader(leader_state) => {
                        lemma_commit_advance(
                            leader_state.match_index@,
                            majority as int,
                            self.commit_index,
                        );
                    },
                    _ => {},
                }
            }
            self.commit_index = new_commit_index;
            proof {
                assert(self@ =~~= receive_append_entries_reply_step(
                    old(self)@,
                    sending_peer_id,
                    request_id,
                    reply,
                ));
            }
            return ;
        }

        let next_for_sender = match &self.role {
            Role::Leader(leader_state) => leader_state.next_index.get(sending_peer_id),
            _ => None,
        };
        let next_value = match next_for_sender {
            Some(value) => value,
            None => {
                proof {
                    assert(self@ =~~= receive_append_entries_reply_step(
                        old(self)@,
                        sending_peer_id,
                        request_id,
                        reply,
                    ));
                }
                return ;
            },
        };
        let decremented = next_value.previous();
        let position = match self.storage.log().position_of(decremented) {
            Some(position) => position,
            None => {
                proof {
                    assert(false);
                }
                0
            },
        };
        let entries = self.storage.log().entries_from(position);
        let resend = AppendEntriesRequest::new(
            current_term,
            self.id,
            decremented,
            self.storage.log().at(position).term(),
            entries,
            self.commit_index,
        );
        let request_id_for_resend = RequestId(self.request_counter.next());
        match &mut self.role {
            Role::Leader(leader_state) => {
                leader_state.next_index.update_existing(sending_peer_id, decremented);
                leader_state.append_entries_requests.push_entry(
                    request_id_for_resend,
                    resend.clone(),
                );
            },
            _ => {},
        }
        let transmit = PeerTransmit::new(
            sending_peer_id,
            request_id_for_resend,
            PeerMessage::AppendEntriesRequest(resend),
        );
        let ghost outbox_before = Seq::new(
            self.buffered_peer_transmits@.len(),
            |k: int| self.buffered_peer_transmits@[k]@,
        );
        self.buffered_peer_transmits.push_back(transmit);
        proof {
            assert(Seq::new(
                self.buffered_peer_transmits@.len(),
                |k: int| self.buffered_peer_transmits@[k]@,
            ) =~= outbox_before.push(transmit@));
            let stepped = receive_append_entries_reply_step(
                old(self)@,
                sending_peer_id,
                request_id,
                reply,
            );
            assert(self@.role->Leader_0.append_entries_requests =~= stepped.role->Leader_0.append_entries_requests);
            assert(self@.role =~~= stepped.role);
            assert(self@ =~~= stepped);
        }
    }
}


/// The state and reply after receiving a client command, when every needed
/// persist succeeds. Only the leader accepts: it appends the command and
/// starts replicating it, deferring any reply; other roles redirect.
pub open spec fn receive_command_request_step(p: PeerView, command: CommandView) -> (
    PeerView,
    Option<CommandReply>,
) {
    match p.role {
        RoleView::Candidate(_) => (
            p,
            Some(CommandReply { result: Err(ClientError::LeaderUnknown) }),
        ),
        RoleView::Follower(f) => (
            p,
            Some(
                CommandReply {
                    result: Err(
                        match f.leader_id {
                            Some(leader_id) => ClientError::LeaderChanged { new_leader_id: leader_id },
                            None => ClientError::LeaderUnknown,
                        },
                    ),
                },
            ),
        ),
        RoleView::Leader(l) => {
            let prev_log_index = last_log_index(p);
            let prev_log_term = last_log_term(p);
            let entry = LogEntryView {
                index: LogIndex((prev_log_index.0 + 1) as usize),
                term: p.current_term,
                command,
            };
            let request = AppendEntriesRequestView {
                term: p.current_term,
                leader_id: p.id,
                prev_log_index,
                prev_log_term,
                entries: seq![entry],
                leader_commit: p.commit_index,
            };
            let others = others_of(p.cluster, p.id);
            (
                PeerView {
                    log: p.log.push(entry),
                    role: RoleView::Leader(
                        LeaderStateView {
                            append_entries_requests: l.append_entries_requests + Seq::new(
                                others.len(),
                                |k: int| (RequestId((p.next_request_id + k) as usize), request),
                            ),
                            ..l
                        },
                    ),
                    next_request_id: (p.next_request_id + others.len()) as usize,
                    peer_outbox: p.peer_outbox + broadcast_of(
                        others,
                        p.next_request_id,
                        PeerMessageView::AppendEntriesRequest(request),
                    ),
                    ..p
                },
                None,
            )
        },
    }
}

impl<S: Storage> Peer<S> {
    /// Handles a client command (receiving CommandRequest). A failed append
    /// at the leader is reported to the client as a storage error.
    pub(crate) fn receive_command_request(&mut self, command: Command) -> (reply: Option<
        CommandReply,
    >)
        requires
            peer_inv(old(self)@),
            old(self)@.role is Leader ==> last_log_index(old(self)@).0 + 2 <= usize::MAX && old(
                self,
            )@.next_request_id + old(self)@.cluster.len() <= usize::MAX,
        ensures
            peer_inv(final(self)@),
            final(self).storage_reliable() == old(self).storage_reliable(),
            old(self).storage_reliable() ==> (final(self)@, reply) == receive_command_request_step(
                old(self)@,
                command@,
            ),
            !(old(self)@.role is Leader) ==> (final(self)@, reply) == receive_command_request_step(
                old(self)@,
                command@,
            ),
            !old(self).storage_reliable() && old(self)@.role is Leader ==> ((final(self)@, reply)
                == receive_command_request_step(old(self)@, command@) || (final(self)@ == old(
                self,
            )@ && (reply matches Some(r) && (r.result matches Err(e) && e is StorageError)))),
            final(self)@.current_term == old(self)@.current_term,
            final(self)@.voted_for == old(self)@.voted_for,
            final(self)@.commit_index == old(self)@.commit_index,
            final(self)@.machine == old(self)@.machine,
    {
        match &self.role {
            Role::Candidate(_) => {
                proof {
                    assert(self@ =~~= old(self)@);
                }
                return Some(CommandReply::new(Err(ClientError::LeaderUnknown)));
            },
            Role::Follower(follower_state) => {
                let error = match follower_state.leader_id {
                    Some(leader_id) => ClientError::LeaderChanged { new_leader_id: leader_id },
                    None => ClientError::LeaderUnknown,
                };
                proof {
                    assert(self@ =~~= old(self)@);
                }
                return Some(CommandReply::new(Err(error)));
            },
            Role::Leader(_) => {},
        }

        let current_term = self.storage.current_term();
        let (prev_log_index, prev_log_term) = match self.storage.log().last() {
            Some(entry) => (entry.index(), entry.term()),
            None => (
                self.storage.snapshot().last_included_index(),
                self.storage.snapshot().last_included_term(),
            ),
        };
        let log_entry = LogEntry::new(prev_log_index.next(), current_term, command);
        let ghost entry_view = log_entry@;
        let appended = self.storage.append_log_entry(log_entry.clone());
        match appended {
            Ok(_) => {},
            Err(error) => {
                proof {
                    assert(self@ =~~= old(self)@);
                }
                return Some(
                    CommandReply::new(Err(ClientError::StorageError { underlying_error: error })),
                );
            },
        }

        let mut request_entries: Vec<LogEntry> = Vec::new();
        request_entries.push(log_entry);
        let request = AppendEntriesRequest::new(
            current_term,
            self.id,
            prev_log_index,
            prev_log_term,
            request_entries,
            self.commit_index,
        );
        let ghost request_view = request@;
        proof {
            assert(request_view.entries =~= seq![entry_view]);
        }
        let others = self.compute_others();
        proof {
            lemma_others_len(old(self)@.cluster, old(self)@.id);
        }
        let ghost base = old(self)@.next_request_id;
        let ghost broadcast = broadcast_of(
            others@,
            base,
            PeerMessageView::AppendEntriesRequest(request_view),
        );
        let ghost old_leader = old(self)@.role->Leader_0;
        let mut k: usize = 0;
        proof {
            assert(Seq::new(
                self.buffered_peer_transmits@.len(),
                |i: int| self.buffered_peer_transmits@[i]@,
            ) + broadcast.take(0) =~= old(self)@.peer_outbox);
            assert(old_leader.append_entries_requests + Seq::new(
                0,
                |j: int| (RequestId((base + j) as usize), request_view),
            ) =~= old_leader.append_entries_requests);
            assert forall|j: int| 0 <= j < old_leader.append_entries_requests.len() implies (
            #[trigger] old_leader.append_entries_requests[j]).0.0 < base by {}
        }
        while k < others.len()
            invariant
                k <= others@.len(),
                others@ == others_of(old(self)@.cluster, old(self)@.id),
                request_view == request@,
                broadcast == broadcast_of(
                    others@,
                    base,
                    PeerMessageView::AppendEntriesRequest(request_view),
                ),
                base == old(self)@.next_request_id,
                base + others@.len() <= usize::MAX,
                old(self)@.role == RoleView::Leader(old_leader),
                forall|j: int|
                    0 <= j < old_leader.append_entries_requests.len() ==> (
                    #[trigger] old_leader.append_entries_requests[j]).0.0 < base,
                self.request_counter.spec_next() == base + k,
                self.role@ == RoleView::Leader(
                    LeaderStateView {
                        append_entries_requests: old_leader.append_entries_requests + Seq::new(
                            k as nat,
                            |j: int| (RequestId((base + j) as usize), request_view),
                        ),
                        ..old_leader
                    },
                ),
                Seq::new(
                    self.buffered_peer_transmits@.len(),
                    |i: int| self.buffered_peer_transmits@[i]@,
                ) == old(self)@.peer_outbox + broadcast.take(k as int),
                self.id == old(self)@.id,
                self.cluster@ == old(self)@.cluster,
                self.consistency == old(self)@.consistency,
                self.machine@ == old(self)@.machine,
                self.storage.model() == (StorageModel {
                    log: old(self)@.log.push(entry_view),
                    current_term: old(self)@.current_term,
                    voted_for: old(self)@.voted_for,
                    snapshot: old(self)@.snapshot,
                }),
                self.storage.reliable() == old(self).storage_reliable(),
                self.commit_index == old(self)@.commit_index,
                self.last_applied == old(self)@.last_applied,
                Seq::new(
                    self.buffered_client_transmits@.len(),
                    |i: int| self.buffered_client_transmits@[i]@,
                ) == old(self)@.client_outbox,
            decreases others@.len() - k,
        {
            let target = others[k];
            let rid = RequestId(self.request_counter.next());
            let transmit = PeerTransmit::new(
                target,
                rid,
                PeerMessage::AppendEntriesRequest(request.clone()),
            );
            let ghost outbox_before = Seq::new(
                self.buffered_peer_transmits@.len(),
                |i: int| self.buffered_peer_transmits@[i]@,
            );
            let ghost recorded_before = self.role@->Leader_0.append_entries_requests;
            match &mut self.role {
                Role::Leader(leader_state) => {
                    proof {
                        assert forall|j: int| 0 <= j < recorded_before.len() implies (
                        #[trigger] recorded_before[j]).0.0 < rid.0 by {
                            if j < old_leader.append_entries_requests.len() {
                                assert(old_leader.append_entries_requests[j].0.0 < base);
                            }
                        }
                    }
                    leader_state.append_entries_requests.push_entry(rid, request.clone());
                },
                _ => {},
            }
            self.buffered_peer_transmits.push_back(transmit);
            proof {
                assert(self.role@->Leader_0.append_entries_requests
                    =~= old_leader.append_entries_requests + Seq::new(
                    (k + 1) as nat,
                    |j: int| (RequestId((base + j) as usize), request_view),
                ));
                assert(self.role@ =~~= RoleView::Leader(
                    LeaderStateView {
                        append_entries_requests: old_leader.append_entries_requests + Seq::new(
                            (k + 1) as nat,
                            |j: int| (RequestId((base + j) as usize), request_view),
                        ),
                        ..old_leader
                    },
                ));
                assert(Seq::new(
                    self.buffered_peer_transmits@.len(),
                    |i: int| self.buffered_peer_transmits@[i]@,
                ) =~= outbox_before.push(transmit@));
                assert(transmit@ == broadcast[k as int]);
                assert(broadcast.take(k + 1) =~= broadcast.take(k as int).push(
                    broadcast[k as int],
                ));
                assert(outbox_before.push(transmit@) =~= old(self)@.peer_outbox + broadcast.take(
                    k + 1,
                ));
            }
            k = k + 1;
        }
        proof {
            assert(broadcast.take(others@.len() as int) =~= broadcast);
            let stepped = receive_command_request_step(old(self)@, command@).0;
            assert(self@.role =~~= stepped.role);
            assert(self@.peer_outbox =~~= stepped.peer_outbox);
            assert(self@.log =~~= stepped.log);
            assert(self@ =~~= stepped);
        }
        None
    }
}


/// The state and reply after receiving a client query. Under eventual
/// consistency any peer applies what is committed and answers from its
/// machine; under strong consistency only the leader may answer, and the
/// covered core defers that answer, while other roles redirect.
pub open spec fn receive_query_request_step(p: PeerView, query: QueryView) -> (
    PeerView,
    Option<QueryReplyView>,
) {
    match p.consistency {
        Consistency::Eventual => {
            let applied = apply_committed_step(p);
            (applied, Some(QueryReplyView { result: Ok(query_spec(applied.machine, query)) }))
        },
        Consistency::Strong => match p.role {
            RoleView::Leader(_) => (p, None),
            RoleView::Candidate(_) => (
                p,
                Some(QueryReplyView { result: Err(ClientError::LeaderUnknown) }),
            ),
            RoleView::Follower(f) => (
                p,
                Some(
                    QueryReplyView {
                        result: Err(
                            match f.leader_id {
                                Some(leader_id) => ClientError::LeaderChanged {
                                    new_leader_id: leader_id,
                                },
                                None => ClientError::LeaderUnknown,
                            },
                        ),
                    },
                ),
            ),
        },
    }
}

impl<S: Storage> Peer<S> {
    /// Handles a client query (receiving QueryRequest).
    pub(crate) fn receive_query_request(&mut self, query: &Query) -> (reply: Option<QueryReply>)
        requires
            peer_inv(old(self)@),
            old(self)@.consistency is Eventual && old(self)@.last_applied.0 < old(
                self,
            )@.commit_index.0 ==> forall|i: int|
                old(self)@.last_applied.0 < i <= old(self)@.commit_index.0
                    ==> #[trigger] log_find(old(self)@.log, LogIndex(i as usize)) >= 0,
        ensures
            peer_inv(final(self)@),
            final(self).storage_reliable() == old(self).storage_reliable(),
            final(self)@ == receive_query_request_step(old(self)@, query@).0,
            match (reply, receive_query_request_step(old(self)@, query@).1) {
                (Some(r), Some(v)) => r@ == v,
                (None, None) => true,
                _ => false,
            },
    {
        match self.consistency {
            Consistency::Eventual => {
                if self.last_applied.0 < self.commit_index.0 {
                    self.apply_committed();
                }
                proof {
                    assert(self@ =~~= apply_committed_step(old(self)@));
                }
                let query_result = self.machine.query(query);
                return Some(QueryReply::new(Ok(query_result)));
            },
            Consistency::Strong => {},
        }
        match &self.role {
            Role::Leader(_) => {
                proof {
                    assert(self@ =~~= old(self)@);
                }
                None
            },
            Role::Candidate(_) => {
                proof {
                    assert(self@ =~~= old(self)@);
                }
                Some(QueryReply::new(Err(ClientError::LeaderUnknown)))
            },
            Role::Follower(follower_state) => {
                let error = match follower_state.leader_id {
                    Some(leader_id) => ClientError::LeaderChanged { new_leader_id: leader_id },
                    None => ClientError::LeaderUnknown,
                };
                proof {
                    assert(self@ =~~= old(self)@);
                }
                Some(QueryReply::new(Err(error)))
            },
        }
    }
}


/// The state after receiving and handling one peer message: the reply to a
/// request is enqueued under the sender's request id; a reply mutates state
/// through its own handler.
pub open spec fn receive_peer_message_step(
    p: PeerView,
    sender: PeerId,
    request_id: RequestId,
    message: PeerMessageView,
) -> PeerView {
    match message {
        PeerMessageView::RequestVoteRequest(m) => {
            let (stepped, reply) = receive_request_vote_step(p, sender, m);
            PeerView {
                peer_outbox: stepped.peer_outbox.push(
                    PeerTransmitView {
                        peer_id: sender,
                        request_id,
                        message: PeerMessageView::RequestVoteReply(reply),
                    },
                ),
                ..stepped
            }
        },
        PeerMessageView::RequestVoteReply(m) => receive_request_vote_reply_step(
            p,
            sender,
            request_id,
            m,
        ),
        PeerMessageView::AppendEntriesRequest(m) => {
            let (stepped, reply) = receive_append_entries_step(p, sender, m);
            PeerView {
                peer_outbox: stepped.peer_outbox.push(
                    PeerTransmitView {
                        peer_id: sender,
                        request_id,
                        message: PeerMessageView::AppendEntriesReply(reply),
                    },
                ),
                ..stepped
            }
        },
        PeerMessageView::AppendEntriesReply(m) => receive_append_entries_reply_step(
            p,
            sender,
            request_id,
            m,
        ),
    }
}

/// What delivering a peer message to a peer demands of the pair: the index
/// and counter headroom the machine forces, the exclusion of the snapshot
/// transfer this core does not perform, and reliable storage where follower-side log
/// writes or a step up to leader must not fail.
pub open spec fn peer_message_deliverable(p: PeerView, sender: PeerId, request_id: RequestId, message: PeerMessageView) -> bool {
    &&& p.cluster.len() < usize::MAX
    &&& p.next_request_id < usize::MAX
    &&& (message matches PeerMessageView::RequestVoteReply(m) ==> {
        &&& (m.vote == Vote::Granted && p.role is Candidate && m.term.0 <= p.current_term.0
            && request_id_find(p.role->Candidate_0.vote_request_ids, request_id) >= 0
            ==> m.term == p.current_term)
        &&& (m.vote == Vote::Granted ==> p.cluster.len() < usize::MAX && last_log_index(p).0 + 2
            <= usize::MAX && p.next_request_id + p.cluster.len() <= usize::MAX)
    })
    &&& (message matches PeerMessageView::AppendEntriesRequest(m) ==> !(m.term == p.current_term
        && p.role is Leader && append_entries_consistent(p, m)))
    &&& (message matches PeerMessageView::AppendEntriesReply(m) ==> (m.term == p.current_term
        && p.role is Leader ==> {
        let l = p.role->Leader_0;
        let found = request_key_find(l.append_entries_requests, request_id);
        found >= 0 ==> {
            let request = l.append_entries_requests[found].1;
            &&& (m.success ==> (if request.entries.len() > 0 {
                request.entries.last().index.0
            } else {
                request.prev_log_index.0
            }) < usize::MAX)
            &&& (!m.success ==> {
                let found_next = peer_key_find(l.next_index, sender);
                found_next >= 0 ==> l.next_index[found_next].1.0 > p.snapshot.last_included_index.0
                    + 1 && log_find(p.log, LogIndex((l.next_index[found_next].1.0 - 1) as usize))
                    >= 0
            })
        }
    }))
}

impl<S: Storage> Peer<S> {
    /// Receives a message from another peer and updates state accordingly;
    /// the reply to a request is enqueued under the same request id.
    ///
    /// A replication request's log writes must not fail, so delivering one
    /// requires a reliable storage.
    pub fn receive_peer_message(
        &mut self,
        peer_id: PeerId,
        request_id: RequestId,
        message: PeerMessage,
    )
        requires
            peer_inv(old(self)@),
            peer_message_deliverable(old(self)@, peer_id, request_id, message@),
            message@ is AppendEntriesRequest ==> old(self).storage_reliable(),
            message@ matches PeerMessageView::RequestVoteReply(m) && m.vote == Vote::Granted
                ==> old(self).storage_reliable(),
        ensures
            peer_inv(final(self)@),
            final(self).storage_reliable() == old(self).storage_reliable(),
            old(self).storage_reliable() ==> final(self)@ == receive_peer_message_step(
                old(self)@,
                peer_id,
                request_id,
                message@,
            ),
            final(self)@.current_term.0 >= old(self)@.current_term.0,
            final(self)@.current_term == old(self)@.current_term ==> final(self)@.voted_for == old(
                self,
            )@.voted_for || (old(self)@.voted_for is None && (message@ is RequestVoteRequest
                && final(self)@.voted_for == Some(peer_id))),
    {
        match message {
            PeerMessage::RequestVoteRequest(request) => {
                let reply = self.receive_request_vote(peer_id, request);
                let transmit = PeerTransmit::new(
                    peer_id,
                    request_id,
                    PeerMessage::RequestVoteReply(reply),
                );
                let ghost outbox_before = Seq::new(
                    self.buffered_peer_transmits@.len(),
                    |k: int| self.buffered_peer_transmits@[k]@,
                );
                self.buffered_peer_transmits.push_back(transmit);
                proof {
                    assert(Seq::new(
                        self.buffered_peer_transmits@.len(),
                        |k: int| self.buffered_peer_transmits@[k]@,
                    ) =~= outbox_before.push(transmit@));
                    if old(self).storage_reliable() {
                        assert(self@ =~~= receive_peer_message_step(
                            old(self)@,
                            peer_id,
                            request_id,
                            message@,
                        ));
                    }
                }
            },
            PeerMessage::RequestVoteReply(reply) => {
                self.receive_request_vote_reply(peer_id, request_id, reply);
            },
            PeerMessage::AppendEntriesRequest(request) => {
                let reply = self.receive_append_entries(peer_id, request);
                let transmit = PeerTransmit::new(
                    peer_id,
                    request_id,
                    PeerMessage::AppendEntriesReply(reply),
                );
                let ghost outbox_before = Seq::new(
                    self.buffered_peer_transmits@.len(),
                    |k: int| self.buffered_peer_transmits@[k]@,
                );
                self.buffered_peer_transmits.push_back(transmit);
                proof {
                    assert(Seq::new(
                        self.buffered_peer_transmits@.len(),
                        |k: int| self.buffered_peer_transmits@[k]@,
                    ) =~= outbox_before.push(transmit@));
                    assert(self@ =~~= receive_peer_message_step(
                        old(self)@,
                        peer_id,
                        request_id,
                        message@,
                    ));
                }
            },
            PeerMessage::AppendEntriesReply(reply) => {
                self.receive_append_entries_reply(peer_id, request_id, reply);
            },
        }
    }
}

/// The state after receiving and handling one client message: a reply to
/// the client, when one is produced at once, is enqueued on the client
/// outbox under the same request id; requests from peers to clients do not
/// exist, and replies arriving at a peer are dropped.
pub open spec fn receive_client_message_step(
    p: PeerView,
    client_id: ClientId,
    request_id: RequestId,
    message: ClientMessageView,
) -> PeerView {
    match message {
        ClientMessageView::CommandReply(_) => p,
        ClientMessageView::QueryReply(_) => p,
        ClientMessageView::CommandRequest(m) => {
            let (stepped, reply) = receive_command_request_step(p, m.command);
            match reply {
                Some(r) => PeerView {
                    client_outbox: stepped.client_outbox.push(
                        ClientTransmitView {
                            client_id,
                            peer_id: p.id,
                            request_id,
                            message: ClientMessageView::CommandReply(r),
                        },
                    ),
                    ..stepped
                },
                None => stepped,
            }
        },
        ClientMessageView::QueryRequest(m) => {
            let (stepped, reply) = receive_query_request_step(p, m.query);
            match reply {
                Some(r) => PeerView {
                    client_outbox: stepped.client_outbox.push(
                        ClientTransmitView {
                            client_id,
                            peer_id: p.id,
                            request_id,
                            message: ClientMessageView::QueryReply(r),
                        },
                    ),
                    ..stepped
                },
                None => stepped,
            }
        },
    }
}

impl<S: Storage> Peer<S> {
    /// Receives a client message and updates state accordingly; an immediate
    /// reply is enqueued for the client under the same request id.
    pub fn receive_client_message(
        &mut self,
        client_id: ClientId,
        request_id: RequestId,
        message: ClientMessage,
    )
        requires
            peer_inv(old(self)@),
            message@ is CommandRequest && old(self)@.role is Leader ==> last_log_index(
                old(self)@,
            ).0 + 2 <= usize::MAX && old(self)@.next_request_id + old(self)@.cluster.len()
                <= usize::MAX,
            message@ is QueryRequest && old(self)@.consistency is Eventual && old(
                self,
            )@.last_applied.0 < old(self)@.commit_index.0 ==> forall|i: int|
                old(self)@.last_applied.0 < i <= old(self)@.commit_index.0
                    ==> #[trigger] log_find(old(self)@.log, LogIndex(i as usize)) >= 0,
        ensures
            peer_inv(final(self)@),
            final(self).storage_reliable() == old(self).storage_reliable(),
            old(self).storage_reliable() ==> final(self)@ == receive_client_message_step(
                old(self)@,
                client_id,
                request_id,
                message@,
            ),
            final(self)@.current_term == old(self)@.current_term,
            final(self)@.voted_for == old(self)@.voted_for,
    {
        match message {
            ClientMessage::CommandReply(_) | ClientMessage::QueryReply(_) => {
                proof {
                    assert(self@ =~~= old(self)@);
                }
            },
            ClientMessage::CommandRequest(request) => {
                let reply = self.receive_command_request(request.command);
                proof {
                    if old(self).storage_reliable() && reply is None {
                        assert(self@ =~~= receive_client_message_step(
                            old(self)@,
                            client_id,
                            request_id,
                            message@,
                        ));
                    }
                }
                match reply {
                    Some(reply) => {
                        let transmit = ClientTransmit::new(
                            client_id,
                            self.id,
                            request_id,
                            ClientMessage::CommandReply(reply),
                        );
                        let ghost outbox_before = Seq::new(
                            self.buffered_client_transmits@.len(),
                            |k: int| self.buffered_client_transmits@[k]@,
                        );
                        self.buffered_client_transmits.push_back(transmit);
                        proof {
                            assert(Seq::new(
                                self.buffered_client_transmits@.len(),
                                |k: int| self.buffered_client_transmits@[k]@,
                            ) =~= outbox_before.push(transmit@));
                            if old(self).storage_reliable() {
                                assert(self@ =~~= receive_client_message_step(
                                    old(self)@,
                                    client_id,
                                    request_id,
                                    message@,
                                ));
                            }
                        }
                    },
                    None => {},
                }
            },
            ClientMessage::QueryRequest(request) => {
                let reply = self.receive_query_request(&request.query);
                proof {
                    if reply is None {
                        assert(self@ =~~= receive_client_message_step(
                            old(self)@,
                            client_id,
                            request_id,
                            message@,
                        ));
                    }
                }
                match reply {
                    Some(reply) => {
                        let transmit = ClientTransmit::new(
                            client_id,
                            self.id,
                            request_id,
                            ClientMessage::QueryReply(reply),
                        );
                        let ghost outbox_before = Seq::new(
                            self.buffered_client_transmits@.len(),
                            |k: int| self.buffered_client_transmits@[k]@,
                        );
                        self.buffered_client_transmits.push_back(transmit);
                        proof {
                            assert(Seq::new(
                                self.buffered_client_transmits@.len(),
                                |k: int| self.buffered_client_transmits@[k]@,
                            ) =~= outbox_before.push(transmit@));
                            if old(self).storage_reliable() {
                                assert(self@ =~~= receive_client_message_step(
                                    old(self)@,
                                    client_id,
                                    request_id,
                                    message@,
                                ));
                            }
                        }
                    },
                    None => {},
                }
            },
        }
    }
}


/// A log truncated from index zero holds nothing.
pub proof fn lemma_log_below_zero(log: Seq<LogEntryView>)
    ensures
        log_below(log, LogIndex(0)) == Seq::<LogEntryView>::empty(),
    decreases log.len(),
{
    if log.len() == 0 {
        assert(log_below(log, LogIndex(0)) =~= Seq::<LogEntryView>::empty());
    } else {
        lemma_log_below_zero(log.drop_last());
    }
}

/// A single-peer cluster's election timeout steps straight to leader
/// without emitting any vote request.
pub proof fn lemma_single_peer_election(p: PeerView)
    requires
        peer_ids_sorted(p.cluster),
        p.cluster.contains(p.id),
        p.cluster.len() == 1,
    ensures
        election_timeout_step(p).role is Leader,
        election_timeout_step(p).peer_outbox == p.peer_outbox,
{
    lemma_others_len(p.cluster, p.id);
    let persisted = PeerView {
        current_term: Term((p.current_term.0 + 1) as usize),
        voted_for: Some(p.id),
        ..p
    };
    let others = others_of(persisted.cluster, persisted.id);
    assert(others.len() == 0);
    assert(broadcast_of(
        others,
        persisted.next_request_id,
        PeerMessageView::AppendEntriesRequest(
            become_leader_step(persisted).role->Leader_0.append_entries_requests[0].1,
        ),
    ).len() == 0);
    assert(election_timeout_step(p).peer_outbox =~= p.peer_outbox);
}

/// With an empty log, a vote request advertises the snapshot's last
/// included index and term.
pub proof fn lemma_vote_request_uses_snapshot(p: PeerView)
    requires
        p.log.len() == 0,
    ensures
        vote_request_of(p).last_log_index == p.snapshot.last_included_index,
        vote_request_of(p).last_log_term == p.snapshot.last_included_term,
{
}

/// A replication request with `prev_log_index` zero bypasses the
/// consistency check: a term at least the receiver's makes it succeed.
pub proof fn lemma_zero_prev_log_index_bypasses_check(
    p: PeerView,
    sender: PeerId,
    req: AppendEntriesRequestView,
)
    requires
        req.prev_log_index.0 == 0,
        req.term.0 >= p.current_term.0,
    ensures
        receive_append_entries_step(p, sender, req).1.success,
{
}

/// A replication request of the current term whose `prev_log_term`
/// conflicts with the entry at `prev_log_index` truncates the log from
/// that entry (inclusive) and is refused.
pub proof fn lemma_conflicting_prev_log_term_truncates(
    p: PeerView,
    sender: PeerId,
    req: AppendEntriesRequestView,
)
    requires
        req.term == p.current_term,
        req.prev_log_index.0 != 0,
        log_find(p.log, req.prev_log_index) >= 0,
        p.log[log_find(p.log, req.prev_log_index)].term != req.prev_log_term,
    ensures
        receive_append_entries_step(p, sender, req).0.log == log_below(p.log, req.prev_log_index),
        !receive_append_entries_step(p, sender, req).1.success,
{
}

/// A contiguous log stays contiguous when a leader appends its no-op.
pub proof fn lemma_become_leader_preserves_contiguity(p: PeerView)
    requires
        log_contiguous(p.log, p.snapshot.last_included_index),
        last_log_index(p).0 < usize::MAX,
    ensures
        log_contiguous(become_leader_step(p).log, p.snapshot.last_included_index),
{
    let entry = LogEntryView {
        index: LogIndex((last_log_index(p).0 + 1) as usize),
        term: p.current_term,
        command: CommandView::NoOp,
    };
    if p.log.len() > 0 {
        assert(p.log.last() == p.log[p.log.len() - 1]);
    }
    lemma_append_preserves_contiguity(p.log, p.snapshot.last_included_index, entry);
}

/// A contiguous log stays contiguous when a leader appends a command.
pub proof fn lemma_command_append_preserves_contiguity(p: PeerView, command: CommandView)
    requires
        p.role is Leader,
        log_contiguous(p.log, p.snapshot.last_included_index),
        last_log_index(p).0 < usize::MAX,
    ensures
        log_contiguous(
            receive_command_request_step(p, command).0.log,
            p.snapshot.last_included_index,
        ),
{
    let entry = LogEntryView {
        index: LogIndex((last_log_index(p).0 + 1) as usize),
        term: p.current_term,
        command,
    };
    if p.log.len() > 0 {
        assert(p.log.last() == p.log[p.log.len() - 1]);
    }
    lemma_append_preserves_contiguity(p.log, p.snapshot.last_included_index, entry);
}

/// Truncation keeps a contiguous log contiguous: what is below `down_to`
/// is a prefix.
pub proof fn lemma_truncation_preserves_contiguity(
    log: Seq<LogEntryView>,
    snapshot_index: LogIndex,
    down_to: LogIndex,
)
    requires
        log_contiguous(log, snapshot_index),
    ensures
        log_contiguous(log_below(log, down_to), snapshot_index),
    decreases log.len(),
{
    if log.len() > 0 {
        let rest = log.drop_last();
        assert forall|k: int| 0 <= k < rest.len() implies (#[trigger] rest[k]).index.0
            == snapshot_index.0 + 1 + k by {
            assert(rest[k] == log[k]);
        }
        lemma_truncation_preserves_contiguity(rest, snapshot_index, down_to);
        if log.last().index.0 < down_to.0 {
            assert(log.last().index.0 == snapshot_index.0 + log.len());
            assert forall|k: int| 0 <= k < rest.len() implies (#[trigger] rest[k]).index.0
                < down_to.0 by {
                assert(rest[k] == log[k]);
            }
            lemma_log_below_all(rest, down_to);
            assert(log_below(log, down_to) =~= log);
        }
    }
}

/// A contiguous log whose last entry lies below `down_to` is untouched by
/// truncation at `down_to`.
proof fn lemma_log_below_all(log: Seq<LogEntryView>, down_to: LogIndex)
    requires
        forall|k: int| 0 <= k < log.len() ==> (#[trigger] log[k]).index.0 < down_to.0,
    ensures
        log_below(log, down_to) == log,
    decreases log.len(),
{
    if log.len() == 0 {
        assert(log_below(log, down_to) =~= log);
    } else {
        let rest = log.drop_last();
        assert forall|k: int| 0 <= k < rest.len() implies (#[trigger] rest[k]).index.0
            < down_to.0 by {
            assert(rest[k] == log[k]);
        }
        lemma_log_below_all(rest, down_to);
        assert(log_below(log, down_to) =~= log);
    }
}

/// Adopting a leader's commit index never retreats when the leader's is at
/// least the follower's own.
pub proof fn lemma_append_entries_commit_monotonic(
    p: PeerView,
    sender: PeerId,
    req: AppendEntriesRequestView,
)
    requires
        req.leader_commit.0 >= p.commit_index.0,
    ensures
        receive_append_entries_step(p, sender, req).0.commit_index.0 >= p.commit_index.0,
{
}

/// Two logs that agree on the commands of the entries in a range drive a
/// machine to the same state when that range is applied: applying is
/// deterministic in the commands.
pub proof fn lemma_apply_consistency(
    m: MachineView,
    log_a: Seq<LogEntryView>,
    log_b: Seq<LogEntryView>,
    lo: LogIndex,
    hi: LogIndex,
)
    requires
        forall|i: int|
            lo.0 < i <= hi.0 ==> #[trigger] log_find(log_a, LogIndex(i as usize)) >= 0 && log_find(
                log_b,
                LogIndex(i as usize),
            ) >= 0 && log_a[log_find(log_a, LogIndex(i as usize))].command == log_b[log_find(
                log_b,
                LogIndex(i as usize),
            )].command,
    ensures
        apply_range(m, log_a, lo, hi) == apply_range(m, log_b, lo, hi),
    decreases hi.0 - lo.0,
{
    if lo.0 < hi.0 {
        let next = LogIndex((lo.0 + 1) as usize);
        assert(log_find(log_a, next) >= 0);
        let stepped = apply_spec(m, log_a[log_find(log_a, next)].command).0;
        lemma_apply_consistency(stepped, log_a, log_b, next, hi);
    }
}

impl<S: Storage> Peer<S> {
    /// Overwrites the current term of the peer persistently.
    ///
    /// Meant for driving replay peers; live peers move only through steps.
    pub fn set_current_term(&mut self, new_term: Term) -> (r: Result<(), StorageError>)
        ensures
            final(self).storage_reliable() == old(self).storage_reliable(),
            old(self).storage_reliable() ==> r is Ok,
            r is Ok ==> final(self)@ == (PeerView { current_term: new_term, ..old(self)@ }),
            r is Err ==> final(self)@ == old(self)@,
    {
        let result = self.storage.set_current_term(new_term);
        proof {
            if result is Ok {
                assert(self@ =~~= (PeerView { current_term: new_term, ..old(self)@ }));
            } else {
                assert(self@ =~~= old(self)@);
            }
        }
        result
    }

    /// Overwrites the vote of the peer persistently.
    ///
    /// Meant for driving replay peers; live peers move only through steps.
    pub fn set_voted_for(&mut self, new_voted_for: Option<PeerId>) -> (r: Result<(), StorageError>)
        ensures
            final(self).storage_reliable() == old(self).storage_reliable(),
            old(self).storage_reliable() ==> r is Ok,
            r is Ok ==> final(self)@ == (PeerView { voted_for: new_voted_for, ..old(self)@ }),
            r is Err ==> final(self)@ == old(self)@,
    {
        let result = self.storage.set_voted_for(new_voted_for);
        proof {
            if result is Ok {
                assert(self@ =~~= (PeerView { voted_for: new_voted_for, ..old(self)@ }));
            } else {
                assert(self@ =~~= old(self)@);
            }
        }
        result
    }

    /// Overwrites the log of the peer persistently: truncates everything,
    /// then appends the given entries in order.
    ///
    /// Meant for driving replay peers; live peers move only through steps.
    pub fn set_log(&mut self, new_log: Vec<LogEntry>) -> (r: Result<(), StorageError>)
        ensures
            final(self).storage_reliable() == old(self).storage_reliable(),
            old(self).storage_reliable() ==> r is Ok,
            r is Ok ==> final(self)@ == (PeerView {
                log: Seq::new(new_log@.len(), |i: int| new_log@[i]@),
                ..old(self)@
            }),
            r is Err ==> !old(self).storage_reliable(),
            final(self)@.current_term == old(self)@.current_term,
            final(self)@.voted_for == old(self)@.voted_for,
            final(self)@.snapshot == old(self)@.snapshot,
            final(self)@.role == old(self)@.role,
            final(self)@.machine == old(self)@.machine,
            final(self)@.commit_index == old(self)@.commit_index,
            final(self)@.last_applied == old(self)@.last_applied,
            final(self)@.next_request_id == old(self)@.next_request_id,
            final(self)@.peer_outbox == old(self)@.peer_outbox,
            final(self)@.client_outbox == old(self)@.client_outbox,
    {
        let truncated = self.storage.truncate_log(LogIndex(0));
        match truncated {
            Ok(_) => {},
            Err(error) => {
                proof {
                    assert(self@ =~~= old(self)@);
                }
                return Err(error);
            },
        }
        proof {
            lemma_log_below_zero(old(self)@.log);
        }
        let ghost target = Seq::new(new_log@.len(), |i: int| new_log@[i]@);
        let mut i: usize = 0;
        proof {
            assert(self.storage.model().log =~= target.take(0));
        }
        while i < new_log.len()
            invariant
                i <= new_log@.len(),
                target == Seq::new(new_log@.len(), |j: int| new_log@[j]@),
                self.storage.model().log == target.take(i as int),
                self.storage.model() == (StorageModel {
                    log: self.storage.model().log,
                    ..old(self).spec_storage().model()
                }),
                self.storage.reliable() == old(self).storage_reliable(),
                self.id == old(self)@.id,
                self.cluster@ == old(self)@.cluster,
                self.consistency == old(self)@.consistency,
                self.role@ == old(self)@.role,
                self.machine@ == old(self)@.machine,
                self.commit_index == old(self)@.commit_index,
                self.last_applied == old(self)@.last_applied,
                self.request_counter.spec_next() == old(self)@.next_request_id,
                Seq::new(
                    self.buffered_peer_transmits@.len(),
                    |k: int| self.buffered_peer_transmits@[k]@,
                ) == old(self)@.peer_outbox,
                Seq::new(
                    self.buffered_client_transmits@.len(),
                    |k: int| self.buffered_client_transmits@[k]@,
                ) == old(self)@.client_outbox,
            decreases new_log@.len() - i,
        {
            let appended = self.storage.append_log_entry(new_log[i].clone());
            match appended {
                Ok(_) => {},
                Err(error) => {
                    return Err(error);
                },
            }
            proof {
                assert(target.take(i + 1) =~= target.take(i as int).push(target[i as int]));
                assert(self.storage.model().log =~= target.take(i + 1));
            }
            i = i + 1;
        }
        proof {
            assert(target.take(target.len() as int) =~= target);
            assert(self@ =~~= (PeerView { log: target, ..old(self)@ }));
        }
        Ok(())
    }

    /// Overwrites the snapshot of the peer persistently.
    ///
    /// Meant for driving replay peers; live peers move only through steps.
    pub fn set_snapshot(&mut self, new_snapshot: Snapshot) -> (r: Result<(), StorageError>)
        ensures
            final(self).storage_reliable() == old(self).storage_reliable(),
            old(self).storage_reliable() ==> r is Ok,
            r is Ok ==> final(self)@ == (PeerView { snapshot: new_snapshot@, ..old(self)@ }),
            r is Err ==> final(self)@ == old(self)@,
    {
        let ghost snapshot_view = new_snapshot@;
        let result = self.storage.install_snapshot(new_snapshot);
        proof {
            if result is Ok {
                assert(self@ =~~= (PeerView { snapshot: snapshot_view, ..old(self)@ }));
            } else {
                assert(self@ =~~= old(self)@);
            }
        }
        result
    }

    /// Overwrites the commit index of the peer.
    ///
    /// Meant for driving replay peers; live peers move only through steps.
    pub fn set_commit_index(&mut self, new_commit_index: LogIndex)
        ensures
            final(self)@ == (PeerView { commit_index: new_commit_index, ..old(self)@ }),
            final(self).storage_reliable() == old(self).storage_reliable(),
    {
        self.commit_index = new_commit_index;
        proof {
            assert(self@ =~~= (PeerView { commit_index: new_commit_index, ..old(self)@ }));
        }
    }

    /// Overwrites the last applied index of the peer.
    ///
    /// Meant for driving replay peers; live peers move only through steps.
    pub fn set_last_applied(&mut self, new_last_applied: LogIndex)
        ensures
            final(self)@ == (PeerView { last_applied: new_last_applied, ..old(self)@ }),
            final(self).storage_reliable() == old(self).storage_reliable(),
    {
        self.last_applied = new_last_applied;
        proof {
            assert(self@ =~~= (PeerView { last_applied: new_last_applied, ..old(self)@ }));
        }
    }

    /// Overwrites the role of the peer.
    ///
    /// Meant for driving replay peers; live peers move only through steps.
    pub fn set_role(&mut self, new_role: Role)
        ensures
            final(self)@ == (PeerView { role: new_role@, ..old(self)@ }),
            final(self).storage_reliable() == old(self).storage_reliable(),
    {
        self.role = new_role;
        proof {
            assert(self@ =~~= (PeerView { role: self.role@, ..old(self)@ }));
        }
    }

    /// Overwrites the machine of the peer.
    ///
    /// Meant for driving replay peers; live peers move only through steps.
    pub fn set_machine(&mut self, new_machine: Machine)
        ensures
            final(self)@ == (PeerView { machine: new_machine@, ..old(self)@ }),
            final(self).storage_reliable() == old(self).storage_reliable(),
    {
        let ghost machine_view = new_machine@;
        self.machine = new_machine;
        proof {
            assert(self@ =~~= (PeerView { machine: machine_view, ..old(self)@ }));
        }
    }

    /// Overwrites the buffered outbound peer transmits of the peer.
    ///
    /// Meant for driving replay peers; live peers move only through steps.
    pub fn set_buffered_peer_transmits(&mut self, new_transmits: VecDeque<PeerTransmit>)
        ensures
            final(self)@ == (PeerView {
                peer_outbox: Seq::new(new_transmits@.len(), |i: int| new_transmits@[i]@),
                ..old(self)@
            }),
            final(self).storage_reliable() == old(self).storage_reliable(),
    {
        self.buffered_peer_transmits = new_transmits;
        proof {
            assert(self@ =~~= (PeerView { peer_outbox: self@.peer_outbox, ..old(self)@ }));
        }
    }

    /// Overwrites the buffered outbound client transmits of the peer.
    ///
    /// Meant for driving replay peers; live peers move only through steps.
    pub fn set_buffered_client_transmits(&mut self, new_transmits: VecDeque<ClientTransmit>)
        ensures
            final(self)@ == (PeerView {
                client_outbox: Seq::new(new_transmits@.len(), |i: int| new_transmits@[i]@),
                ..old(self)@
            }),
            final(self).storage_reliable() == old(self).storage_reliable(),
    {
        self.buffered_client_transmits = new_transmits;
        proof {
            assert(self@ =~~= (PeerView { client_outbox: self@.client_outbox, ..old(self)@ }));
        }
    }
}


/// Whether the peer transmit at a position carries a request.
pub open spec fn peer_transmit_is_request_at(outbox: Seq<PeerTransmitView>, j: int) -> bool {
    crate::message::peer_message_is_request(outbox[j].message)
}

impl<S: Storage> Peer<S> {
    /// The value the peer's request counter will hand out next.
    pub fn next_request_id(&self) -> (r: usize)
        ensures
            r == self@.next_request_id,
    {
        self.request_counter.peek()
    }

    /// Gets the position of the first queued peer request with the given id.
    pub fn position_of_peer_request(&self, request_id: RequestId) -> (r: Option<usize>)
        ensures
            match r {
                Some(position) => position < self@.peer_outbox.len()
                    && peer_transmit_is_request_at(self@.peer_outbox, position as int)
                    && self@.peer_outbox[position as int].request_id == request_id && forall|j: int|
                    0 <= j < position ==> !(peer_transmit_is_request_at(self@.peer_outbox, j) && (
                    #[trigger] self@.peer_outbox[j]).request_id == request_id),
                None => forall|j: int|
                    0 <= j < self@.peer_outbox.len() ==> !(peer_transmit_is_request_at(
                        self@.peer_outbox,
                        j,
                    ) && (#[trigger] self@.peer_outbox[j]).request_id == request_id),
            },
    {
        let mut i: usize = 0;
        while i < self.buffered_peer_transmits.len()
            invariant
                i <= self.buffered_peer_transmits@.len(),
                self@.peer_outbox.len() == self.buffered_peer_transmits@.len(),
                forall|j: int|
                    0 <= j < i ==> !(peer_transmit_is_request_at(self@.peer_outbox, j) && (
                    #[trigger] self@.peer_outbox[j]).request_id == request_id),
            decreases self.buffered_peer_transmits@.len() - i,
        {
            let transmit = &self.buffered_peer_transmits[i];
            if transmit.message().is_request() && transmit.request_id().0 == request_id.0 {
                return Some(i);
            }
            i = i + 1;
        }
        None
    }

    /// Gets the position of the first queued peer reply addressed to the
    /// given peer under the given id.
    pub fn position_of_peer_reply(&self, replied_peer_id: PeerId, request_id: RequestId) -> (r:
        Option<usize>)
        ensures
            match r {
                Some(position) => position < self@.peer_outbox.len()
                    && !peer_transmit_is_request_at(self@.peer_outbox, position as int)
                    && self@.peer_outbox[position as int].peer_id == replied_peer_id
                    && self@.peer_outbox[position as int].request_id == request_id && forall|j: int|
                    0 <= j < position ==> !(!peer_transmit_is_request_at(self@.peer_outbox, j) && (
                    #[trigger] self@.peer_outbox[j]).peer_id == replied_peer_id
                        && self@.peer_outbox[j].request_id == request_id),
                None => forall|j: int|
                    0 <= j < self@.peer_outbox.len() ==> !(!peer_transmit_is_request_at(
                        self@.peer_outbox,
                        j,
                    ) && (#[trigger] self@.peer_outbox[j]).peer_id == replied_peer_id
                        && self@.peer_outbox[j].request_id == request_id),
            },
    {
        let mut i: usize = 0;
        while i < self.buffered_peer_transmits.len()
            invariant
                i <= self.buffered_peer_transmits@.len(),
                self@.peer_outbox.len() == self.buffered_peer_transmits@.len(),
                forall|j: int|
                    0 <= j < i ==> !(!peer_transmit_is_request_at(self@.peer_outbox, j) && (
                    #[trigger] self@.peer_outbox[j]).peer_id == replied_peer_id
                        && self@.peer_outbox[j].request_id == request_id),
            decreases self.buffered_peer_transmits@.len() - i,
        {
            let transmit = &self.buffered_peer_transmits[i];
            if transmit.message().is_reply() && transmit.peer_id().0 == replied_peer_id.0
                && transmit.request_id().0 == request_id.0 {
                return Some(i);
            }
            i = i + 1;
        }
        None
    }

    /// Removes and returns the transmit at a position of the peer outbox.
    pub fn remove_peer_transmit(&mut self, position: usize) -> (r: PeerTransmit)
        requires
            position < old(self)@.peer_outbox.len(),
        ensures
            r@ == old(self)@.peer_outbox[position as int],
            final(self)@ == (PeerView {
                peer_outbox: old(self)@.peer_outbox.remove(position as int),
                ..old(self)@
            }),
            final(self).storage_reliable() == old(self).storage_reliable(),
    {
        let removed = self.buffered_peer_transmits.remove(position);
        match removed {
            Some(transmit) => {
                proof {
                    assert(Seq::new(
                        self.buffered_peer_transmits@.len(),
                        |i: int| self.buffered_peer_transmits@[i]@,
                    ) =~= old(self)@.peer_outbox.remove(position as int));
                    assert(self@ =~~= (PeerView {
                        peer_outbox: old(self)@.peer_outbox.remove(position as int),
                        ..old(self)@
                    }));
                }
                transmit
            },
            None => {
                proof {
                    assert(false);
                }
                vstd::pervasive::unreached()
            },
        }
    }

    /// Gets the position of the first queued client reply addressed to the
    /// given client under the given id.
    pub fn position_of_client_reply(&self, replied_client_id: ClientId, request_id: RequestId)
        -> (r: Option<usize>)
        ensures
            match r {
                Some(position) => position < self@.client_outbox.len()
                    && !crate::message::client_message_is_request(
                    self@.client_outbox[position as int].message,
                ) && self@.client_outbox[position as int].client_id == replied_client_id
                    && self@.client_outbox[position as int].request_id == request_id && forall|
                    j: int,
                |
                    0 <= j < position ==> !(!crate::message::client_message_is_request(
                        self@.client_outbox[j].message,
                    ) && (#[trigger] self@.client_outbox[j]).client_id == replied_client_id
                        && self@.client_outbox[j].request_id == request_id),
                None => forall|j: int|
                    0 <= j < self@.client_outbox.len() ==> !(
                    !crate::message::client_message_is_request(self@.client_outbox[j].message) && (
                    #[trigger] self@.client_outbox[j]).client_id == replied_client_id
                        && self@.client_outbox[j].request_id == request_id),
            },
    {
        let mut i: usize = 0;
        while i < self.buffered_client_transmits.len()
            invariant
                i <= self.buffered_client_transmits@.len(),
                self@.client_outbox.len() == self.buffered_client_transmits@.len(),
                forall|j: int|
                    0 <= j < i ==> !(!crate::message::client_message_is_request(
                        self@.client_outbox[j].message,
                    ) && (#[trigger] self@.client_outbox[j]).client_id == replied_client_id
                        && self@.client_outbox[j].request_id == request_id),
            decreases self.buffered_client_transmits@.len() - i,
        {
            let transmit = &self.buffered_client_transmits[i];
            if transmit.message().is_reply() && transmit.client_id().0 == replied_client_id.0
                && transmit.request_id().0 == request_id.0 {
                return Some(i);
            }
            i = i + 1;
        }
        None
    }

    /// Removes and returns the transmit at a position of the client outbox.
    pub fn remove_client_transmit(&mut self, position: usize) -> (r: ClientTransmit)
        requires
            position < old(self)@.client_outbox.len(),
        ensures
            r@ == old(self)@.client_outbox[position as int],
            final(self)@ == (PeerView {
                client_outbox: old(self)@.client_outbox.remove(position as int),
                ..old(self)@
            }),
            final(self).storage_reliable() == old(self).storage_reliable(),
    {
        let removed = self.buffered_client_transmits.remove(position);
        match removed {
            Some(transmit) => {
                proof {
                    assert(Seq::new(
                        self.buffered_client_transmits@.len(),
                        |i: int| self.buffered_client_transmits@[i]@,
                    ) =~= old(self)@.client_outbox.remove(position as int));
                    assert(self@ =~~= (PeerView {
                        client_outbox: old(self)@.client_outbox.remove(position as int),
                        ..old(self)@
                    }));
                }
                transmit
            },
            None => {
                proof {
                    assert(false);
                }
                vstd::pervasive::unreached()
            },
        }
    }

    /// Whether the given peer message may be delivered to this peer: the
    /// executable side of [`peer_message_deliverable`].
    pub fn can_receive_peer_message(
        &self,
        sender: PeerId,
        request_id: RequestId,
        message: &PeerMessage,
    ) -> (r: bool)
        ensures
            r == peer_message_deliverable(self@, sender, request_id, message@),
    {
        if !(self.cluster.len() < usize::MAX) || !(self.request_counter.peek() < usize::MAX) {
            return false;
        }
        match message {
            PeerMessage::RequestVoteRequest(_) => true,
            PeerMessage::RequestVoteReply(reply) => {
                match reply.vote {
                    Vote::Granted => {
                        let term_consistent = match &self.role {
                            Role::Candidate(candidate_state) => {
                                if reply.term.0 <= self.storage.current_term().0
                                    && candidate_state.contains(request_id) {
                                    proof {
                                        lemma_request_id_find(
                                            self@.role->Candidate_0.vote_request_ids,
                                            request_id,
                                        );
                                    }
                                    reply.term.0 == self.storage.current_term().0
                                } else {
                                    proof {
                                        lemma_request_id_find(
                                            self@.role->Candidate_0.vote_request_ids,
                                            request_id,
                                        );
                                    }
                                    true
                                }
                            },
                            _ => true,
                        };
                        let last_index = match self.storage.log().last() {
                            Some(entry) => entry.index(),
                            None => self.storage.snapshot().last_included_index(),
                        };
                        term_consistent && last_index.0 <= usize::MAX - 2
                            && self.request_counter.peek() <= usize::MAX - self.cluster.len()
                    },
                    _ => true,
                }
            },
            PeerMessage::AppendEntriesRequest(request) => {
                if request.term.0 != self.storage.current_term().0 || !self.role.is_leader() {
                    true
                } else {
                    let consistent = if request.prev_log_index.0 == 0 {
                        true
                    } else {
                        match self.storage.log().position_of(request.prev_log_index) {
                            Some(position) => self.storage.log().at(position).term().0
                                == request.prev_log_term.0,
                            None => false,
                        }
                    };
                    !consistent
                }
            },
            PeerMessage::AppendEntriesReply(reply) => {
                if reply.term.0 != self.storage.current_term().0 {
                    return true;
                }
                let recorded = match &self.role {
                    Role::Leader(leader_state) => leader_state.append_entries_requests.get(
                        request_id,
                    ),
                    _ => None,
                };
                let request = match recorded {
                    Some(request) => request,
                    None => {
                        proof {
                            if self@.role is Leader {
                                lemma_request_key_find(
                                    self@.role->Leader_0.append_entries_requests,
                                    request_id,
                                );
                            }
                        }
                        return true;
                    },
                };
                if reply.success {
                    let replicated = if request.entries.len() > 0 {
                        request.entries[request.entries.len() - 1].index()
                    } else {
                        request.prev_log_index
                    };
                    replicated.0 < usize::MAX
                } else {
                    let next_for_sender = match &self.role {
                        Role::Leader(leader_state) => leader_state.next_index.get(sender),
                        _ => None,
                    };
                    match next_for_sender {
                        Some(next_value) => {
                            let boundary = self.storage.snapshot().last_included_index();
                            if !(boundary.0 < usize::MAX && next_value.0 > boundary.0 + 1) {
                                false
                            } else {
                                match self.storage.log().position_of(next_value.previous()) {
                                    Some(_) => true,
                                    None => false,
                                }
                            }
                        },
                        None => true,
                    }
                }
            },
        }
    }

    /// Whether the peer can apply every committed entry: the executable
    /// side of [`apply_committed_enabled`].
    pub fn can_apply_committed(&self) -> (r: bool)
        ensures
            r == apply_committed_enabled(self@),
    {
        let mut next: usize = self.last_applied.0;
        if next >= self.commit_index.0 {
            return true;
        }
        while next < self.commit_index.0
            invariant
                self@.last_applied.0 <= next <= self@.commit_index.0,
                forall|i: int|
                    self@.last_applied.0 < i <= next ==> #[trigger] log_find(
                        self@.log,
                        LogIndex(i as usize),
                    ) >= 0,
            decreases self.commit_index.0 - next,
        {
            match self.storage.log().position_of(LogIndex(next + 1)) {
                Some(_) => {},
                None => {
                    proof {
                        assert(log_find(self@.log, LogIndex((next + 1) as usize)) == -1);
                        assert(self@.last_applied.0 < next + 1 <= self@.commit_index.0);
                    }
                    return false;
                },
            }
            next = next + 1;
        }
        true
    }
}


/// What delivering a client message to a peer demands: the index and
/// counter headroom a leader needs to append and replicate, and, for an
/// eventually consistent query, that every committed entry is present.
pub open spec fn client_message_deliverable(p: PeerView, message: ClientMessageView) -> bool {
    &&& (message is CommandRequest && p.role is Leader ==> last_log_index(p).0 + 2 <= usize::MAX
        && p.next_request_id + p.cluster.len() <= usize::MAX)
    &&& (message is QueryRequest && p.consistency is Eventual && p.last_applied.0
        < p.commit_index.0 ==> forall|i: int|
        p.last_applied.0 < i <= p.commit_index.0 ==> #[trigger] log_find(
            p.log,
            LogIndex(i as usize),
        ) >= 0)
}

impl<S: Storage> Peer<S> {
    /// Whether the given client message may be delivered to this peer: the
    /// executable side of [`client_message_deliverable`].
    pub fn can_receive_client_message(&self, message: &ClientMessage) -> (r: bool)
        ensures
            r == client_message_deliverable(self@, message@),
    {
        match message {
            ClientMessage::CommandRequest(_) => {
                if !self.role.is_leader() {
                    true
                } else {
                    let last_index = match self.storage.log().last() {
                        Some(entry) => entry.index(),
                        None => self.storage.snapshot().last_included_index(),
                    };
                    last_index.0 <= usize::MAX - 2 && self.request_counter.peek() <= usize::MAX
                        - self.cluster.len()
                }
            },
            ClientMessage::QueryRequest(_) => {
                match self.consistency {
                    Consistency::Eventual => self.can_apply_committed(),
                    Consistency::Strong => true,
                }
            },
            _ => true,
        }
    }
}


/// Whether the machine's index and counter headroom admits an election
/// timeout on a peer: what `trigger_election_timeout` requires.
pub open spec fn election_timeout_enabled(p: PeerView) -> bool {
    p.current_term.0 < usize::MAX && p.next_request_id + p.cluster.len() <= usize::MAX
        && last_log_index(p).0 + 2 <= usize::MAX
}

/// Whether the counter headroom admits a heartbeat timeout on a peer.
pub open spec fn heartbeat_enabled(p: PeerView) -> bool {
    p.next_request_id + p.cluster.len() <= usize::MAX
}

/// Whether a peer can apply everything committed: each index between
/// `last_applied` and `commit_index` is present in its log.
pub open spec fn apply_committed_enabled(p: PeerView) -> bool {
    p.last_applied.0 < p.commit_index.0 ==> forall|i: int|
        p.last_applied.0 < i <= p.commit_index.0 ==> #[trigger] log_find(
            p.log,
            LogIndex(i as usize),
        ) >= 0
}

impl<S: Storage> Peer<S> {
    /// Whether the machine's index and counter headroom admits an election
    /// timeout on this peer.
    pub fn can_trigger_election(&self) -> (r: bool)
        ensures
            r == election_timeout_enabled(self@),
    {
        let last_index = match self.storage.log().last() {
            Some(entry) => entry.index(),
            None => self.storage.snapshot().last_included_index(),
        };
        self.storage.current_term().0 < usize::MAX && self.request_counter.peek() <= usize::MAX
            - self.cluster.len() && last_index.0 <= usize::MAX - 2
    }

    /// Whether the counter headroom admits a heartbeat timeout on this peer.
    pub fn can_trigger_heartbeat(&self) -> (r: bool)
        ensures
            r == heartbeat_enabled(self@),
    {
        self.request_counter.peek() <= usize::MAX - self.cluster.len()
    }
}


/// Receiving any peer message never lowers the current term: the term is
/// monotonic across steps.
pub proof fn lemma_peer_message_term_monotonic(
    p: PeerView,
    sender: PeerId,
    request_id: RequestId,
    message: PeerMessageView,
)
    ensures
        receive_peer_message_step(p, sender, request_id, message).current_term.0
            >= p.current_term.0,
{
}

/// Within one term a peer's vote changes at most once, and only from no
/// vote to a vote for the soliciting candidate: a step that keeps the term
/// keeps the vote, or casts a first one for the vote request's sender.
pub proof fn lemma_peer_message_single_vote(
    p: PeerView,
    sender: PeerId,
    request_id: RequestId,
    message: PeerMessageView,
)
    ensures
        ({
            let stepped = receive_peer_message_step(p, sender, request_id, message);
            stepped.current_term == p.current_term ==> stepped.voted_for == p.voted_for || (
            p.voted_for is None && (message is RequestVoteRequest && stepped.voted_for == Some(
                sender,
            )))
        }),
{
}

/// An election timeout never lowers the current term either: it advances
/// it by exactly one.
pub proof fn lemma_election_term_monotonic(p: PeerView)
    requires
        p.current_term.0 < usize::MAX,
    ensures
        election_timeout_step(p).current_term.0 == p.current_term.0 + 1,
{
}


/// Appending a contiguous continuation keeps a log contiguous.
proof fn lemma_concat_preserves_contiguity(
    log: Seq<LogEntryView>,
    snapshot_index: LogIndex,
    entries: Seq<LogEntryView>,
)
    requires
        log_contiguous(log, snapshot_index),
        forall|k: int|
            0 <= k < entries.len() ==> (#[trigger] entries[k]).index.0 == snapshot_index.0 + 1
                + log.len() + k,
    ensures
        log_contiguous(log + entries, snapshot_index),
{
    let combined = log + entries;
    assert forall|k: int| 0 <= k < combined.len() implies (#[trigger] combined[k]).index.0
        == snapshot_index.0 + 1 + k by {
        if k < log.len() {
            assert(combined[k] == log[k]);
        } else {
            assert(combined[k] == entries[k - log.len()]);
        }
    }
}

/// A replication request whose window starts right after the receiver's
/// last entry keeps the receiver's log contiguous: how a leader-built
/// request preserves log contiguity at its followers.
pub proof fn lemma_append_entries_preserves_contiguity(
    p: PeerView,
    sender: PeerId,
    req: AppendEntriesRequestView,
)
    requires
        log_contiguous(p.log, p.snapshot.last_included_index),
        req.term.0 >= p.current_term.0,
        append_entries_consistent(p, req),
        req.prev_log_index == last_log_index(p),
        forall|k: int|
            0 <= k < req.entries.len() ==> (#[trigger] req.entries[k]).index.0
                == req.prev_log_index.0 + 1 + k,
    ensures
        log_contiguous(
            receive_append_entries_step(p, sender, req).0.log,
            p.snapshot.last_included_index,
        ),
{
    if p.log.len() > 0 {
        assert(p.log.last() == p.log[p.log.len() - 1]);
    }
    lemma_concat_preserves_contiguity(p.log, p.snapshot.last_included_index, req.entries);
}

} // verus!
