//! Clients that submit commands and queries to the cluster.

use vstd::prelude::*;

use crate::errors::ClientError;
use crate::kv::{Command, CommandResult, CommandView, Query, QueryView};
use crate::message::{
    ClientMessage, ClientMessageView, CommandReply, CommandRequest, QueryReply, QueryReplyView,
    QueryRequest,
};
use crate::primitives::{ClientId, Cluster, PeerId, RequestCounter, RequestId};
use crate::transmit::{ClientTransmit, ClientTransmitView};
use std::collections::VecDeque;

verus! {

/// Position of the first pair with the given request id, or `-1` if absent.
pub open spec fn assoc_find<V>(pairs: Seq<(RequestId, V)>, key: RequestId) -> int
    decreases pairs.len(),
{
    if pairs.len() == 0 {
        -1
    } else if pairs[0].0 == key {
        0
    } else {
        let r = assoc_find(pairs.drop_first(), key);
        if r < 0 {
            -1
        } else {
            r + 1
        }
    }
}

/// What `assoc_find` returns: the first matching position, or `-1` when none matches.
pub proof fn lemma_assoc_find<V>(pairs: Seq<(RequestId, V)>, key: RequestId)
    ensures
        assoc_find(pairs, key) == -1 ==> forall|j: int|
            0 <= j < pairs.len() ==> (#[trigger] pairs[j]).0 != key,
        assoc_find(pairs, key) != -1 ==> 0 <= assoc_find(pairs, key) < pairs.len() && pairs[
            assoc_find(pairs, key)
        ].0 == key && forall|j: int|
            0 <= j < assoc_find(pairs, key) ==> (#[trigger] pairs[j]).0 != key,
    decreases pairs.len(),
{
    if pairs.len() > 0 && pairs[0].0 != key {
        let d = pairs.drop_first();
        lemma_assoc_find(d, key);
        if assoc_find(pairs, key) == -1 {
            assert forall|j: int| 0 <= j < pairs.len() implies (#[trigger] pairs[j]).0 != key by {
                if j >= 1 {
                    assert(pairs[j] == d[j - 1]);
                }
            }
        } else {
            let r = assoc_find(pairs, key);
            assert(pairs[r] == d[r - 1]);
            assert forall|j: int| 0 <= j < r implies (#[trigger] pairs[j]).0 != key by {
                if j >= 1 {
                    assert(pairs[j] == d[j - 1]);
                }
            }
        }
    }
}

/// The table with `key` bound to `value`: replaced in place when present,
/// appended otherwise.
pub open spec fn assoc_set<V>(pairs: Seq<(RequestId, V)>, key: RequestId, value: V) -> Seq<
    (RequestId, V),
> {
    if assoc_find(pairs, key) >= 0 {
        pairs.update(assoc_find(pairs, key), (key, value))
    } else {
        pairs.push((key, value))
    }
}

/// The table without `key`: unchanged when absent.
pub open spec fn assoc_unset<V>(pairs: Seq<(RequestId, V)>, key: RequestId) -> Seq<
    (RequestId, V),
> {
    if assoc_find(pairs, key) >= 0 {
        pairs.remove(assoc_find(pairs, key))
    } else {
        pairs
    }
}

/// A table of pending or finished requests, keyed by request id.
#[derive(Debug)]
pub struct RequestTable<V> {
    pairs: Vec<(RequestId, V)>,
}

impl<V: View> View for RequestTable<V> {
    type V = Seq<(RequestId, <V as View>::V)>;

    closed spec fn view(&self) -> Seq<(RequestId, <V as View>::V)> {
        Seq::new(self.pairs@.len(), |i: int| (self.pairs@[i].0, self.pairs@[i].1@))
    }
}

impl<V: View> RequestTable<V> {
    /// Creates an empty table.
    pub fn new() -> (r: RequestTable<V>)
        ensures
            r@ == Seq::<(RequestId, <V as View>::V)>::empty(),
    {
        let r = RequestTable { pairs: Vec::new() };
        proof {
            assert(r@ =~= Seq::<(RequestId, <V as View>::V)>::empty());
        }
        r
    }

    /// Gets the number of entries.
    pub fn len(&self) -> (r: usize)
        ensures
            r == self@.len(),
    {
        self.pairs.len()
    }

    /// Gets the position of the entry with the given id, if present.
    fn position_of(&self, key: RequestId) -> (r: Option<usize>)
        ensures
            match r {
                Some(position) => position == assoc_find(self@, key) && position < self@.len(),
                None => assoc_find(self@, key) == -1,
            },
    {
        proof {
            lemma_assoc_find(self@, key);
        }
        let mut i: usize = 0;
        while i < self.pairs.len()
            invariant
                i <= self.pairs@.len(),
                self@.len() == self.pairs@.len(),
                forall|j: int| 0 <= j < i ==> (#[trigger] self@[j]).0 != key,
                assoc_find(self@, key) == -1 ==> forall|j: int|
                    0 <= j < self@.len() ==> (#[trigger] self@[j]).0 != key,
                assoc_find(self@, key) != -1 ==> 0 <= assoc_find(self@, key) < self@.len()
                    && self@[assoc_find(self@, key)].0 == key && forall|j: int|
                    0 <= j < assoc_find(self@, key) ==> (#[trigger] self@[j]).0 != key,
            decreases self.pairs@.len() - i,
        {
            if self.pairs[i].0.0 == key.0 {
                proof {
                    assert(self@[i as int].0 == key);
                    let r = assoc_find(self@, key);
                    if r == -1 {
                        assert(self@[i as int].0 != key);
                    } else if r < i as int {
                        assert(self@[r].0 != key);
                    } else if r > i as int {
                        assert(self@[i as int].0 != key);
                    }
                }
                return Some(i);
            }
            i = i + 1;
        }
        None
    }

    /// Gets the value bound to the given id, if any.
    pub fn get(&self, key: RequestId) -> (r: Option<&V>)
        ensures
            match r {
                Some(value) => assoc_find(self@, key) >= 0 && value@ == self@[assoc_find(
                    self@,
                    key,
                )].1,
                None => assoc_find(self@, key) == -1,
            },
    {
        match self.position_of(key) {
            Some(position) => Some(&self.pairs[position].1),
            None => None,
        }
    }

    /// Binds the id to the value, replacing any previous binding.
    pub fn insert(&mut self, key: RequestId, value: V)
        ensures
            final(self)@ == assoc_set(old(self)@, key, value@),
    {
        let ghost value_view = value@;
        match self.position_of(key) {
            Some(position) => {
                self.pairs.set(position, (key, value));
                proof {
                    assert(self@ =~= old(self)@.update(
                        assoc_find(old(self)@, key),
                        (key, value_view),
                    ));
                }
            },
            None => {
                self.pairs.push((key, value));
                proof {
                    assert(self@ =~= old(self)@.push((key, value_view)));
                }
            },
        }
    }

    /// Removes the binding of the id, if present.
    pub fn remove(&mut self, key: RequestId)
        ensures
            final(self)@ == assoc_unset(old(self)@, key),
    {
        match self.position_of(key) {
            Some(position) => {
                self.pairs.remove(position);
                proof {
                    assert(self@ =~= old(self)@.remove(assoc_find(old(self)@, key)));
                }
            },
            None => {},
        }
    }
}


/// rand's standard generator, declared so that a client can hold one.
#[verifier::external_type_specification]
#[verifier::external_body]
pub struct ExStdRng(rand::rngs::StdRng);

/// Relies on rand's `SeedableRng::from_os_rng`: seeds a generator from the
/// operating system's entropy source. Panics only if that source fails.
#[verifier::external_body]
fn new_rng() -> rand::rngs::StdRng {
    <rand::rngs::StdRng as rand::SeedableRng>::from_os_rng()
}

/// Relies on rand's `Rng::random_range` on `0..bound`: a uniform sample
/// from the non-empty range, so the result is below the bound.
#[verifier::external_body]
fn random_below(rng: &mut rand::rngs::StdRng, bound: usize) -> (r: usize)
    requires
        bound >= 1,
    ensures
        r < bound,
{
    rand::Rng::random_range(rng, 0..bound)
}

/// Mathematical image of a [`Client`]. The random generator has none: what
/// it yields is never promised.
#[verifier::ext_equal]
pub ghost struct ClientView {
    pub id: ClientId,
    pub cluster: Seq<PeerId>,
    pub leader: Option<PeerId>,
    pub next_request_id: usize,
    pub commands: Seq<(RequestId, CommandView)>,
    pub command_results: Seq<(RequestId, Result<CommandResult, ClientError>)>,
    pub queries: Seq<(RequestId, QueryView)>,
    pub query_results: Seq<(RequestId, Result<crate::kv::QueryResultView, ClientError>)>,
    pub outbox: Seq<ClientTransmitView>,
}

/// A command or query result as the client records it.
#[derive(Debug, PartialEq, Eq)]
pub struct CommandOutcome {
    pub result: Result<CommandResult, ClientError>,
}

impl View for CommandOutcome {
    type V = Result<CommandResult, ClientError>;

    open spec fn view(&self) -> Result<CommandResult, ClientError> {
        self.result
    }
}

/// A recorded query result.
#[derive(Debug, PartialEq, Eq)]
pub struct QueryOutcome {
    pub result: Result<crate::kv::QueryResult, ClientError>,
}

impl View for QueryOutcome {
    type V = Result<crate::kv::QueryResultView, ClientError>;

    open spec fn view(&self) -> Result<crate::kv::QueryResultView, ClientError> {
        match &self.result {
            Ok(inner) => Ok(inner@),
            Err(error) => Err(*error),
        }
    }
}

/// An outside caller that submits commands and queries through peers,
/// caching the leader it last heard of and retrying on redirects.
pub struct Client {
    id: ClientId,
    cluster: Cluster,
    leader: Option<PeerId>,
    rng: rand::rngs::StdRng,
    request_counter: RequestCounter,
    commands: RequestTable<Command>,
    command_results: RequestTable<CommandOutcome>,
    queries: RequestTable<Query>,
    query_results: RequestTable<QueryOutcome>,
    buffered_client_transmits: VecDeque<ClientTransmit>,
}

impl View for Client {
    type V = ClientView;

    closed spec fn view(&self) -> ClientView {
        ClientView {
            id: self.id,
            cluster: self.cluster@,
            leader: self.leader,
            next_request_id: self.request_counter.spec_next(),
            commands: self.commands@,
            command_results: self.command_results@,
            queries: self.queries@,
            query_results: self.query_results@,
            outbox: Seq::new(
                self.buffered_client_transmits@.len(),
                |i: int| self.buffered_client_transmits@[i]@,
            ),
        }
    }
}

impl Client {
    /// Creates a new client against the given cluster.
    pub fn new(id: ClientId, cluster: Cluster) -> (r: Client)
        ensures
            r@.id == id,
            r@.cluster == cluster@,
            r@.leader is None,
            r@.next_request_id == 0,
            r@.commands == Seq::<(RequestId, CommandView)>::empty(),
            r@.command_results == Seq::<(RequestId, Result<CommandResult, ClientError>)>::empty(),
            r@.queries == Seq::<(RequestId, QueryView)>::empty(),
            r@.query_results == Seq::<
                (RequestId, Result<crate::kv::QueryResultView, ClientError>),
            >::empty(),
            r@.outbox == Seq::<ClientTransmitView>::empty(),
    {
        let r = Client {
            id,
            cluster,
            leader: None,
            rng: new_rng(),
            request_counter: RequestCounter::new(),
            commands: RequestTable::new(),
            command_results: RequestTable::new(),
            queries: RequestTable::new(),
            query_results: RequestTable::new(),
            buffered_client_transmits: VecDeque::new(),
        };
        proof {
            assert(r@.outbox =~= Seq::<ClientTransmitView>::empty());
        }
        r
    }

    /// Gets the identifier of the client.
    pub fn id(&self) -> (r: ClientId)
        ensures
            r == self@.id,
    {
        self.id
    }

    /// The value the client's request counter will hand out next.
    pub fn next_request_id(&self) -> (r: usize)
        ensures
            r == self@.next_request_id,
    {
        self.request_counter.peek()
    }

    /// Gets the result recorded for a command request, if any.
    pub fn command_result(&self, request_id: RequestId) -> (r: Option<
        &Result<CommandResult, ClientError>,
    >)
        ensures
            match r {
                Some(result) => assoc_find(self@.command_results, request_id) >= 0 && *result
                    == self@.command_results[assoc_find(self@.command_results, request_id)].1,
                None => assoc_find(self@.command_results, request_id) == -1,
            },
    {
        match self.command_results.get(request_id) {
            Some(outcome) => Some(&outcome.result),
            None => None,
        }
    }

    /// Gets the buffered outbound transmits of the client.
    pub fn buffered_client_transmits(&self) -> (r: &VecDeque<ClientTransmit>)
        ensures
            Seq::new(r@.len(), |i: int| r@[i]@) == self@.outbox,
    {
        &self.buffered_client_transmits
    }

    /// Picks the target peer: an explicit override, else the cached leader,
    /// else a uniformly random member of the cluster.
    fn pick_target(&mut self, peer_id: Option<PeerId>) -> (r: Option<PeerId>)
        ensures
            final(self)@ == old(self)@,
            match r {
                Some(target) => (match peer_id {
                    Some(given) => target == given,
                    None => match old(self)@.leader {
                        Some(leader) => target == leader,
                        None => old(self)@.cluster.contains(target),
                    },
                }),
                None => peer_id is None && old(self)@.leader is None && old(self)@.cluster.len()
                    == 0,
            },
    {
        match peer_id {
            Some(given) => Some(given),
            None => match self.leader {
                Some(leader) => Some(leader),
                None => {
                    if self.cluster.len() == 0 {
                        None
                    } else {
                        let position = random_below(&mut self.rng, self.cluster.len());
                        let target = self.cluster.member(position);
                        proof {
                            assert(old(self)@.cluster[position as int] == target);
                        }
                        Some(target)
                    }
                },
            },
        }
    }

    /// Submits a command to the cluster: allocates a fresh request id,
    /// records the pending command, and enqueues a request to the chosen
    /// peer. With no override, no cached leader and an empty cluster the
    /// submission fails, though the id is already spent.
    pub fn command(&mut self, command: Command, peer_id: Option<PeerId>) -> (r: Result<
        RequestId,
        ClientError,
    >)
        requires
            old(self)@.next_request_id < usize::MAX,
        ensures
            match r {
                Ok(request_id) => {
                    &&& request_id == RequestId(old(self)@.next_request_id)
                    &&& final(self)@.outbox.len() == old(self)@.outbox.len() + 1
                    &&& {
                        let target = final(self)@.outbox.last().peer_id;
                        &&& final(self)@ == (ClientView {
                            next_request_id: (old(self)@.next_request_id + 1) as usize,
                            commands: assoc_set(old(self)@.commands, request_id, command@),
                            outbox: old(self)@.outbox.push(
                                ClientTransmitView {
                                    client_id: old(self)@.id,
                                    peer_id: target,
                                    request_id,
                                    message: ClientMessageView::CommandRequest(
                                        crate::message::CommandRequestView { command: command@ },
                                    ),
                                },
                            ),
                            ..old(self)@
                        })
                        &&& (match peer_id {
                            Some(given) => target == given,
                            None => match old(self)@.leader {
                                Some(leader) => target == leader,
                                None => old(self)@.cluster.contains(target),
                            },
                        })
                    }
                },
                Err(error) => error == ClientError::EmptyCluster && peer_id is None && old(
                    self,
                )@.leader is None && old(self)@.cluster.len() == 0 && final(self)@ == (ClientView {
                    next_request_id: (old(self)@.next_request_id + 1) as usize,
                    ..old(self)@
                }),
            },
    {
        let request_id = RequestId(self.request_counter.next());
        let target = match self.pick_target(peer_id) {
            Some(target) => target,
            None => {
                proof {
                    assert(self@ =~~= (ClientView {
                        next_request_id: (old(self)@.next_request_id + 1) as usize,
                        ..old(self)@
                    }));
                }
                return Err(ClientError::EmptyCluster);
            },
        };
        self.commands.insert(request_id, command.clone());
        let request = CommandRequest::new(command);
        let transmit = ClientTransmit::new(
            self.id,
            target,
            request_id,
            ClientMessage::CommandRequest(request),
        );
        let ghost outbox_before = Seq::new(
            self.buffered_client_transmits@.len(),
            |i: int| self.buffered_client_transmits@[i]@,
        );
        self.buffered_client_transmits.push_back(transmit);
        proof {
            assert(Seq::new(
                self.buffered_client_transmits@.len(),
                |i: int| self.buffered_client_transmits@[i]@,
            ) =~= outbox_before.push(transmit@));
            assert(self@ =~~= (ClientView {
                next_request_id: (old(self)@.next_request_id + 1) as usize,
                commands: assoc_set(old(self)@.commands, request_id, transmit@.message->CommandRequest_0.command),
                outbox: old(self)@.outbox.push(transmit@),
                ..old(self)@
            }));
        }
        Ok(request_id)
    }

    /// Submits a query to the cluster, like [`Client::command`].
    pub fn query(&mut self, query: Query, peer_id: Option<PeerId>) -> (r: Result<
        RequestId,
        ClientError,
    >)
        requires
            old(self)@.next_request_id < usize::MAX,
        ensures
            match r {
                Ok(request_id) => {
                    &&& request_id == RequestId(old(self)@.next_request_id)
                    &&& final(self)@.outbox.len() == old(self)@.outbox.len() + 1
                    &&& {
                        let target = final(self)@.outbox.last().peer_id;
                        &&& final(self)@ == (ClientView {
                            next_request_id: (old(self)@.next_request_id + 1) as usize,
                            queries: assoc_set(old(self)@.queries, request_id, query@),
                            outbox: old(self)@.outbox.push(
                                ClientTransmitView {
                                    client_id: old(self)@.id,
                                    peer_id: target,
                                    request_id,
                                    message: ClientMessageView::QueryRequest(
                                        crate::message::QueryRequestView { query: query@ },
                                    ),
                                },
                            ),
                            ..old(self)@
                        })
                        &&& (match peer_id {
                            Some(given) => target == given,
                            None => match old(self)@.leader {
                                Some(leader) => target == leader,
                                None => old(self)@.cluster.contains(target),
                            },
                        })
                    }
                },
                Err(error) => error == ClientError::EmptyCluster && peer_id is None && old(
                    self,
                )@.leader is None && old(self)@.cluster.len() == 0 && final(self)@ == (ClientView {
                    next_request_id: (old(self)@.next_request_id + 1) as usize,
                    ..old(self)@
                }),
            },
    {
        let request_id = RequestId(self.request_counter.next());
        let target = match self.pick_target(peer_id) {
            Some(target) => target,
            None => {
                proof {
                    assert(self@ =~~= (ClientView {
                        next_request_id: (old(self)@.next_request_id + 1) as usize,
                        ..old(self)@
                    }));
                }
                return Err(ClientError::EmptyCluster);
            },
        };
        self.queries.insert(request_id, query.clone());
        let request = QueryRequest::new(query);
        let transmit = ClientTransmit::new(
            self.id,
            target,
            request_id,
            ClientMessage::QueryRequest(request),
        );
        let ghost outbox_before = Seq::new(
            self.buffered_client_transmits@.len(),
            |i: int| self.buffered_client_transmits@[i]@,
        );
        self.buffered_client_transmits.push_back(transmit);
        proof {
            assert(Seq::new(
                self.buffered_client_transmits@.len(),
                |i: int| self.buffered_client_transmits@[i]@,
            ) =~= outbox_before.push(transmit@));
            assert(self@ =~~= (ClientView {
                next_request_id: (old(self)@.next_request_id + 1) as usize,
                queries: assoc_set(old(self)@.queries, request_id, transmit@.message->QueryRequest_0.query),
                outbox: old(self)@.outbox.push(transmit@),
                ..old(self)@
            }));
        }
        Ok(request_id)
    }
}

/// The client after receiving one reply from a peer. A result finalizes the
/// pending request; a leader redirect re-sends the still-pending request to
/// the new leader under the same id; transient errors leave it pending; a
/// request arriving at a client is a protocol violation and is dropped.
pub open spec fn receive_reply_step(
    c: ClientView,
    peer_id: PeerId,
    request_id: RequestId,
    message: ClientMessageView,
) -> ClientView {
    match message {
        ClientMessageView::CommandRequest(_) => c,
        ClientMessageView::QueryRequest(_) => c,
        ClientMessageView::CommandReply(reply) => match reply.result {
            Ok(result) => ClientView {
                commands: assoc_unset(c.commands, request_id),
                command_results: assoc_set(c.command_results, request_id, Ok(result)),
                ..c
            },
            Err(error) => match error {
                ClientError::LeaderChanged { new_leader_id } => {
                    if assoc_find(c.commands, request_id) >= 0 {
                        ClientView {
                            leader: Some(new_leader_id),
                            outbox: c.outbox.push(
                                ClientTransmitView {
                                    client_id: c.id,
                                    peer_id: new_leader_id,
                                    request_id,
                                    message: ClientMessageView::CommandRequest(
                                        crate::message::CommandRequestView {
                                            command: c.commands[assoc_find(
                                                c.commands,
                                                request_id,
                                            )].1,
                                        },
                                    ),
                                },
                            ),
                            ..c
                        }
                    } else {
                        c
                    }
                },
                _ => c,
            },
        },
        ClientMessageView::QueryReply(reply) => match reply.result {
            Ok(result) => ClientView {
                queries: assoc_unset(c.queries, request_id),
                query_results: assoc_set(c.query_results, request_id, Ok(result)),
                ..c
            },
            Err(error) => match error {
                ClientError::LeaderChanged { new_leader_id } => {
                    if assoc_find(c.queries, request_id) >= 0 {
                        ClientView {
                            leader: Some(new_leader_id),
                            outbox: c.outbox.push(
                                ClientTransmitView {
                                    client_id: c.id,
                                    peer_id: new_leader_id,
                                    request_id,
                                    message: ClientMessageView::QueryRequest(
                                        crate::message::QueryRequestView {
                                            query: c.queries[assoc_find(c.queries, request_id)].1,
                                        },
                                    ),
                                },
                            ),
                            ..c
                        }
                    } else {
                        c
                    }
                },
                _ => c,
            },
        },
    }
}

impl Client {
    /// Receives a reply from a peer.
    ///
    /// An `EmptyCluster` error can only be minted by the client itself, so a
    /// reply never carries one; the precondition states it.
    pub fn receive_reply(&mut self, peer_id: PeerId, request_id: RequestId, message: ClientMessage)
        requires
            !(message@ matches ClientMessageView::CommandReply(r) && (r.result matches Err(e)
                && e is EmptyCluster)),
            !(message@ matches ClientMessageView::QueryReply(r) && (r.result matches Err(e)
                && e is EmptyCluster)),
        ensures
            final(self)@ == receive_reply_step(old(self)@, peer_id, request_id, message@),
    {
        match message {
            ClientMessage::CommandRequest(_) | ClientMessage::QueryRequest(_) => {
                proof {
                    assert(self@ =~~= old(self)@);
                }
            },
            ClientMessage::CommandReply(reply) => {
                match reply.result {
                    Ok(result) => {
                        self.commands.remove(request_id);
                        self.command_results.insert(request_id, CommandOutcome { result: Ok(result) });
                        proof {
                            assert(self@ =~~= receive_reply_step(
                                old(self)@,
                                peer_id,
                                request_id,
                                message@,
                            ));
                        }
                    },
                    Err(error) => {
                        match error {
                            ClientError::LeaderChanged { new_leader_id } => {
                                let command = match self.commands.get(request_id) {
                                    Some(command) => command.clone(),
                                    None => {
                                        proof {
                                            assert(self@ =~~= old(self)@);
                                        }
                                        return ;
                                    },
                                };
                                self.leader = Some(new_leader_id);
                                let request = CommandRequest::new(command);
                                let transmit = ClientTransmit::new(
                                    self.id,
                                    new_leader_id,
                                    request_id,
                                    ClientMessage::CommandRequest(request),
                                );
                                let ghost outbox_before = Seq::new(
                                    self.buffered_client_transmits@.len(),
                                    |i: int| self.buffered_client_transmits@[i]@,
                                );
                                self.buffered_client_transmits.push_back(transmit);
                                proof {
                                    assert(Seq::new(
                                        self.buffered_client_transmits@.len(),
                                        |i: int| self.buffered_client_transmits@[i]@,
                                    ) =~= outbox_before.push(transmit@));
                                    assert(self@ =~~= receive_reply_step(
                                        old(self)@,
                                        peer_id,
                                        request_id,
                                        message@,
                                    ));
                                }
                            },
                            _ => {
                                proof {
                                    assert(self@ =~~= old(self)@);
                                }
                            },
                        }
                    },
                }
            },
            ClientMessage::QueryReply(reply) => {
                match reply.result {
                    Ok(result) => {
                        self.queries.remove(request_id);
                        self.query_results.insert(request_id, QueryOutcome { result: Ok(result) });
                        proof {
                            assert(self@ =~~= receive_reply_step(
                                old(self)@,
                                peer_id,
                                request_id,
                                message@,
                            ));
                        }
                    },
                    Err(error) => {
                        match error {
                            ClientError::LeaderChanged { new_leader_id } => {
                                let query = match self.queries.get(request_id) {
                                    Some(query) => query.clone(),
                                    None => {
                                        proof {
                                            assert(self@ =~~= old(self)@);
                                        }
                                        return ;
                                    },
                                };
                                self.leader = Some(new_leader_id);
                                let request = QueryRequest::new(query);
                                let transmit = ClientTransmit::new(
                                    self.id,
                                    new_leader_id,
                                    request_id,
                                    ClientMessage::QueryRequest(request),
                                );
                                let ghost outbox_before = Seq::new(
                                    self.buffered_client_transmits@.len(),
                                    |i: int| self.buffered_client_transmits@[i]@,
                                );
                                self.buffered_client_transmits.push_back(transmit);
                                proof {
                                    assert(Seq::new(
                                        self.buffered_client_transmits@.len(),
                                        |i: int| self.buffered_client_transmits@[i]@,
                                    ) =~= outbox_before.push(transmit@));
                                    assert(self@ =~~= receive_reply_step(
                                        old(self)@,
                                        peer_id,
                                        request_id,
                                        message@,
                                    ));
                                }
                            },
                            _ => {
                                proof {
                                    assert(self@ =~~= old(self)@);
                                }
                            },
                        }
                    },
                }
            },
        }
    }

    /// Overwrites the buffered outbound transmits of the client.
    ///
    /// Meant for test setups; live clients move only through steps.
    pub fn set_buffered_client_transmits(&mut self, new_transmits: VecDeque<ClientTransmit>)
        ensures
            final(self)@ == (ClientView {
                outbox: Seq::new(new_transmits@.len(), |i: int| new_transmits@[i]@),
                ..old(self)@
            }),
    {
        self.buffered_client_transmits = new_transmits;
        proof {
            assert(self@ =~~= (ClientView { outbox: self@.outbox, ..old(self)@ }));
        }
    }

    /// Removes and returns the transmit at a position of the outbound queue.
    pub fn remove_client_transmit(&mut self, position: usize) -> (r: ClientTransmit)
        requires
            position < old(self)@.outbox.len(),
        ensures
            r@ == old(self)@.outbox[position as int],
            final(self)@ == (ClientView {
                outbox: old(self)@.outbox.remove(position as int),
                ..old(self)@
            }),
    {
        let removed = self.buffered_client_transmits.remove(position);
        match removed {
            Some(transmit) => {
                proof {
                    assert(Seq::new(
                        self.buffered_client_transmits@.len(),
                        |i: int| self.buffered_client_transmits@[i]@,
                    ) =~= old(self)@.outbox.remove(position as int));
                    assert(self@ =~~= (ClientView {
                        outbox: old(self)@.outbox.remove(position as int),
                        ..old(self)@
                    }));
                }
                transmit
            },
            None => {
                proof {
                    assert(false);
                }
                vstd::pervasive::unreached()
            },
        }
    }

    /// Gets the position of the first queued request with the given id.
    pub fn position_of_request(&self, request_id: RequestId) -> (r: Option<usize>)
        ensures
            match r {
                Some(position) => position < self@.outbox.len() && client_message_is_request_at(
                    self@.outbox,
                    position as int,
                ) && self@.outbox[position as int].request_id == request_id && forall|j: int|
                    0 <= j < position ==> !(client_message_is_request_at(self@.outbox, j)
                        && (#[trigger] self@.outbox[j]).request_id == request_id),
                None => forall|j: int|
                    0 <= j < self@.outbox.len() ==> !(client_message_is_request_at(self@.outbox, j)
                        && (#[trigger] self@.outbox[j]).request_id == request_id),
            },
    {
        let mut i: usize = 0;
        while i < self.buffered_client_transmits.len()
            invariant
                i <= self.buffered_client_transmits@.len(),
                self@.outbox.len() == self.buffered_client_transmits@.len(),
                forall|j: int|
                    0 <= j < i ==> !(client_message_is_request_at(self@.outbox, j) && (
                    #[trigger] self@.outbox[j]).request_id == request_id),
            decreases self.buffered_client_transmits@.len() - i,
        {
            let transmit = &self.buffered_client_transmits[i];
            if transmit.message().is_request() && transmit.request_id().0 == request_id.0 {
                return Some(i);
            }
            i = i + 1;
        }
        None
    }
}

/// Whether the transmit at a position carries a request.
pub open spec fn client_message_is_request_at(outbox: Seq<ClientTransmitView>, j: int) -> bool {
    crate::message::client_message_is_request(outbox[j].message)
}


/// The client after it records and enqueues a command for a chosen target.
pub open spec fn client_after_command(c: ClientView, target: PeerId, command: CommandView)
    -> ClientView {
    ClientView {
        next_request_id: (c.next_request_id + 1) as usize,
        commands: assoc_set(c.commands, RequestId(c.next_request_id), command),
        outbox: c.outbox.push(
            ClientTransmitView {
                client_id: c.id,
                peer_id: target,
                request_id: RequestId(c.next_request_id),
                message: ClientMessageView::CommandRequest(
                    crate::message::CommandRequestView { command },
                ),
            },
        ),
        ..c
    }
}

/// The client after it records and enqueues a query for a chosen target.
pub open spec fn client_after_query(c: ClientView, target: PeerId, query: QueryView)
    -> ClientView {
    ClientView {
        next_request_id: (c.next_request_id + 1) as usize,
        queries: assoc_set(c.queries, RequestId(c.next_request_id), query),
        outbox: c.outbox.push(
            ClientTransmitView {
                client_id: c.id,
                peer_id: target,
                request_id: RequestId(c.next_request_id),
                message: ClientMessageView::QueryRequest(
                    crate::message::QueryRequestView { query },
                ),
            },
        ),
        ..c
    }
}

/// Whether a submission's target is the one the client must pick: the
/// explicit override, else the cached leader, else any cluster member.
pub open spec fn send_target_ok(c: ClientView, peer_id: Option<PeerId>, target: PeerId) -> bool {
    match peer_id {
        Some(given) => target == given,
        None => match c.leader {
            Some(leader) => target == leader,
            None => c.cluster.contains(target),
        },
    }
}

} // verus!
