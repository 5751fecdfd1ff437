//! Follower, candidate and leader state.

use vstd::prelude::*;

use crate::message::{AppendEntriesRequest, AppendEntriesRequestView};
use crate::primitives::{LogIndex, PeerId, RequestId};

verus! {

/// State of a follower.
#[derive(Clone, Copy, PartialEq, Eq, Debug)]
pub struct FollowerState {
    pub leader_id: Option<PeerId>,
}

impl FollowerState {
    /// Creates a follower state.
    pub fn new(leader_id: Option<PeerId>) -> (r: FollowerState)
        ensures
            r == (FollowerState { leader_id }),
    {
        FollowerState { leader_id }
    }

    /// Gets the leader this follower knows of, if any.
    pub fn leader_id(&self) -> (r: Option<PeerId>)
        ensures
            r == self.leader_id,
    {
        self.leader_id
    }
}

impl Default for FollowerState {
    /// A follower that knows no leader.
    fn default() -> (r: FollowerState)
        ensures
            r == (FollowerState { leader_id: None }),
    {
        FollowerState { leader_id: None }
    }
}

/// State of a candidate.
#[derive(Debug, PartialEq, Eq)]
pub struct CandidateState {
    pub votes_granted: usize,
    pub vote_request_ids: Vec<RequestId>,
}

/// Mathematical image of a [`CandidateState`].
#[verifier::ext_equal]
pub ghost struct CandidateStateView {
    pub votes_granted: usize,
    pub vote_request_ids: Seq<RequestId>,
}

impl View for CandidateState {
    type V = CandidateStateView;

    open spec fn view(&self) -> CandidateStateView {
        CandidateStateView {
            votes_granted: self.votes_granted,
            vote_request_ids: self.vote_request_ids@,
        }
    }
}

/// Position of the first occurrence of a request id, or `-1` if absent.
pub open spec fn request_id_find(ids: Seq<RequestId>, id: RequestId) -> int
    decreases ids.len(),
{
    if ids.len() == 0 {
        -1
    } else if ids[0] == id {
        0
    } else {
        let r = request_id_find(ids.drop_first(), id);
        if r < 0 {
            -1
        } else {
            r + 1
        }
    }
}

/// What `request_id_find` returns: the first matching position, or `-1` when none matches.
pub proof fn lemma_request_id_find(ids: Seq<RequestId>, id: RequestId)
    ensures
        request_id_find(ids, id) == -1 ==> forall|j: int|
            0 <= j < ids.len() ==> (#[trigger] ids[j]) != id,
        request_id_find(ids, id) != -1 ==> 0 <= request_id_find(ids, id) < ids.len() && ids[
            request_id_find(ids, id)
        ] == id && forall|j: int| 0 <= j < request_id_find(ids, id) ==> (#[trigger] ids[j]) != id,
    decreases ids.len(),
{
    if ids.len() > 0 && ids[0] != id {
        let d = ids.drop_first();
        lemma_request_id_find(d, id);
        if request_id_find(ids, id) == -1 {
            assert forall|j: int| 0 <= j < ids.len() implies (#[trigger] ids[j]) != id by {
                if j >= 1 {
                    assert(ids[j] == d[j - 1]);
                }
            }
        } else {
            let r = request_id_find(ids, id);
            assert(ids[r] == d[r - 1]);
            assert forall|j: int| 0 <= j < r implies (#[trigger] ids[j]) != id by {
                if j >= 1 {
                    assert(ids[j] == d[j - 1]);
                }
            }
        }
    }
}

/// Whether request ids are strictly ascending.
pub open spec fn request_ids_sorted(ids: Seq<RequestId>) -> bool {
    forall|i: int, j: int|
        0 <= i < j < ids.len() ==> (#[trigger] ids[i]).0 < (#[trigger] ids[j]).0
}

impl CandidateState {
    /// Creates a candidate state from ids given in strictly ascending order.
    pub fn new(votes_granted: usize, vote_request_ids: Vec<RequestId>) -> (r: CandidateState)
        requires
            request_ids_sorted(vote_request_ids@),
        ensures
            r@ == (CandidateStateView { votes_granted, vote_request_ids: vote_request_ids@ }),
    {
        CandidateState { votes_granted, vote_request_ids }
    }

    /// Gets the number of votes granted in this term.
    pub fn votes_granted(&self) -> (r: usize)
        ensures
            r == self@.votes_granted,
    {
        self.votes_granted
    }

    /// Gets the outstanding vote request ids for this term.
    pub fn vote_request_ids(&self) -> (r: &Vec<RequestId>)
        ensures
            r@ == self@.vote_request_ids,
    {
        &self.vote_request_ids
    }

    /// Whether the given request id is still outstanding.
    pub fn contains(&self, request_id: RequestId) -> (r: bool)
        ensures
            r == self@.vote_request_ids.contains(request_id),
    {
        let mut i: usize = 0;
        while i < self.vote_request_ids.len()
            invariant
                i <= self.vote_request_ids@.len(),
                forall|j: int| 0 <= j < i ==> self.vote_request_ids@[j] != request_id,
            decreases self.vote_request_ids@.len() - i,
        {
            if self.vote_request_ids[i].0 == request_id.0 {
                assert(self@.vote_request_ids[i as int] == request_id);
                return true;
            }
            i = i + 1;
        }
        assert(forall|j: int|
            0 <= j < self@.vote_request_ids.len() ==> self@.vote_request_ids[j] != request_id);
        false
    }

    /// Removes the request id if outstanding and counts its granted vote.
    pub fn grant_vote(&mut self, request_id: RequestId)
        requires
            old(self)@.votes_granted < usize::MAX,
        ensures
            ({ let found = request_id_find(old(self)@.vote_request_ids, request_id);
                if found >= 0 {
                    final(self)@.vote_request_ids == old(self)@.vote_request_ids.remove(found)
                        && final(self)@.votes_granted == old(self)@.votes_granted + 1
                } else {
                    final(self)@ == old(self)@
                }
            }),
    {
        proof {
            lemma_request_id_find(self@.vote_request_ids, request_id);
        }
        let ghost found = request_id_find(old(self)@.vote_request_ids, request_id);
        let mut i: usize = 0;
        while i < self.vote_request_ids.len()
            invariant
                i <= self.vote_request_ids@.len(),
                forall|j: int| 0 <= j < i ==> self.vote_request_ids@[j] != request_id,
                *self == *old(self),
                self.votes_granted < usize::MAX,
                found == request_id_find(old(self)@.vote_request_ids, request_id),
                found == -1 ==> forall|j: int|
                    0 <= j < old(self)@.vote_request_ids.len() ==> (#[trigger] old(self)@.vote_request_ids[j]) != request_id,
                found != -1 ==> 0 <= found < old(self)@.vote_request_ids.len()
                    && old(self)@.vote_request_ids[found] == request_id && forall|j: int|
                    0 <= j < found ==> (#[trigger] old(self)@.vote_request_ids[j]) != request_id,
            decreases self.vote_request_ids@.len() - i,
        {
            if self.vote_request_ids[i].0 == request_id.0 {
                proof {
                    assert(old(self)@.vote_request_ids[i as int] == request_id);
                    if found == -1 {
                        assert(old(self)@.vote_request_ids[i as int] != request_id);
                    } else if found < i as int {
                        assert(old(self)@.vote_request_ids[found] != request_id);
                    } else if found > i as int {
                        assert(old(self)@.vote_request_ids[i as int] != request_id);
                    }
                }
                self.vote_request_ids.remove(i);
                self.votes_granted = self.votes_granted + 1;
                return ;
            }
            i = i + 1;
        }
    }
}

impl Clone for CandidateState {
    /// Clones the candidate state; the copy has the same view.
    fn clone(&self) -> (r: CandidateState)
        ensures
            r@ == self@,
    {
        let mut ids: Vec<RequestId> = Vec::new();
        let mut i: usize = 0;
        while i < self.vote_request_ids.len()
            invariant
                i <= self.vote_request_ids@.len(),
                ids@ == self.vote_request_ids@.take(i as int),
            decreases self.vote_request_ids@.len() - i,
        {
            ids.push(self.vote_request_ids[i]);
            proof {
                assert(self.vote_request_ids@.take(i + 1) =~= self.vote_request_ids@.take(
                    i as int,
                ).push(self.vote_request_ids@[i as int]));
            }
            i = i + 1;
        }
        proof {
            assert(self.vote_request_ids@.take(self.vote_request_ids@.len() as int)
                =~= self.vote_request_ids@);
        }
        CandidateState { votes_granted: self.votes_granted, vote_request_ids: ids }
    }
}

/// Map from peer id to log index, kept sorted by peer id.
#[derive(Debug, PartialEq, Eq)]
pub struct IndexMap {
    pairs: Vec<(PeerId, LogIndex)>,
}

/// Whether pair keys are strictly ascending.
pub open spec fn peer_keys_sorted(pairs: Seq<(PeerId, LogIndex)>) -> bool {
    forall|i: int, j: int|
        0 <= i < j < pairs.len() ==> (#[trigger] pairs[i]).0.0 < (#[trigger] pairs[j]).0.0
}

/// Position of the first pair with the given key, or `-1` if absent.
pub open spec fn peer_key_find(pairs: Seq<(PeerId, LogIndex)>, key: PeerId) -> int
    decreases pairs.len(),
{
    if pairs.len() == 0 {
        -1
    } else if pairs[0].0 == key {
        0
    } else {
        let r = peer_key_find(pairs.drop_first(), key);
        if r < 0 {
            -1
        } else {
            r + 1
        }
    }
}

/// What `peer_key_find` returns: the first matching position, or `-1` when none matches.
pub proof fn lemma_peer_key_find(pairs: Seq<(PeerId, LogIndex)>, key: PeerId)
    ensures
        peer_key_find(pairs, key) == -1 ==> forall|j: int|
            0 <= j < pairs.len() ==> (#[trigger] pairs[j]).0 != key,
        peer_key_find(pairs, key) != -1 ==> 0 <= peer_key_find(pairs, key) < pairs.len()
            && pairs[peer_key_find(pairs, key)].0 == key && forall|j: int|
            0 <= j < peer_key_find(pairs, key) ==> (#[trigger] pairs[j]).0 != key,
    decreases pairs.len(),
{
    if pairs.len() > 0 && pairs[0].0 != key {
        let d = pairs.drop_first();
        lemma_peer_key_find(d, key);
        if peer_key_find(pairs, key) == -1 {
            assert forall|j: int| 0 <= j < pairs.len() implies (#[trigger] pairs[j]).0 != key by {
                if j >= 1 {
                    assert(pairs[j] == d[j - 1]);
                }
            }
        } else {
            let r = peer_key_find(pairs, key);
            assert(pairs[r] == d[r - 1]);
            assert forall|j: int| 0 <= j < r implies (#[trigger] pairs[j]).0 != key by {
                if j >= 1 {
                    assert(pairs[j] == d[j - 1]);
                }
            }
        }
    }
}

impl View for IndexMap {
    type V = Seq<(PeerId, LogIndex)>;

    closed spec fn view(&self) -> Seq<(PeerId, LogIndex)> {
        self.pairs@
    }
}

impl IndexMap {
    /// Creates an empty map.
    pub fn new() -> (r: IndexMap)
        ensures
            r@ == Seq::<(PeerId, LogIndex)>::empty(),
    {
        IndexMap { pairs: Vec::new() }
    }

    /// Builds a map from pairs given with strictly ascending keys.
    pub fn from_pairs(pairs: Vec<(PeerId, LogIndex)>) -> (r: IndexMap)
        requires
            peer_keys_sorted(pairs@),
        ensures
            r@ == pairs@,
    {
        IndexMap { pairs }
    }

    /// Gets the number of pairs.
    pub fn len(&self) -> (r: usize)
        ensures
            r == self@.len(),
    {
        self.pairs.len()
    }

    /// Gets the pair at a position, in ascending key order.
    pub fn at(&self, position: usize) -> (r: (PeerId, LogIndex))
        requires
            position < self@.len(),
        ensures
            r == self@[position as int],
    {
        self.pairs[position]
    }

    /// Appends a pair whose key is greater than every present key.
    pub fn push_entry(&mut self, key: PeerId, value: LogIndex)
        requires
            forall|j: int| 0 <= j < old(self)@.len() ==> (#[trigger] old(self)@[j]).0.0 < key.0,
        ensures
            final(self)@ == old(self)@.push((key, value)),
    {
        self.pairs.push((key, value));
    }

    /// Gets the value recorded for a key, if any.
    pub fn get(&self, key: PeerId) -> (r: Option<LogIndex>)
        ensures
            match r {
                Some(value) => peer_key_find(self@, key) >= 0 && value == self@[peer_key_find(
                    self@,
                    key,
                )].1,
                None => peer_key_find(self@, key) == -1,
            },
    {
        match self.position_of(key) {
            Some(position) => Some(self.pairs[position].1),
            None => None,
        }
    }

    /// Gets the position of the pair with the given key, if present.
    pub fn position_of(&self, key: PeerId) -> (r: Option<usize>)
        ensures
            match r {
                Some(position) => position == peer_key_find(self@, key) && position < self@.len(),
                None => peer_key_find(self@, key) == -1,
            },
    {
        proof {
            lemma_peer_key_find(self@, key);
        }
        let mut i: usize = 0;
        while i < self.pairs.len()
            invariant
                i <= self.pairs@.len(),
                forall|j: int| 0 <= j < i ==> (#[trigger] self.pairs@[j]).0 != key,
                peer_key_find(self@, key) == -1 ==> forall|j: int|
                    0 <= j < self@.len() ==> (#[trigger] self@[j]).0 != key,
                peer_key_find(self@, key) != -1 ==> 0 <= peer_key_find(self@, key) < self@.len()
                    && self@[peer_key_find(self@, key)].0 == key && forall|j: int|
                    0 <= j < peer_key_find(self@, key) ==> (#[trigger] self@[j]).0 != key,
            decreases self.pairs@.len() - i,
        {
            if self.pairs[i].0.0 == key.0 {
                proof {
                    assert(self@[i as int].0 == key);
                    let r = peer_key_find(self@, key);
                    if r == -1 {
                        assert(self@[i as int].0 != key);
                    } else if r < i as int {
                        assert(self@[r].0 != key);
                    } else if r > i as int {
                        assert(self@[i as int].0 != key);
                    }
                }
                return Some(i);
            }
            i = i + 1;
        }
        None
    }

    /// Overwrites the value of a present key; does nothing when the key is absent.
    pub fn update_existing(&mut self, key: PeerId, value: LogIndex)
        ensures
            peer_key_find(old(self)@, key) >= 0 ==> final(self)@ == old(self)@.update(
                peer_key_find(old(self)@, key),
                (key, value),
            ),
            peer_key_find(old(self)@, key) == -1 ==> final(self)@ == old(self)@,
    {
        match self.position_of(key) {
            Some(position) => {
                self.pairs.set(position, (key, value));
            },
            None => {},
        }
    }

    /// Structural equality of two maps.
    pub fn deep_eq(&self, other: &IndexMap) -> (r: bool)
        ensures
            r == (self@ == other@),
    {
        if self.pairs.len() != other.pairs.len() {
            return false;
        }
        let mut i: usize = 0;
        while i < self.pairs.len()
            invariant
                i <= self.pairs@.len(),
                self.pairs@.len() == other.pairs@.len(),
                forall|j: int| 0 <= j < i ==> self.pairs@[j] == other.pairs@[j],
            decreases self.pairs@.len() - i,
        {
            let a = self.pairs[i];
            let b = other.pairs[i];
            if a.0.0 != b.0.0 || a.1.0 != b.1.0 {
                proof {
                    if self@ == other@ {
                        assert(self@[i as int] == other@[i as int]);
                    }
                }
                return false;
            }
            i = i + 1;
        }
        proof {
            assert(self@ =~= other@);
        }
        true
    }
}

impl Clone for IndexMap {
    /// Clones the map; the copy has the same view.
    fn clone(&self) -> (r: IndexMap)
        ensures
            r@ == self@,
    {
        let mut pairs: Vec<(PeerId, LogIndex)> = Vec::new();
        let mut i: usize = 0;
        while i < self.pairs.len()
            invariant
                i <= self.pairs@.len(),
                pairs@ == self.pairs@.take(i as int),
            decreases self.pairs@.len() - i,
        {
            pairs.push(self.pairs[i]);
            proof {
                assert(self.pairs@.take(i + 1) =~= self.pairs@.take(i as int).push(
                    self.pairs@[i as int],
                ));
            }
            i = i + 1;
        }
        proof {
            assert(self.pairs@.take(self.pairs@.len() as int) =~= self.pairs@);
        }
        IndexMap { pairs }
    }
}

/// Map from request id to the recorded replication request, kept sorted by id.
#[derive(Debug, PartialEq, Eq)]
pub struct RequestMap {
    pairs: Vec<(RequestId, AppendEntriesRequest)>,
}

/// Position of the first pair with the given request id, or `-1` if absent.
pub open spec fn request_key_find(
    pairs: Seq<(RequestId, AppendEntriesRequestView)>,
    key: RequestId,
) -> int
    decreases pairs.len(),
{
    if pairs.len() == 0 {
        -1
    } else if pairs[0].0 == key {
        0
    } else {
        let r = request_key_find(pairs.drop_first(), key);
        if r < 0 {
            -1
        } else {
            r + 1
        }
    }
}

/// What `request_key_find` returns: the first matching position, or `-1` when none matches.
pub proof fn lemma_request_key_find(
    pairs: Seq<(RequestId, AppendEntriesRequestView)>,
    key: RequestId,
)
    ensures
        request_key_find(pairs, key) == -1 ==> forall|j: int|
            0 <= j < pairs.len() ==> (#[trigger] pairs[j]).0 != key,
        request_key_find(pairs, key) != -1 ==> 0 <= request_key_find(pairs, key) < pairs.len()
            && pairs[request_key_find(pairs, key)].0 == key && forall|j: int|
            0 <= j < request_key_find(pairs, key) ==> (#[trigger] pairs[j]).0 != key,
    decreases pairs.len(),
{
    if pairs.len() > 0 && pairs[0].0 != key {
        let d = pairs.drop_first();
        lemma_request_key_find(d, key);
        if request_key_find(pairs, key) == -1 {
            assert forall|j: int| 0 <= j < pairs.len() implies (#[trigger] pairs[j]).0 != key by {
                if j >= 1 {
                    assert(pairs[j] == d[j - 1]);
                }
            }
        } else {
            let r = request_key_find(pairs, key);
            assert(pairs[r] == d[r - 1]);
            assert forall|j: int| 0 <= j < r implies (#[trigger] pairs[j]).0 != key by {
                if j >= 1 {
                    assert(pairs[j] == d[j - 1]);
                }
            }
        }
    }
}

impl View for RequestMap {
    type V = Seq<(RequestId, AppendEntriesRequestView)>;

    closed spec fn view(&self) -> Seq<(RequestId, AppendEntriesRequestView)> {
        Seq::new(self.pairs@.len(), |i: int| (self.pairs@[i].0, self.pairs@[i].1@))
    }
}

impl RequestMap {
    /// Creates an empty map.
    pub fn new() -> (r: RequestMap)
        ensures
            r@ == Seq::<(RequestId, AppendEntriesRequestView)>::empty(),
    {
        let r = RequestMap { pairs: Vec::new() };
        proof {
            assert(r@ =~= Seq::<(RequestId, AppendEntriesRequestView)>::empty());
        }
        r
    }

    /// Gets the number of pairs.
    pub fn len(&self) -> (r: usize)
        ensures
            r == self@.len(),
    {
        self.pairs.len()
    }

    /// Gets the pair at a position, in ascending id order.
    pub fn at(&self, position: usize) -> (r: (RequestId, &AppendEntriesRequest))
        requires
            position < self@.len(),
        ensures
            r.0 == self@[position as int].0,
            r.1@ == self@[position as int].1,
    {
        (self.pairs[position].0, &self.pairs[position].1)
    }

    /// Appends a pair whose id is greater than every present id.
    pub fn push_entry(&mut self, key: RequestId, request: AppendEntriesRequest)
        requires
            forall|j: int| 0 <= j < old(self)@.len() ==> (#[trigger] old(self)@[j]).0.0 < key.0,
        ensures
            final(self)@ == old(self)@.push((key, request@)),
    {
        self.pairs.push((key, request));
        proof {
            assert(self@ =~= old(self)@.push((key, self.pairs@[self.pairs@.len() - 1].1@)));
        }
    }

    /// Gets the request recorded under the given id, if any.
    pub fn get(&self, key: RequestId) -> (r: Option<&AppendEntriesRequest>)
        ensures
            match r {
                Some(request) => request_key_find(self@, key) >= 0 && request@ == self@[
                    request_key_find(self@, key)
                ].1,
                None => request_key_find(self@, key) == -1,
            },
    {
        proof {
            lemma_request_key_find(self@, key);
        }
        let mut i: usize = 0;
        while i < self.pairs.len()
            invariant
                i <= self.pairs@.len(),
                self@.len() == self.pairs@.len(),
                forall|j: int| 0 <= j < i ==> (#[trigger] self@[j]).0 != key,
                request_key_find(self@, key) == -1 ==> forall|j: int|
                    0 <= j < self@.len() ==> (#[trigger] self@[j]).0 != key,
                request_key_find(self@, key) != -1 ==> 0 <= request_key_find(self@, key)
                    < self@.len() && self@[request_key_find(self@, key)].0 == key && forall|j: int|
                    0 <= j < request_key_find(self@, key) ==> (#[trigger] self@[j]).0 != key,
            decreases self.pairs@.len() - i,
        {
            if self.pairs[i].0.0 == key.0 {
                proof {
                    assert(self@[i as int].0 == key);
                    let r = request_key_find(self@, key);
                    if r == -1 {
                        assert(self@[i as int].0 != key);
                    } else if r < i as int {
                        assert(self@[r].0 != key);
                    } else if r > i as int {
                        assert(self@[i as int].0 != key);
                    }
                }
                return Some(&self.pairs[i].1);
            }
            i = i + 1;
        }
        None
    }

    /// Removes the pair with the given id and returns its request, if present.
    pub fn remove(&mut self, key: RequestId) -> (r: Option<AppendEntriesRequest>)
        ensures
            match r {
                Some(request) => {
                    let position = request_key_find(old(self)@, key);
                    position >= 0 && request@ == old(self)@[position].1 && final(self)@ == old(
                        self,
                    )@.remove(position)
                },
                None => request_key_find(old(self)@, key) == -1 && final(self)@ == old(self)@,
            },
    {
        proof {
            lemma_request_key_find(self@, key);
        }
        let mut i: usize = 0;
        while i < self.pairs.len()
            invariant
                i <= self.pairs@.len(),
                *self == *old(self),
                self@.len() == self.pairs@.len(),
                forall|j: int| 0 <= j < i ==> (#[trigger] self@[j]).0 != key,
                request_key_find(self@, key) == -1 ==> forall|j: int|
                    0 <= j < self@.len() ==> (#[trigger] self@[j]).0 != key,
                request_key_find(self@, key) != -1 ==> 0 <= request_key_find(self@, key)
                    < self@.len() && self@[request_key_find(self@, key)].0 == key && forall|j: int|
                    0 <= j < request_key_find(self@, key) ==> (#[trigger] self@[j]).0 != key,
            decreases self.pairs@.len() - i,
        {
            if self.pairs[i].0.0 == key.0 {
                proof {
                    assert(self@[i as int].0 == key);
                    let r = request_key_find(self@, key);
                    if r == -1 {
                        assert(self@[i as int].0 != key);
                    } else if r < i as int {
                        assert(self@[r].0 != key);
                    } else if r > i as int {
                        assert(self@[i as int].0 != key);
                    }
                }
                let pair = self.pairs.remove(i);
                proof {
                    assert(self@ =~= old(self)@.remove(i as int));
                }
                return Some(pair.1);
            }
            i = i + 1;
        }
        None
    }

    /// Structural equality of two maps.
    pub fn deep_eq(&self, other: &RequestMap) -> (r: bool)
        ensures
            r == (self@ == other@),
    {
        if self.pairs.len() != other.pairs.len() {
            proof {
                assert(self@.len() != other@.len());
            }
            return false;
        }
        let mut i: usize = 0;
        while i < self.pairs.len()
            invariant
                i <= self.pairs@.len(),
                self.pairs@.len() == other.pairs@.len(),
                self@.len() == self.pairs@.len(),
                other@.len() == other.pairs@.len(),
                forall|j: int| 0 <= j < i ==> #[trigger] self@[j] == other@[j],
            decreases self.pairs@.len() - i,
        {
            if self.pairs[i].0.0 != other.pairs[i].0.0 || !self.pairs[i].1.deep_eq(
                &other.pairs[i].1,
            ) {
                proof {
                    assert(self@[i as int] != other@[i as int]);
                    if self@ == other@ {
                        assert(self@[i as int] == other@[i as int]);
                    }
                }
                return false;
            }
            proof {
                assert(self@[i as int] == other@[i as int]);
            }
            i = i + 1;
        }
        proof {
            assert(self@ =~= other@);
        }
        true
    }
}

impl Clone for RequestMap {
    /// Clones the map; the copy has the same view.
    fn clone(&self) -> (r: RequestMap)
        ensures
            r@ == self@,
    {
        let mut pairs: Vec<(RequestId, AppendEntriesRequest)> = Vec::new();
        let mut i: usize = 0;
        while i < self.pairs.len()
            invariant
                i <= self.pairs@.len(),
                pairs@.len() == i,
                self@.len() == self.pairs@.len(),
                forall|j: int|
                    0 <= j < i ==> (#[trigger] pairs@[j]).0 == self@[j].0 && pairs@[j].1@
                        == self@[j].1,
            decreases self.pairs@.len() - i,
        {
            pairs.push((self.pairs[i].0, self.pairs[i].1.clone()));
            i = i + 1;
        }
        let r = RequestMap { pairs };
        proof {
            assert(r@ =~= self@);
        }
        r
    }
}

/// State of a leader.
#[derive(Debug, PartialEq, Eq)]
pub struct LeaderState {
    pub next_index: IndexMap,
    pub match_index: IndexMap,
    pub append_entries_requests: RequestMap,
}

/// Mathematical image of a [`LeaderState`].
#[verifier::ext_equal]
pub ghost struct LeaderStateView {
    pub next_index: Seq<(PeerId, LogIndex)>,
    pub match_index: Seq<(PeerId, LogIndex)>,
    pub append_entries_requests: Seq<(RequestId, AppendEntriesRequestView)>,
}

impl View for LeaderState {
    type V = LeaderStateView;

    open spec fn view(&self) -> LeaderStateView {
        LeaderStateView {
            next_index: self.next_index@,
            match_index: self.match_index@,
            append_entries_requests: self.append_entries_requests@,
        }
    }
}

impl LeaderState {
    /// Creates a leader state.
    pub fn new(next_index: IndexMap, match_index: IndexMap, append_entries_requests: RequestMap)
        -> (r: LeaderState)
        ensures
            r@ == (LeaderStateView {
                next_index: next_index@,
                match_index: match_index@,
                append_entries_requests: append_entries_requests@,
            }),
    {
        LeaderState { next_index, match_index, append_entries_requests }
    }

    /// Gets the next index map of the leader.
    pub fn next_index(&self) -> (r: &IndexMap)
        ensures
            r@ == self@.next_index,
    {
        &self.next_index
    }

    /// Gets the match index map of the leader.
    pub fn match_index(&self) -> (r: &IndexMap)
        ensures
            r@ == self@.match_index,
    {
        &self.match_index
    }

    /// Gets the outstanding replication requests of the leader.
    pub fn append_entries_requests(&self) -> (r: &RequestMap)
        ensures
            r@ == self@.append_entries_requests,
    {
        &self.append_entries_requests
    }

    /// Structural equality of two leader states.
    pub fn deep_eq(&self, other: &LeaderState) -> (r: bool)
        ensures
            r == (self@ == other@),
    {
        self.next_index.deep_eq(&other.next_index) && self.match_index.deep_eq(&other.match_index)
            && self.append_entries_requests.deep_eq(&other.append_entries_requests)
    }
}

impl Clone for LeaderState {
    /// Clones the leader state; the copy has the same view.
    fn clone(&self) -> (r: LeaderState)
        ensures
            r@ == self@,
    {
        LeaderState {
            next_index: self.next_index.clone(),
            match_index: self.match_index.clone(),
            append_entries_requests: self.append_entries_requests.clone(),
        }
    }
}

/// Role of a peer.
#[derive(Debug, PartialEq, Eq)]
pub enum Role {
    Follower(FollowerState),
    Candidate(CandidateState),
    Leader(LeaderState),
}

/// Mathematical image of a [`Role`].
#[verifier::ext_equal]
pub ghost enum RoleView {
    Follower(FollowerState),
    Candidate(CandidateStateView),
    Leader(LeaderStateView),
}

impl View for Role {
    type V = RoleView;

    open spec fn view(&self) -> RoleView {
        match self {
            Role::Follower(state) => RoleView::Follower(*state),
            Role::Candidate(state) => RoleView::Candidate(state@),
            Role::Leader(state) => RoleView::Leader(state@),
        }
    }
}

impl Role {
    /// Gets whether the role is a follower.
    pub fn is_follower(&self) -> (r: bool)
        ensures
            r == (self@ is Follower),
    {
        match self {
            Role::Follower(_) => true,
            _ => false,
        }
    }

    /// Gets whether the role is a candidate.
    pub fn is_candidate(&self) -> (r: bool)
        ensures
            r == (self@ is Candidate),
    {
        match self {
            Role::Candidate(_) => true,
            _ => false,
        }
    }

    /// Gets whether the role is a leader.
    pub fn is_leader(&self) -> (r: bool)
        ensures
            r == (self@ is Leader),
    {
        match self {
            Role::Leader(_) => true,
            _ => false,
        }
    }

    /// Structural equality of two roles.
    pub fn deep_eq(&self, other: &Role) -> (r: bool)
        ensures
            r == (self@ == other@),
    {
        match (self, other) {
            (Role::Follower(a), Role::Follower(b)) => {
                match (a.leader_id, b.leader_id) {
                    (None, None) => true,
                    (Some(x), Some(y)) => x.0 == y.0,
                    _ => false,
                }
            },
            (Role::Candidate(a), Role::Candidate(b)) => {
                if a.votes_granted != b.votes_granted {
                    proof {
                        assert(a@ != b@);
                    }
                    return false;
                }
                if a.vote_request_ids.len() != b.vote_request_ids.len() {
                    proof {
                        assert(a@.vote_request_ids.len() != b@.vote_request_ids.len());
                    }
                    return false;
                }
                let mut i: usize = 0;
                while i < a.vote_request_ids.len()
                    invariant
                        i <= a.vote_request_ids@.len(),
                        a.vote_request_ids@.len() == b.vote_request_ids@.len(),
                        self@ == RoleView::Candidate(a@),
                        other@ == RoleView::Candidate(b@),
                        forall|j: int|
                            0 <= j < i ==> a.vote_request_ids@[j] == b.vote_request_ids@[j],
                    decreases a.vote_request_ids@.len() - i,
                {
                    if a.vote_request_ids[i].0 != b.vote_request_ids[i].0 {
                        proof {
                            if a@.vote_request_ids == b@.vote_request_ids {
                                assert(a@.vote_request_ids[i as int]
                                    == b@.vote_request_ids[i as int]);
                            }
                            assert(a@ != b@);
                        }
                        return false;
                    }
                    i = i + 1;
                }
                proof {
                    assert(a.vote_request_ids@ =~= b.vote_request_ids@);
                }
                true
            },
            (Role::Leader(a), Role::Leader(b)) => a.deep_eq(b),
            _ => false,
        }
    }
}

impl Clone for Role {
    /// Clones the role; the copy has the same view.
    fn clone(&self) -> (r: Role)
        ensures
            r@ == self@,
    {
        match self {
            Role::Follower(state) => Role::Follower(*state),
            Role::Candidate(state) => Role::Candidate(state.clone()),
            Role::Leader(state) => Role::Leader(state.clone()),
        }
    }
}

impl Default for Role {
    /// A follower that knows no leader.
    fn default() -> (r: Role)
        ensures
            r@ == RoleView::Follower(FollowerState { leader_id: None }),
    {
        Role::Follower(FollowerState { leader_id: None })
    }
}

} // verus!
