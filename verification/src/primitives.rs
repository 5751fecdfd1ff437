//! Identifier and counter primitives.

use vstd::prelude::*;

verus! {

/// Identifier of a client.
#[derive(Clone, Copy, PartialEq, Eq, Structural, Debug, Hash, PartialOrd, Ord)]
pub struct ClientId(pub usize);

/// Identifier of a peer.
#[derive(Clone, Copy, PartialEq, Eq, Structural, Debug, Hash, PartialOrd, Ord)]
pub struct PeerId(pub usize);

/// Identifier of a request, unique per issuer.
#[derive(Clone, Copy, PartialEq, Eq, Structural, Debug, Hash, PartialOrd, Ord)]
pub struct RequestId(pub usize);

/// Election epoch number; zero is the sentinel "before any term".
#[derive(Clone, Copy, PartialEq, Eq, Structural, Debug, Hash, PartialOrd, Ord)]
pub struct Term(pub usize);

impl Term {
    /// Gets the next term number.
    pub fn next(self) -> (r: Term)
        requires
            self.0 < usize::MAX,
        ensures
            r.0 == self.0 + 1,
    {
        Term(self.0 + 1)
    }
}

/// One-based position of an entry in the replicated log; zero is the
/// sentinel "before the first entry".
#[derive(Clone, Copy, PartialEq, Eq, Structural, Debug, Hash, PartialOrd, Ord)]
pub struct LogIndex(pub usize);

impl LogIndex {
    /// Gets the previous log index.
    pub fn previous(self) -> (r: LogIndex)
        requires
            self.0 >= 1,
        ensures
            r.0 == self.0 - 1,
    {
        LogIndex(self.0 - 1)
    }

    /// Gets the next log index.
    pub fn next(self) -> (r: LogIndex)
        requires
            self.0 < usize::MAX,
        ensures
            r.0 == self.0 + 1,
    {
        LogIndex(self.0 + 1)
    }
}

/// Counter issuing monotonically increasing request ids for one peer or client.
#[derive(Debug)]
pub struct RequestCounter {
    next_request_id: usize,
}

impl RequestCounter {
    /// Gets the value the counter will hand out next.
    pub closed spec fn spec_next(self) -> usize {
        self.next_request_id
    }

    /// Creates a counter that starts at zero.
    pub fn new() -> (r: RequestCounter)
        ensures
            r.spec_next() == 0,
    {
        RequestCounter { next_request_id: 0 }
    }

    /// Gets the value the counter will hand out next, without advancing.
    pub fn peek(&self) -> (r: usize)
        ensures
            r == self.spec_next(),
    {
        self.next_request_id
    }

    /// Gets the next request id and advances the counter.
    pub fn next(&mut self) -> (r: usize)
        requires
            old(self).spec_next() < usize::MAX,
        ensures
            r == old(self).spec_next(),
            final(self).spec_next() == old(self).spec_next() + 1,
    {
        let id = self.next_request_id;
        self.next_request_id = self.next_request_id + 1;
        id
    }
}

impl Clone for RequestCounter {
    /// Clones the counter at its current value.
    fn clone(&self) -> (r: RequestCounter)
        ensures
            r.spec_next() == self.spec_next(),
    {
        RequestCounter { next_request_id: self.next_request_id }
    }
}

impl Default for RequestCounter {
    /// Creates a counter that starts at zero.
    fn default() -> (r: RequestCounter)
        ensures
            r.spec_next() == 0,
    {
        RequestCounter::new()
    }
}

/// Consistency requirement under which peers answer client queries.
#[derive(Clone, Copy, PartialEq, Eq, Structural, Debug)]
pub enum Consistency {
    /// Only the leader answers, after confirming leadership.
    Strong,
    /// Every peer answers from its possibly stale machine.
    Eventual,
}

/// Whether peer ids are strictly ascending.
pub open spec fn peer_ids_sorted(s: Seq<PeerId>) -> bool {
    forall|i: int, j: int| 0 <= i < j < s.len() ==> (#[trigger] s[i]).0 < (#[trigger] s[j]).0
}

/// An ordered set of peer identifiers, fixed at construction.
#[derive(Debug)]
pub struct Cluster {
    members: Vec<PeerId>,
}

impl Cluster {
    /// The members in ascending order.
    pub closed spec fn view(self) -> Seq<PeerId> {
        self.members@
    }

    /// The members are strictly ascending, hence unique.
    pub open spec fn wf(self) -> bool {
        peer_ids_sorted(self@)
    }

    /// Whether a peer id is a member.
    pub open spec fn spec_contains(self, peer_id: PeerId) -> bool {
        self@.contains(peer_id)
    }

    /// Builds a cluster from ids given in strictly ascending order.
    pub fn new(members: Vec<PeerId>) -> (r: Cluster)
        requires
            forall|i: int, j: int|
                0 <= i < j < members@.len() ==> (#[trigger] members@[i]).0 < (
                #[trigger] members@[j]).0,
        ensures
            r@ == members@,
            r.wf(),
    {
        Cluster { members }
    }

    /// Gets the number of members.
    pub fn len(&self) -> (r: usize)
        ensures
            r == self@.len(),
    {
        self.members.len()
    }

    /// Gets the member at a position, in ascending order.
    pub fn member(&self, position: usize) -> (r: PeerId)
        requires
            position < self@.len(),
        ensures
            r == self@[position as int],
    {
        self.members[position]
    }

    /// Whether the given id is a member.
    pub fn contains(&self, peer_id: PeerId) -> (r: bool)
        ensures
            r == self.spec_contains(peer_id),
    {
        let mut i: usize = 0;
        while i < self.members.len()
            invariant
                i <= self.members@.len(),
                forall|k: int| 0 <= k < i ==> self.members@[k] != peer_id,
            decreases self.members@.len() - i,
        {
            if self.members[i].0 == peer_id.0 {
                return true;
            }
            i = i + 1;
        }
        false
    }

    /// Gets how many members are required for a majority.
    pub fn majority(&self) -> (r: usize)
        requires
            self@.len() < usize::MAX,
        ensures
            r == self@.len() / 2 + 1,
    {
        self.members.len() / 2 + 1
    }
}

impl Clone for Cluster {
    /// Clones the cluster; the copy has the same members.
    fn clone(&self) -> (r: Cluster)
        ensures
            r@ == self@,
    {
        let mut members: Vec<PeerId> = Vec::new();
        let mut i: usize = 0;
        while i < self.members.len()
            invariant
                i <= self.members@.len(),
                members@ == self.members@.take(i as int),
            decreases self.members@.len() - i,
        {
            members.push(self.members[i]);
            proof {
                assert(self.members@.take(i + 1) =~= self.members@.take(i as int).push(
                    self.members@[i as int],
                ));
            }
            i = i + 1;
        }
        proof {
            assert(self.members@.take(self.members@.len() as int) =~= self.members@);
        }
        Cluster { members }
    }
}

} // verus!
