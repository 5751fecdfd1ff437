//! Replication requests sent by leaders.

use vstd::prelude::*;

use crate::log::{LogEntry, LogEntryView};
use crate::primitives::{LogIndex, PeerId, Term};

verus! {

/// Request from the leader to another peer to replicate log entries.
#[derive(Debug, PartialEq, Eq)]
pub struct AppendEntriesRequest {
    pub term: Term,
    pub leader_id: PeerId,
    pub prev_log_index: LogIndex,
    pub prev_log_term: Term,
    pub entries: Vec<LogEntry>,
    pub leader_commit: LogIndex,
}

/// Mathematical image of an [`AppendEntriesRequest`].
#[verifier::ext_equal]
pub ghost struct AppendEntriesRequestView {
    pub term: Term,
    pub leader_id: PeerId,
    pub prev_log_index: LogIndex,
    pub prev_log_term: Term,
    pub entries: Seq<LogEntryView>,
    pub leader_commit: LogIndex,
}

impl View for AppendEntriesRequest {
    type V = AppendEntriesRequestView;

    open spec fn view(&self) -> AppendEntriesRequestView {
        AppendEntriesRequestView {
            term: self.term,
            leader_id: self.leader_id,
            prev_log_index: self.prev_log_index,
            prev_log_term: self.prev_log_term,
            entries: Seq::new(self.entries@.len(), |i: int| self.entries@[i]@),
            leader_commit: self.leader_commit,
        }
    }
}

impl AppendEntriesRequest {
    /// Creates a replication request.
    pub fn new(
        term: Term,
        leader_id: PeerId,
        prev_log_index: LogIndex,
        prev_log_term: Term,
        entries: Vec<LogEntry>,
        leader_commit: LogIndex,
    ) -> (r: AppendEntriesRequest)
        ensures
            r@ == (AppendEntriesRequestView {
                term,
                leader_id,
                prev_log_index,
                prev_log_term,
                entries: Seq::new(entries@.len(), |i: int| entries@[i]@),
                leader_commit,
            }),
    {
        AppendEntriesRequest { term, leader_id, prev_log_index, prev_log_term, entries, leader_commit }
    }

    /// Structural equality of two replication requests.
    pub fn deep_eq(&self, other: &AppendEntriesRequest) -> (r: bool)
        ensures
            r == (self@ == other@),
    {
        if !(self.term.0 == other.term.0 && self.leader_id.0 == other.leader_id.0
            && self.prev_log_index.0 == other.prev_log_index.0 && self.prev_log_term.0
            == other.prev_log_term.0 && self.leader_commit.0 == other.leader_commit.0) {
            return false;
        }
        if self.entries.len() != other.entries.len() {
            proof {
                assert(self@.entries.len() != other@.entries.len());
            }
            return false;
        }
        let mut i: usize = 0;
        while i < self.entries.len()
            invariant
                i <= self.entries@.len(),
                self.entries@.len() == other.entries@.len(),
                self@.entries.len() == self.entries@.len(),
                other@.entries.len() == other.entries@.len(),
                forall|j: int| 0 <= j < i ==> #[trigger] self@.entries[j] == other@.entries[j],
            decreases self.entries@.len() - i,
        {
            if !self.entries[i].deep_eq(&other.entries[i]) {
                proof {
                    assert(self@.entries[i as int] != other@.entries[i as int]);
                    if self@.entries == other@.entries {
                        assert(self@.entries[i as int] == other@.entries[i as int]);
                    }
                }
                return false;
            }
            proof {
                assert(self@.entries[i as int] == other@.entries[i as int]);
            }
            i = i + 1;
        }
        proof {
            assert(self@.entries =~= other@.entries);
        }
        true
    }
}

impl Clone for AppendEntriesRequest {
    /// Clones the request; the copy has the same view.
    fn clone(&self) -> (r: AppendEntriesRequest)
        ensures
            r@ == self@,
    {
        let mut entries: Vec<LogEntry> = Vec::new();
        let mut i: usize = 0;
        while i < self.entries.len()
            invariant
                i <= self.entries@.len(),
                entries@.len() == i,
                forall|j: int| 0 <= j < i ==> (#[trigger] entries@[j])@ == self.entries@[j]@,
            decreases self.entries@.len() - i,
        {
            entries.push(self.entries[i].clone());
            i = i + 1;
        }
        let r = AppendEntriesRequest {
            term: self.term,
            leader_id: self.leader_id,
            prev_log_index: self.prev_log_index,
            prev_log_term: self.prev_log_term,
            entries,
            leader_commit: self.leader_commit,
        };
        proof {
            assert(r@.entries =~= self@.entries);
        }
        r
    }
}

} // verus!
