//! The durable storage contract that peers consume, and an in-memory backend.

use vstd::prelude::*;

use crate::errors::StorageError;
use crate::log::{Log, LogEntry, LogEntryView, log_below};
use crate::primitives::{LogIndex, PeerId, Term};
use crate::snapshot::{Snapshot, SnapshotView};

verus! {

/// Mathematical image of what a storage holds.
#[verifier::ext_equal]
pub ghost struct StorageModel {
    pub current_term: Term,
    pub voted_for: Option<PeerId>,
    pub log: Seq<LogEntryView>,
    pub snapshot: SnapshotView,
}

/// Durable storage for a peer's persistent state, log and snapshot.
///
/// Reads always reflect the last successful write. A failed write rolls the
/// in-memory view back to the pre-call value: no partial visibility.
/// `reliable` names backends whose writes never fail, such as the in-memory
/// one; it is fixed for the lifetime of the storage.
pub trait Storage: Sized {
    /// What the storage holds. Implementations refine this; left alone it
    /// says nothing.
    open spec fn model(&self) -> StorageModel {
        vstd::pervasive::arbitrary()
    }

    /// Whether every write on this storage succeeds. Implementations
    /// refine this; left alone it promises nothing.
    open spec fn reliable(&self) -> bool {
        vstd::pervasive::arbitrary()
    }

    /// Gets the persistent current term.
    fn current_term(&self) -> (r: Term)
        ensures
            r == self.model().current_term,
    ;

    /// Sets the current term persistently.
    fn set_current_term(&mut self, term: Term) -> (r: Result<(), StorageError>)
        ensures
            final(self).reliable() == old(self).reliable(),
            old(self).reliable() ==> r is Ok,
            r is Ok ==> final(self).model() == (StorageModel {
                current_term: term,
                ..old(self).model()
            }),
            r is Err ==> final(self).model() == old(self).model(),
    ;

    /// Gets the persistent vote of the current term.
    fn voted_for(&self) -> (r: Option<PeerId>)
        ensures
            r == self.model().voted_for,
    ;

    /// Sets the vote persistently.
    fn set_voted_for(&mut self, voted_for: Option<PeerId>) -> (r: Result<(), StorageError>)
        ensures
            final(self).reliable() == old(self).reliable(),
            old(self).reliable() ==> r is Ok,
            r is Ok ==> final(self).model() == (StorageModel {
                voted_for,
                ..old(self).model()
            }),
            r is Err ==> final(self).model() == old(self).model(),
    ;

    /// Sets the current term and the vote persistently, as one write.
    fn set_current_term_and_voted_for(&mut self, current_term: Term, voted_for: Option<PeerId>)
        -> (r: Result<(), StorageError>)
        ensures
            final(self).reliable() == old(self).reliable(),
            old(self).reliable() ==> r is Ok,
            r is Ok ==> final(self).model() == (StorageModel {
                current_term,
                voted_for,
                ..old(self).model()
            }),
            r is Err ==> final(self).model() == old(self).model(),
    ;

    /// Gets the persistent log.
    fn log(&self) -> (r: &Log)
        ensures
            r@ == self.model().log,
    ;

    /// Appends an entry to the log persistently.
    fn append_log_entry(&mut self, entry: LogEntry) -> (r: Result<(), StorageError>)
        ensures
            final(self).reliable() == old(self).reliable(),
            old(self).reliable() ==> r is Ok,
            r is Ok ==> final(self).model() == (StorageModel {
                log: old(self).model().log.push(entry@),
                ..old(self).model()
            }),
            r is Err ==> final(self).model() == old(self).model(),
    ;

    /// Removes every log entry with `index >= down_to`, persistently.
    fn truncate_log(&mut self, down_to: LogIndex) -> (r: Result<(), StorageError>)
        ensures
            final(self).reliable() == old(self).reliable(),
            old(self).reliable() ==> r is Ok,
            r is Ok ==> final(self).model() == (StorageModel {
                log: log_below(old(self).model().log, down_to),
                ..old(self).model()
            }),
            r is Err ==> final(self).model() == old(self).model(),
    ;

    /// Gets the current persistent snapshot.
    fn snapshot(&self) -> (r: &Snapshot)
        ensures
            r@ == self.model().snapshot,
    ;

    /// Replaces the snapshot persistently.
    fn install_snapshot(&mut self, snapshot: Snapshot) -> (r: Result<(), StorageError>)
        ensures
            final(self).reliable() == old(self).reliable(),
            old(self).reliable() ==> r is Ok,
            r is Ok ==> final(self).model() == (StorageModel {
                snapshot: snapshot@,
                ..old(self).model()
            }),
            r is Err ==> final(self).model() == old(self).model(),
    ;
}

/// An in-memory storage whose writes always succeed.
#[derive(Debug)]
pub struct MemoryStorage {
    current_term: Term,
    voted_for: Option<PeerId>,
    log: Log,
    snapshot: Snapshot,
}

impl MemoryStorage {
    /// Creates a fresh storage: term zero, no vote, empty log, default snapshot.
    pub fn new() -> (r: MemoryStorage)
        ensures
            r.model().current_term.0 == 0,
            r.model().voted_for is None,
            r.model().log == Seq::<LogEntryView>::empty(),
            r.model().snapshot.last_included_index.0 == 0,
            r.model().snapshot.last_included_term.0 == 0,
            r.model().snapshot.machine == Seq::<(Seq<char>, Seq<char>)>::empty(),
            r.reliable(),
    {
        MemoryStorage {
            current_term: Term(0),
            voted_for: None,
            log: Log::new(),
            snapshot: Snapshot::default(),
        }
    }
}

impl Storage for MemoryStorage {
    closed spec fn model(&self) -> StorageModel {
        StorageModel {
            current_term: self.current_term,
            voted_for: self.voted_for,
            log: self.log@,
            snapshot: self.snapshot@,
        }
    }

    closed spec fn reliable(&self) -> bool {
        true
    }

    fn current_term(&self) -> (r: Term) {
        self.current_term
    }

    fn set_current_term(&mut self, term: Term) -> (r: Result<(), StorageError>) {
        self.current_term = term;
        Ok(())
    }

    fn voted_for(&self) -> (r: Option<PeerId>) {
        self.voted_for
    }

    fn set_voted_for(&mut self, voted_for: Option<PeerId>) -> (r: Result<(), StorageError>) {
        self.voted_for = voted_for;
        Ok(())
    }

    fn set_current_term_and_voted_for(&mut self, current_term: Term, voted_for: Option<PeerId>)
        -> (r: Result<(), StorageError>) {
        self.current_term = current_term;
        self.voted_for = voted_for;
        Ok(())
    }

    fn log(&self) -> (r: &Log) {
        &self.log
    }

    fn append_log_entry(&mut self, entry: LogEntry) -> (r: Result<(), StorageError>) {
        self.log.push(entry);
        Ok(())
    }

    fn truncate_log(&mut self, down_to: LogIndex) -> (r: Result<(), StorageError>) {
        self.log.retain_below(down_to);
        Ok(())
    }

    fn snapshot(&self) -> (r: &Snapshot) {
        &self.snapshot
    }

    fn install_snapshot(&mut self, snapshot: Snapshot) -> (r: Result<(), StorageError>) {
        self.snapshot = snapshot;
        Ok(())
    }
}

impl Clone for MemoryStorage {
    /// Clones the storage; the copy holds the same state.
    fn clone(&self) -> (r: MemoryStorage)
        ensures
            r.model() == self.model(),
            r.reliable() == self.reliable(),
    {
        MemoryStorage {
            current_term: self.current_term,
            voted_for: self.voted_for,
            log: self.log.clone(),
            snapshot: self.snapshot.clone(),
        }
    }
}

impl Default for MemoryStorage {
    /// Creates a fresh storage: term zero, no vote, empty log, default snapshot.
    fn default() -> (r: MemoryStorage)
        ensures
            r.model().current_term.0 == 0,
            r.model().voted_for is None,
            r.model().log == Seq::<LogEntryView>::empty(),
            r.model().snapshot.last_included_index.0 == 0,
            r.model().snapshot.last_included_term.0 == 0,
            r.model().snapshot.machine == Seq::<(Seq<char>, Seq<char>)>::empty(),
            r.reliable(),
    {
        MemoryStorage::new()
    }
}

} // verus!
