//! Machine checkpoints.

use vstd::prelude::*;

use crate::kv::{Machine, MachineView};
use crate::primitives::{LogIndex, Term};

verus! {

/// A machine checkpoint paired with the index and term of the last entry it subsumes.
#[derive(Debug, PartialEq, Eq)]
pub struct Snapshot {
    pub(crate) last_included_index: LogIndex,
    pub(crate) last_included_term: Term,
    pub(crate) machine: Machine,
}

/// Mathematical image of a [`Snapshot`].
#[verifier::ext_equal]
pub ghost struct SnapshotView {
    pub last_included_index: LogIndex,
    pub last_included_term: Term,
    pub machine: MachineView,
}

impl View for Snapshot {
    type V = SnapshotView;

    closed spec fn view(&self) -> SnapshotView {
        SnapshotView {
            last_included_index: self.last_included_index,
            last_included_term: self.last_included_term,
            machine: self.machine@,
        }
    }
}

impl Snapshot {
    /// Creates a snapshot.
    pub fn new(last_included_index: LogIndex, last_included_term: Term, machine: Machine) -> (r:
        Snapshot)
        ensures
            r@ == (SnapshotView { last_included_index, last_included_term, machine: machine@ }),
    {
        Snapshot { last_included_index, last_included_term, machine }
    }

    /// Gets the index of the last log entry applied before the snapshot was taken.
    pub fn last_included_index(&self) -> (r: LogIndex)
        ensures
            r == self@.last_included_index,
    {
        self.last_included_index
    }

    /// Gets the term of the last log entry applied before the snapshot was taken.
    pub fn last_included_term(&self) -> (r: Term)
        ensures
            r == self@.last_included_term,
    {
        self.last_included_term
    }

    /// Gets the machine checkpoint.
    pub fn machine(&self) -> (r: &Machine)
        ensures
            r@ == self@.machine,
    {
        &self.machine
    }

    /// Structural equality of two snapshots.
    pub fn deep_eq(&self, other: &Snapshot) -> (r: bool)
        ensures
            r == (self@ == other@),
    {
        self.last_included_index.0 == other.last_included_index.0 && self.last_included_term.0
            == other.last_included_term.0 && self.machine.deep_eq(&other.machine)
    }
}

impl Clone for Snapshot {
    /// Clones the snapshot; the copy has the same view.
    fn clone(&self) -> (r: Snapshot)
        ensures
            r@ == self@,
    {
        Snapshot {
            last_included_index: self.last_included_index,
            last_included_term: self.last_included_term,
            machine: self.machine.clone(),
        }
    }
}

impl Default for Snapshot {
    /// The snapshot before any entry: indices zero and an empty machine.
    fn default() -> (r: Snapshot)
        ensures
            r@.last_included_index.0 == 0,
            r@.last_included_term.0 == 0,
            r@.machine == MachineView::empty(),
    {
        Snapshot {
            last_included_index: LogIndex(0),
            last_included_term: Term(0),
            machine: Machine::new(),
        }
    }
}

} // verus!
