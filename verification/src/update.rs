//! Scripted state updates for replay peers: the expected-state builder the
//! checker consumes.

use vstd::prelude::*;

use crate::kv::{Machine, MachineView};
use crate::log::{LogEntry, LogEntryView};
use crate::peer::{Peer, PeerView};
use crate::primitives::{LogIndex, PeerId, Term};
use crate::role::{Role, RoleView};
use crate::snapshot::{Snapshot, SnapshotView};
use crate::storage::Storage;
use crate::transmit::{ClientTransmit, ClientTransmitView, PeerTransmit, PeerTransmitView};
use std::collections::VecDeque;

verus! {

/// One named mutation of a replay peer.
#[derive(Debug)]
pub enum Change {
    SetTerm { new_term: Term },
    SetVotedFor { new_voted_for: Option<PeerId> },
    SetLog { new_log: Vec<LogEntry> },
    SetSnapshot { new_snapshot: Snapshot },
    SetCommitIndex { new_commit_index: LogIndex },
    SetLastApplied { new_last_applied: LogIndex },
    SetRole { new_role: Role },
    SetMachine { new_machine: Machine },
    SetBufferedPeerTransmits { new_transmits: VecDeque<PeerTransmit> },
    SetBufferedClientTransmits { new_transmits: VecDeque<ClientTransmit> },
}

/// Mathematical image of a [`Change`].
#[verifier::ext_equal]
pub ghost enum ChangeView {
    SetTerm { new_term: Term },
    SetVotedFor { new_voted_for: Option<PeerId> },
    SetLog { new_log: Seq<LogEntryView> },
    SetSnapshot { new_snapshot: SnapshotView },
    SetCommitIndex { new_commit_index: LogIndex },
    SetLastApplied { new_last_applied: LogIndex },
    SetRole { new_role: RoleView },
    SetMachine { new_machine: MachineView },
    SetBufferedPeerTransmits { new_transmits: Seq<PeerTransmitView> },
    SetBufferedClientTransmits { new_transmits: Seq<ClientTransmitView> },
}

impl View for Change {
    type V = ChangeView;

    open spec fn view(&self) -> ChangeView {
        match self {
            Change::SetTerm { new_term } => ChangeView::SetTerm { new_term: *new_term },
            Change::SetVotedFor { new_voted_for } => ChangeView::SetVotedFor {
                new_voted_for: *new_voted_for,
            },
            Change::SetLog { new_log } => ChangeView::SetLog {
                new_log: Seq::new(new_log@.len(), |i: int| new_log@[i]@),
            },
            Change::SetSnapshot { new_snapshot } => ChangeView::SetSnapshot {
                new_snapshot: new_snapshot@,
            },
            Change::SetCommitIndex { new_commit_index } => ChangeView::SetCommitIndex {
                new_commit_index: *new_commit_index,
            },
            Change::SetLastApplied { new_last_applied } => ChangeView::SetLastApplied {
                new_last_applied: *new_last_applied,
            },
            Change::SetRole { new_role } => ChangeView::SetRole { new_role: new_role@ },
            Change::SetMachine { new_machine } => ChangeView::SetMachine {
                new_machine: new_machine@,
            },
            Change::SetBufferedPeerTransmits { new_transmits } => {
                ChangeView::SetBufferedPeerTransmits {
                    new_transmits: Seq::new(new_transmits@.len(), |i: int| new_transmits@[i]@),
                }
            },
            Change::SetBufferedClientTransmits { new_transmits } => {
                ChangeView::SetBufferedClientTransmits {
                    new_transmits: Seq::new(new_transmits@.len(), |i: int| new_transmits@[i]@),
                }
            },
        }
    }
}

/// The peer after one change.
pub open spec fn apply_change_spec(p: PeerView, change: ChangeView) -> PeerView {
    match change {
        ChangeView::SetTerm { new_term } => PeerView { current_term: new_term, ..p },
        ChangeView::SetVotedFor { new_voted_for } => PeerView { voted_for: new_voted_for, ..p },
        ChangeView::SetLog { new_log } => PeerView { log: new_log, ..p },
        ChangeView::SetSnapshot { new_snapshot } => PeerView { snapshot: new_snapshot, ..p },
        ChangeView::SetCommitIndex { new_commit_index } => PeerView {
            commit_index: new_commit_index,
            ..p
        },
        ChangeView::SetLastApplied { new_last_applied } => PeerView {
            last_applied: new_last_applied,
            ..p
        },
        ChangeView::SetRole { new_role } => PeerView { role: new_role, ..p },
        ChangeView::SetMachine { new_machine } => PeerView { machine: new_machine, ..p },
        ChangeView::SetBufferedPeerTransmits { new_transmits } => PeerView {
            peer_outbox: new_transmits,
            ..p
        },
        ChangeView::SetBufferedClientTransmits { new_transmits } => PeerView {
            client_outbox: new_transmits,
            ..p
        },
    }
}

/// The peer after a list of changes, applied in listed order.
pub open spec fn apply_changes_spec(p: PeerView, changes: Seq<ChangeView>) -> PeerView
    decreases changes.len(),
{
    if changes.len() == 0 {
        p
    } else {
        apply_changes_spec(apply_change_spec(p, changes[0]), changes.drop_first())
    }
}

/// A sequence of update instructions for one peer: an additive builder
/// whose chained calls append to a change list applied in listed order.
#[derive(Debug)]
pub struct Update {
    pub peer_id: PeerId,
    pub changes: Vec<Change>,
}

/// Mathematical image of an [`Update`].
#[verifier::ext_equal]
pub ghost struct UpdateView {
    pub peer_id: PeerId,
    pub changes: Seq<ChangeView>,
}

impl View for Update {
    type V = UpdateView;

    open spec fn view(&self) -> UpdateView {
        UpdateView {
            peer_id: self.peer_id,
            changes: Seq::new(self.changes@.len(), |i: int| self.changes@[i]@),
        }
    }
}

impl Update {
    /// Creates an empty update for a peer.
    pub fn peer(peer_id: PeerId) -> (r: Update)
        ensures
            r@.peer_id == peer_id,
            r@.changes == Seq::<ChangeView>::empty(),
    {
        let r = Update { peer_id, changes: Vec::new() };
        proof {
            assert(r@.changes =~= Seq::<ChangeView>::empty());
        }
        r
    }

    /// Appends one change; the helper behind each builder method.
    fn with(self, change: Change) -> (r: Update)
        ensures
            r@.peer_id == self@.peer_id,
            r@.changes == self@.changes.push(change@),
    {
        let ghost change_view = change@;
        let mut with = self;
        with.changes.push(change);
        proof {
            assert(with@.changes =~= self@.changes.push(change_view));
        }
        with
    }

    /// Sets the current term of the peer.
    pub fn set_term(self, new_term: Term) -> (r: Update)
        ensures
            r@.peer_id == self@.peer_id,
            r@.changes == self@.changes.push(ChangeView::SetTerm { new_term }),
    {
        self.with(Change::SetTerm { new_term })
    }

    /// Sets the vote of the peer.
    pub fn set_voted_for(self, new_voted_for: Option<PeerId>) -> (r: Update)
        ensures
            r@.peer_id == self@.peer_id,
            r@.changes == self@.changes.push(ChangeView::SetVotedFor { new_voted_for }),
    {
        self.with(Change::SetVotedFor { new_voted_for })
    }

    /// Sets the log of the peer.
    pub fn set_log(self, new_log: Vec<LogEntry>) -> (r: Update)
        ensures
            r@.peer_id == self@.peer_id,
            r@.changes == self@.changes.push(
                ChangeView::SetLog { new_log: Seq::new(new_log@.len(), |i: int| new_log@[i]@) },
            ),
    {
        self.with(Change::SetLog { new_log })
    }

    /// Sets the snapshot of the peer.
    pub fn set_snapshot(self, new_snapshot: Snapshot) -> (r: Update)
        ensures
            r@.peer_id == self@.peer_id,
            r@.changes == self@.changes.push(
                ChangeView::SetSnapshot { new_snapshot: new_snapshot@ },
            ),
    {
        self.with(Change::SetSnapshot { new_snapshot })
    }

    /// Sets the commit index of the peer.
    pub fn set_commit_index(self, new_commit_index: LogIndex) -> (r: Update)
        ensures
            r@.peer_id == self@.peer_id,
            r@.changes == self@.changes.push(ChangeView::SetCommitIndex { new_commit_index }),
    {
        self.with(Change::SetCommitIndex { new_commit_index })
    }

    /// Sets the last applied index of the peer.
    pub fn set_last_applied(self, new_last_applied: LogIndex) -> (r: Update)
        ensures
            r@.peer_id == self@.peer_id,
            r@.changes == self@.changes.push(ChangeView::SetLastApplied { new_last_applied }),
    {
        self.with(Change::SetLastApplied { new_last_applied })
    }

    /// Sets the role of the peer.
    pub fn set_role(self, new_role: Role) -> (r: Update)
        ensures
            r@.peer_id == self@.peer_id,
            r@.changes == self@.changes.push(ChangeView::SetRole { new_role: new_role@ }),
    {
        self.with(Change::SetRole { new_role })
    }

    /// Sets the machine of the peer.
    pub fn set_machine(self, new_machine: Machine) -> (r: Update)
        ensures
            r@.peer_id == self@.peer_id,
            r@.changes == self@.changes.push(ChangeView::SetMachine { new_machine: new_machine@ }),
    {
        self.with(Change::SetMachine { new_machine })
    }

    /// Sets the buffered peer transmits of the peer.
    pub fn set_buffered_peer_transmits(self, new_transmits: VecDeque<PeerTransmit>) -> (r: Update)
        ensures
            r@.peer_id == self@.peer_id,
            r@.changes == self@.changes.push(
                ChangeView::SetBufferedPeerTransmits {
                    new_transmits: Seq::new(new_transmits@.len(), |i: int| new_transmits@[i]@),
                },
            ),
    {
        self.with(Change::SetBufferedPeerTransmits { new_transmits })
    }

    /// Clears the buffered peer transmits of the peer.
    pub fn clear_buffered_peer_transmits(self) -> (r: Update)
        ensures
            r@.peer_id == self@.peer_id,
            r@.changes == self@.changes.push(
                ChangeView::SetBufferedPeerTransmits {
                    new_transmits: Seq::<PeerTransmitView>::empty(),
                },
            ),
    {
        let empty: VecDeque<PeerTransmit> = VecDeque::new();
        let r = self.with(Change::SetBufferedPeerTransmits { new_transmits: empty });
        proof {
            assert(r@.changes.last()->SetBufferedPeerTransmits_new_transmits =~= Seq::<
                PeerTransmitView,
            >::empty());
            assert(r@.changes =~~= self@.changes.push(
                ChangeView::SetBufferedPeerTransmits {
                    new_transmits: Seq::<PeerTransmitView>::empty(),
                },
            ));
        }
        r
    }

    /// Sets the buffered client transmits of the peer.
    pub fn set_buffered_client_transmits(self, new_transmits: VecDeque<ClientTransmit>) -> (r:
        Update)
        ensures
            r@.peer_id == self@.peer_id,
            r@.changes == self@.changes.push(
                ChangeView::SetBufferedClientTransmits {
                    new_transmits: Seq::new(new_transmits@.len(), |i: int| new_transmits@[i]@),
                },
            ),
    {
        self.with(Change::SetBufferedClientTransmits { new_transmits })
    }

    /// Clears the buffered client transmits of the peer.
    pub fn clear_buffered_client_transmits(self) -> (r: Update)
        ensures
            r@.peer_id == self@.peer_id,
            r@.changes == self@.changes.push(
                ChangeView::SetBufferedClientTransmits {
                    new_transmits: Seq::<ClientTransmitView>::empty(),
                },
            ),
    {
        let empty: VecDeque<ClientTransmit> = VecDeque::new();
        let r = self.with(Change::SetBufferedClientTransmits { new_transmits: empty });
        proof {
            assert(r@.changes.last()->SetBufferedClientTransmits_new_transmits =~= Seq::<
                ClientTransmitView,
            >::empty());
            assert(r@.changes =~~= self@.changes.push(
                ChangeView::SetBufferedClientTransmits {
                    new_transmits: Seq::<ClientTransmitView>::empty(),
                },
            ));
        }
        r
    }

    /// Clearing the buffered peer transmits and then setting them yields
    /// exactly what was set, in order: later changes of an update win.
    pub proof fn lemma_clear_then_set_buffered_peer_transmits(
        p: PeerView,
        changes: Seq<ChangeView>,
        transmits: Seq<PeerTransmitView>,
    )
        ensures
            apply_changes_spec(
                p,
                changes.push(
                    ChangeView::SetBufferedPeerTransmits {
                        new_transmits: Seq::<PeerTransmitView>::empty(),
                    },
                ).push(ChangeView::SetBufferedPeerTransmits { new_transmits: transmits }),
            ).peer_outbox == transmits,
        decreases changes.len(),
    {
        let cleared = ChangeView::SetBufferedPeerTransmits {
            new_transmits: Seq::<PeerTransmitView>::empty(),
        };
        let set = ChangeView::SetBufferedPeerTransmits { new_transmits: transmits };
        let pushed = changes.push(cleared).push(set);
        if changes.len() == 0 {
            assert(pushed[0] == cleared);
            assert(pushed.drop_first() =~= seq![set]);
            assert(apply_changes_spec(p, pushed) == apply_changes_spec(
                apply_change_spec(p, cleared),
                seq![set],
            ));
            let after_clear = apply_change_spec(p, cleared);
            assert(seq![set].drop_first() =~= Seq::<ChangeView>::empty());
            assert(apply_changes_spec(after_clear, seq![set]) == apply_changes_spec(
                apply_change_spec(after_clear, set),
                Seq::<ChangeView>::empty(),
            ));
            assert(apply_change_spec(after_clear, set).peer_outbox == transmits);
        } else {
            assert(pushed[0] == changes[0]);
            assert(pushed.drop_first() =~= changes.drop_first().push(cleared).push(set));
            Self::lemma_clear_then_set_buffered_peer_transmits(
                apply_change_spec(p, changes[0]),
                changes.drop_first(),
                transmits,
            );
        }
    }

    /// Applies the update to the addressed peer of a cluster of replay
    /// peers. Fails without mutating anything when the peer id is out of
    /// range; a storage write failure surfaces as the peer's error.
    pub fn apply_to<S: Storage>(self, peers: &mut Vec<Peer<S>>) -> (r: Result<
        (),
        crate::errors::StorageError,
    >)
        ensures
            match r {
                Ok(_) => 1 <= self@.peer_id.0 <= old(peers)@.len()
                    && final(peers)@[self@.peer_id.0 - 1]@ == apply_changes_spec(
                    old(peers)@[self@.peer_id.0 - 1]@,
                    self@.changes,
                ),
                Err(_) => true,
            },
            1 <= self@.peer_id.0 <= old(peers)@.len() && old(peers)@[self@.peer_id.0
                - 1].storage_reliable() ==> r is Ok,
            final(peers)@.len() == old(peers)@.len(),
            forall|i: int|
                0 <= i < old(peers)@.len() ==> (#[trigger] final(peers)@[i]).storage_reliable()
                    == old(peers)@[i].storage_reliable(),
            1 <= self@.peer_id.0 <= old(peers)@.len() || final(peers)@ == old(peers)@,
            forall|i: int|
                0 <= i < old(peers)@.len() && i != self@.peer_id.0 - 1
                    ==> (#[trigger] final(peers)@[i])@ == old(peers)@[i]@,
    {
        let ghost update_view = self@;
        let update = self;
        if update.peer_id.0 < 1 || update.peer_id.0 > peers.len() {
            return Err(crate::errors::StorageError(0));
        }
        let index = update.peer_id.0 - 1;
        let ghost target_start = old(peers)@[index as int]@;
        let ghost changes_view = update_view.changes;
        let mut changes = update.changes;
        let mut applied: usize = 0;
        let total = changes.len();
        proof {
            assert(changes_view.skip(0) =~= changes_view);
        }
        while applied < total
            invariant
                update_view == self@,
                index == self@.peer_id.0 - 1,
                1 <= self@.peer_id.0 <= old(peers)@.len(),
                applied <= total,
                total == changes_view.len(),
                changes@.len() == total - applied,
                forall|j: int|
                    0 <= j < changes@.len() ==> (#[trigger] changes@[j])@ == changes_view[applied
                        + j],
                0 <= index < peers@.len(),
                peers@.len() == old(peers)@.len(),
                forall|i: int|
                    0 <= i < old(peers)@.len() && i != index ==> (#[trigger] peers@[i])@ == old(
                        peers,
                    )@[i]@,
                forall|i: int|
                    0 <= i < old(peers)@.len() ==> (#[trigger] peers@[i]).storage_reliable() == old(
                        peers,
                    )@[i].storage_reliable(),
                apply_changes_spec(peers@[index as int]@, changes_view.skip(applied as int))
                    == apply_changes_spec(target_start, changes_view),
            decreases total - applied,
        {
            let change = changes.remove(0);
            let ghost change_view = changes_view[applied as int];
            let ghost before = peers@[index as int]@;
            let peer = &mut peers[index];
            let result: Result<(), crate::errors::StorageError> = match change {
                Change::SetTerm { new_term } => peer.set_current_term(new_term),
                Change::SetVotedFor { new_voted_for } => peer.set_voted_for(new_voted_for),
                Change::SetLog { new_log } => peer.set_log(new_log),
                Change::SetSnapshot { new_snapshot } => peer.set_snapshot(new_snapshot),
                Change::SetCommitIndex { new_commit_index } => {
                    peer.set_commit_index(new_commit_index);
                    Ok(())
                },
                Change::SetLastApplied { new_last_applied } => {
                    peer.set_last_applied(new_last_applied);
                    Ok(())
                },
                Change::SetRole { new_role } => {
                    peer.set_role(new_role);
                    Ok(())
                },
                Change::SetMachine { new_machine } => {
                    peer.set_machine(new_machine);
                    Ok(())
                },
                Change::SetBufferedPeerTransmits { new_transmits } => {
                    peer.set_buffered_peer_transmits(new_transmits);
                    Ok(())
                },
                Change::SetBufferedClientTransmits { new_transmits } => {
                    peer.set_buffered_client_transmits(new_transmits);
                    Ok(())
                },
            };
            match result {
                Ok(_) => {},
                Err(error) => {
                    return Err(error);
                },
            }
            proof {
                assert(peers@[index as int]@ =~~= apply_change_spec(before, change_view));
                assert(changes_view.skip(applied as int).drop_first() =~= changes_view.skip(
                    applied + 1,
                ));
                assert(changes_view.skip(applied as int)[0] == change_view);
            }
            applied = applied + 1;
        }
        proof {
            assert(changes_view.skip(total as int) =~= Seq::<ChangeView>::empty());
        }
        Ok(())
    }
}

} // verus!
