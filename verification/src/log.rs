//! The in-memory replicated log.

use vstd::prelude::*;

use crate::kv::{Command, CommandView};
use crate::primitives::{LogIndex, Term};

verus! {

/// Entry of a [`Log`]: a command stamped with its index and term.
#[derive(Debug, PartialEq, Eq)]
pub struct LogEntry {
    pub(crate) index: LogIndex,
    pub(crate) term: Term,
    pub(crate) command: Command,
}

/// Mathematical image of a [`LogEntry`].
#[verifier::ext_equal]
pub ghost struct LogEntryView {
    pub index: LogIndex,
    pub term: Term,
    pub command: CommandView,
}

impl View for LogEntry {
    type V = LogEntryView;

    closed spec fn view(&self) -> LogEntryView {
        LogEntryView { index: self.index, term: self.term, command: self.command@ }
    }
}

impl LogEntry {
    /// Creates a log entry.
    pub fn new(index: LogIndex, term: Term, command: Command) -> (r: LogEntry)
        ensures
            r@ == (LogEntryView { index, term, command: command@ }),
    {
        LogEntry { index, term, command }
    }

    /// Gets the index of the log entry.
    pub fn index(&self) -> (r: LogIndex)
        ensures
            r == self@.index,
    {
        self.index
    }

    /// Gets the term of the log entry.
    pub fn term(&self) -> (r: Term)
        ensures
            r == self@.term,
    {
        self.term
    }

    /// Gets the command of the log entry.
    pub fn command(&self) -> (r: &Command)
        ensures
            r@ == self@.command,
    {
        &self.command
    }

    /// Structural equality of two log entries.
    pub fn deep_eq(&self, other: &LogEntry) -> (r: bool)
        ensures
            r == (self@ == other@),
    {
        self.index.0 == other.index.0 && self.term.0 == other.term.0 && self.command.deep_eq(
            &other.command,
        )
    }
}

impl Clone for LogEntry {
    /// Clones the log entry; the copy has the same view.
    fn clone(&self) -> (r: LogEntry)
        ensures
            r@ == self@,
    {
        LogEntry { index: self.index, term: self.term, command: self.command.clone() }
    }
}

/// Position of the entry with the given index, or `-1` if absent.
///
/// When the log is contiguous the position is unique; this picks the first.
pub open spec fn log_find(log: Seq<LogEntryView>, index: LogIndex) -> int
    decreases log.len(),
{
    if log.len() == 0 {
        -1
    } else if log[0].index == index {
        0
    } else {
        let r = log_find(log.drop_first(), index);
        if r < 0 {
            -1
        } else {
            r + 1
        }
    }
}

/// What `log_find` returns: the first position holding the index, or `-1` when none does.
pub proof fn lemma_log_find(log: Seq<LogEntryView>, index: LogIndex)
    ensures
        log_find(log, index) == -1 ==> forall|j: int|
            0 <= j < log.len() ==> (#[trigger] log[j]).index != index,
        log_find(log, index) != -1 ==> 0 <= log_find(log, index) < log.len() && log[log_find(
            log,
            index,
        )].index == index && forall|j: int|
            0 <= j < log_find(log, index) ==> (#[trigger] log[j]).index != index,
    decreases log.len(),
{
    if log.len() > 0 && log[0].index != index {
        let d = log.drop_first();
        lemma_log_find(d, index);
        if log_find(log, index) == -1 {
            assert forall|j: int| 0 <= j < log.len() implies (#[trigger] log[j]).index
                != index by {
                if j >= 1 {
                    assert(log[j] == d[j - 1]);
                }
            }
        } else {
            let r = log_find(log, index);
            assert(log[r] == d[r - 1]);
            assert forall|j: int| 0 <= j < r implies (#[trigger] log[j]).index != index by {
                if j >= 1 {
                    assert(log[j] == d[j - 1]);
                }
            }
        }
    }
}

/// The entries with `index < down_to`, in order: a log truncated from
/// `down_to` (inclusive) upward.
pub open spec fn log_below(log: Seq<LogEntryView>, down_to: LogIndex) -> Seq<LogEntryView>
    decreases log.len(),
{
    if log.len() == 0 {
        Seq::empty()
    } else {
        let rest = log_below(log.drop_last(), down_to);
        if log.last().index.0 < down_to.0 {
            rest.push(log.last())
        } else {
            rest
        }
    }
}

/// Whether log indices run `snapshot_index + 1, snapshot_index + 2, ...` with no gaps.
pub open spec fn log_contiguous(log: Seq<LogEntryView>, snapshot_index: LogIndex) -> bool {
    forall|k: int| 0 <= k < log.len() ==> (#[trigger] log[k]).index.0 == snapshot_index.0 + 1 + k
}

/// Appending the entry with the next index keeps a log contiguous.
pub proof fn lemma_append_preserves_contiguity(
    log: Seq<LogEntryView>,
    snapshot_index: LogIndex,
    entry: LogEntryView,
)
    requires
        log_contiguous(log, snapshot_index),
        entry.index.0 == snapshot_index.0 + 1 + log.len(),
    ensures
        log_contiguous(log.push(entry), snapshot_index),
{
    let extended = log.push(entry);
    assert forall|k: int| 0 <= k < extended.len() implies (#[trigger] extended[k]).index.0
        == snapshot_index.0 + 1 + k by {
        if k < log.len() {
            assert(extended[k] == log[k]);
        }
    }
}

/// Ordered sequence of [`LogEntry`]s, indexed by [`LogIndex`].
#[derive(Debug, PartialEq, Eq)]
pub struct Log {
    entries: Vec<LogEntry>,
}

impl View for Log {
    type V = Seq<LogEntryView>;

    closed spec fn view(&self) -> Seq<LogEntryView> {
        Seq::new(self.entries@.len(), |i: int| self.entries@[i]@)
    }
}

impl Log {
    /// Creates an empty log.
    pub fn new() -> (r: Log)
        ensures
            r@ == Seq::<LogEntryView>::empty(),
    {
        let r = Log { entries: Vec::new() };
        proof {
            assert(r@ =~= Seq::<LogEntryView>::empty());
        }
        r
    }

    /// Gets the number of entries.
    pub fn len(&self) -> (r: usize)
        ensures
            r == self@.len(),
    {
        self.entries.len()
    }

    /// Gets the entry at a position, front to back.
    pub fn at(&self, position: usize) -> (r: &LogEntry)
        requires
            position < self@.len(),
        ensures
            r@ == self@[position as int],
    {
        &self.entries[position]
    }

    /// Gets the last entry, if the log is non-empty.
    pub fn last(&self) -> (r: Option<&LogEntry>)
        ensures
            match r {
                Some(entry) => self@.len() > 0 && entry@ == self@.last(),
                None => self@.len() == 0,
            },
    {
        if self.entries.len() == 0 {
            None
        } else {
            Some(&self.entries[self.entries.len() - 1])
        }
    }

    /// Gets the entry with the given index, if present.
    pub fn entry(&self, index: LogIndex) -> (r: Option<&LogEntry>)
        ensures
            match r {
                Some(entry) => log_find(self@, index) >= 0 && entry@ == self@[log_find(
                    self@,
                    index,
                )],
                None => log_find(self@, index) == -1,
            },
    {
        match self.position_of(index) {
            Some(position) => Some(&self.entries[position]),
            None => None,
        }
    }

    /// Gets the position of the entry with the given index, if present.
    pub fn position_of(&self, index: LogIndex) -> (r: Option<usize>)
        ensures
            match r {
                Some(position) => position == log_find(self@, index) && position < self@.len(),
                None => log_find(self@, index) == -1,
            },
    {
        proof {
            lemma_log_find(self@, index);
        }
        let mut i: usize = 0;
        while i < self.entries.len()
            invariant
                i <= self.entries@.len(),
                self@.len() == self.entries@.len(),
                forall|j: int| 0 <= j < i ==> (#[trigger] self@[j]).index != index,
                log_find(self@, index) == -1 ==> forall|j: int|
                    0 <= j < self@.len() ==> (#[trigger] self@[j]).index != index,
                log_find(self@, index) != -1 ==> 0 <= log_find(self@, index) < self@.len()
                    && self@[log_find(self@, index)].index == index && forall|j: int|
                    0 <= j < log_find(self@, index) ==> (#[trigger] self@[j]).index != index,
            decreases self.entries@.len() - i,
        {
            if self.entries[i].index.0 == index.0 {
                proof {
                    assert(self@[i as int].index == index);
                    let r = log_find(self@, index);
                    if r == -1 {
                        assert(self@[i as int].index != index);
                    } else if r < i as int {
                        assert(self@[r].index != index);
                    } else if r > i as int {
                        assert(self@[i as int].index != index);
                    }
                }
                return Some(i);
            }
            i = i + 1;
        }
        None
    }

    /// Appends an entry at the back.
    pub fn push(&mut self, entry: LogEntry)
        ensures
            final(self)@ == old(self)@.push(entry@),
    {
        self.entries.push(entry);
        proof {
            assert(self@ =~= old(self)@.push(entry@));
        }
    }

    /// Removes every entry with `index >= down_to`.
    pub fn retain_below(&mut self, down_to: LogIndex)
        ensures
            final(self)@ == log_below(old(self)@, down_to),
    {
        let mut kept: Vec<LogEntry> = Vec::new();
        let mut i: usize = 0;
        proof {
            assert(self@.take(0) =~= Seq::<LogEntryView>::empty());
            assert(log_below(self@.take(0), down_to) =~= Seq::<LogEntryView>::empty());
        }
        while i < self.entries.len()
            invariant
                i <= self.entries@.len(),
                self@.len() == self.entries@.len(),
                Seq::new(kept@.len(), |j: int| kept@[j]@) == log_below(
                    self@.take(i as int),
                    down_to,
                ),
            decreases self.entries@.len() - i,
        {
            proof {
                let prefix = self@.take(i as int);
                let extended = self@.take(i + 1);
                assert(extended.drop_last() =~= prefix);
                assert(extended.last() == self@[i as int]);
            }
            if self.entries[i].index.0 < down_to.0 {
                let ghost old_kept = Seq::new(kept@.len(), |j: int| kept@[j]@);
                kept.push(self.entries[i].clone());
                proof {
                    assert(Seq::new(kept@.len(), |j: int| kept@[j]@) =~= old_kept.push(
                        self@[i as int],
                    ));
                }
            }
            i = i + 1;
        }
        proof {
            assert(self@.take(self@.len() as int) =~= self@);
        }
        self.entries = kept;
    }

    /// Clones the entries from a position to the back.
    pub fn entries_from(&self, position: usize) -> (r: Vec<LogEntry>)
        requires
            position <= self@.len(),
        ensures
            Seq::new(r@.len(), |j: int| r@[j]@) == self@.subrange(position as int, self@.len() as int),
    {
        let mut out: Vec<LogEntry> = Vec::new();
        let mut i: usize = position;
        while i < self.entries.len()
            invariant
                position <= i <= self.entries@.len(),
                self@.len() == self.entries@.len(),
                Seq::new(out@.len(), |j: int| out@[j]@) == self@.subrange(position as int, i as int),
            decreases self.entries@.len() - i,
        {
            let ghost old_out = Seq::new(out@.len(), |j: int| out@[j]@);
            out.push(self.entries[i].clone());
            proof {
                assert(Seq::new(out@.len(), |j: int| out@[j]@) =~= old_out.push(self@[i as int]));
                assert(self@.subrange(position as int, i + 1) =~= self@.subrange(
                    position as int,
                    i as int,
                ).push(self@[i as int]));
            }
            i = i + 1;
        }
        out
    }

    /// Structural equality of two logs.
    pub fn deep_eq(&self, other: &Log) -> (r: bool)
        ensures
            r == (self@ == other@),
    {
        if self.entries.len() != other.entries.len() {
            return false;
        }
        let mut i: usize = 0;
        while i < self.entries.len()
            invariant
                i <= self.entries@.len(),
                self.entries@.len() == other.entries@.len(),
                self@.len() == self.entries@.len(),
                other@.len() == other.entries@.len(),
                forall|j: int| 0 <= j < i ==> #[trigger] self@[j] == other@[j],
            decreases self.entries@.len() - i,
        {
            if !self.entries[i].deep_eq(&other.entries[i]) {
                proof {
                    if self@ == other@ {
                        assert(self@[i as int] == other@[i as int]);
                    }
                }
                return false;
            }
            i = i + 1;
        }
        proof {
            assert(self@ =~= other@);
        }
        true
    }
}

impl Clone for Log {
    /// Clones the log; the copy has the same view.
    fn clone(&self) -> (r: Log)
        ensures
            r@ == self@,
    {
        let entries = self.entries_from(0);
        let r = Log { entries };
        proof {
            assert(self@.subrange(0, self@.len() as int) =~= self@);
            assert(r@ =~= self@);
        }
        r
    }
}

impl Default for Log {
    /// Creates an empty log.
    fn default() -> (r: Log)
        ensures
            r@ == Seq::<LogEntryView>::empty(),
    {
        Log::new()
    }
}

/// One unfolding of `filter` over `push`.
pub proof fn lemma_filter_push<A>(s: Seq<A>, x: A, pred: spec_fn(A) -> bool)
    ensures
        s.push(x).filter(pred) == if pred(x) {
            s.filter(pred).push(x)
        } else {
            s.filter(pred)
        },
{
    reveal_with_fuel(Seq::filter, 1);
    assert(s.push(x).drop_last() =~= s);
    assert(s.push(x).last() == x);
}

} // verus!
