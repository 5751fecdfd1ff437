//! The replicated key/value application: commands, queries and the machine.

use vstd::prelude::*;

verus! {

/// Command issued by clients to modify the replicated machine.
#[derive(Debug, PartialEq, Eq)]
pub enum Command {
    /// Used internally for replication.
    NoOp,
    /// Inserts a key with a value; fails if the key exists.
    Insert { key: String, value: String },
    /// Inserts a key with a value, overwriting an existing value.
    Upsert { key: String, value: String },
    /// Removes a key.
    Clear { key: String },
}

/// Mathematical image of a [`Command`], with strings as character sequences.
pub ghost enum CommandView {
    NoOp,
    Insert { key: Seq<char>, value: Seq<char> },
    Upsert { key: Seq<char>, value: Seq<char> },
    Clear { key: Seq<char> },
}

impl View for Command {
    type V = CommandView;

    open spec fn view(&self) -> CommandView {
        match self {
            Command::NoOp => CommandView::NoOp,
            Command::Insert { key, value } => CommandView::Insert {
                key: key@,
                value: value@,
            },
            Command::Upsert { key, value } => CommandView::Upsert {
                key: key@,
                value: value@,
            },
            Command::Clear { key } => CommandView::Clear { key: key@ },
        }
    }
}

impl Command {
    /// Gets the no-op command, which leaders replicate upon being elected.
    pub fn no_op() -> (r: Command)
        ensures
            r@ == CommandView::NoOp,
    {
        Command::NoOp
    }

    /// Structural equality of two commands.
    pub fn deep_eq(&self, other: &Command) -> (r: bool)
        ensures
            r == (self@ == other@),
    {
        match (self, other) {
            (Command::NoOp, Command::NoOp) => true,
            (Command::Insert { key: k1, value: v1 }, Command::Insert { key: k2, value: v2 }) => *k1
                == *k2 && *v1 == *v2,
            (Command::Upsert { key: k1, value: v1 }, Command::Upsert { key: k2, value: v2 }) => *k1
                == *k2 && *v1 == *v2,
            (Command::Clear { key: k1 }, Command::Clear { key: k2 }) => *k1 == *k2,
            _ => false,
        }
    }
}

impl Clone for Command {
    /// Clones the command; the copy has the same view.
    fn clone(&self) -> (r: Command)
        ensures
            r@ == self@,
    {
        match self {
            Command::NoOp => Command::NoOp,
            Command::Insert { key, value } => Command::Insert {
                key: key.clone(),
                value: value.clone(),
            },
            Command::Upsert { key, value } => Command::Upsert {
                key: key.clone(),
                value: value.clone(),
            },
            Command::Clear { key } => Command::Clear { key: key.clone() },
        }
    }
}

/// Result of a command, returned to the issuing client.
#[derive(Clone, Copy, PartialEq, Eq, Structural, Debug)]
pub enum CommandResult {
    /// Command executed successfully.
    Done,
    /// Key to be inserted already exists in the database.
    AlreadyExists,
}

/// Query issued by clients to read the replicated machine.
#[derive(Debug, PartialEq, Eq)]
pub enum Query {
    /// Gets the number of entries in the database.
    Length,
    /// Gets the value of an entry in the database.
    Entry { key: String },
}

/// Mathematical image of a [`Query`].
pub ghost enum QueryView {
    Length,
    Entry { key: Seq<char> },
}

impl View for Query {
    type V = QueryView;

    closed spec fn view(&self) -> QueryView {
        match self {
            Query::Length => QueryView::Length,
            Query::Entry { key } => QueryView::Entry { key: key@ },
        }
    }
}

impl Clone for Query {
    /// Clones the query; the copy has the same view.
    fn clone(&self) -> (r: Query)
        ensures
            r@ == self@,
    {
        match self {
            Query::Length => Query::Length,
            Query::Entry { key } => Query::Entry { key: key.clone() },
        }
    }
}

/// Result of a query, returned to the issuing client.
#[derive(Debug, PartialEq, Eq)]
pub enum QueryResult {
    /// Number of entries in the database.
    Length { length: usize },
    /// Value of the queried key, if present.
    Entry { value: Option<String> },
}

/// Mathematical image of a [`QueryResult`].
pub ghost enum QueryResultView {
    Length { length: int },
    Entry { value: Option<Seq<char>> },
}

impl View for QueryResult {
    type V = QueryResultView;

    closed spec fn view(&self) -> QueryResultView {
        match self {
            QueryResult::Length { length } => QueryResultView::Length { length: *length as int },
            QueryResult::Entry { value } => QueryResultView::Entry {
                value: match value {
                    Some(v) => Some(v@),
                    None => None,
                },
            },
        }
    }
}

impl Clone for QueryResult {
    /// Clones the query result; the copy has the same view.
    fn clone(&self) -> (r: QueryResult)
        ensures
            r@ == self@,
    {
        match self {
            QueryResult::Length { length } => QueryResult::Length { length: *length },
            QueryResult::Entry { value } => QueryResult::Entry {
                value: match value {
                    Some(v) => Some(v.clone()),
                    None => None,
                },
            },
        }
    }
}

/// Mathematical image of a [`Machine`]: its entries in insertion order.
pub type MachineView = Seq<(Seq<char>, Seq<char>)>;

/// Position of the first entry with the given key, or `-1` if absent.
pub open spec fn kv_find(m: MachineView, key: Seq<char>) -> int
    decreases m.len(),
{
    if m.len() == 0 {
        -1
    } else if m[0].0 == key {
        0
    } else {
        let r = kv_find(m.drop_first(), key);
        if r < 0 {
            -1
        } else {
            r + 1
        }
    }
}

/// What `kv_find` returns: the first matching position, or `-1` when no entry matches.
pub proof fn lemma_kv_find(m: MachineView, key: Seq<char>)
    ensures
        kv_find(m, key) == -1 ==> forall|j: int| 0 <= j < m.len() ==> (#[trigger] m[j]).0 != key,
        kv_find(m, key) != -1 ==> 0 <= kv_find(m, key) < m.len() && m[kv_find(m, key)].0 == key
            && forall|j: int| 0 <= j < kv_find(m, key) ==> (#[trigger] m[j]).0 != key,
    decreases m.len(),
{
    if m.len() > 0 && m[0].0 != key {
        let d = m.drop_first();
        lemma_kv_find(d, key);
        assert forall|j: int| 1 <= j < m.len() implies m[j] == d[j - 1] by {}
        if kv_find(m, key) == -1 {
            assert forall|j: int| 0 <= j < m.len() implies (#[trigger] m[j]).0 != key by {
                if j >= 1 {
                    assert(m[j] == d[j - 1]);
                }
            }
        } else {
            let r = kv_find(m, key);
            assert(m[r] == d[r - 1]);
            assert forall|j: int| 0 <= j < r implies (#[trigger] m[j]).0 != key by {
                if j >= 1 {
                    assert(m[j] == d[j - 1]);
                }
            }
        }
    }
}

/// The machine after applying a command, with the result of the command.
pub open spec fn apply_spec(m: MachineView, c: CommandView) -> (MachineView, CommandResult) {
    match c {
        CommandView::NoOp => (m, CommandResult::Done),
        CommandView::Insert { key, value } => {
            if kv_find(m, key) >= 0 {
                (m, CommandResult::AlreadyExists)
            } else {
                (m.push((key, value)), CommandResult::Done)
            }
        },
        CommandView::Upsert { key, value } => {
            if kv_find(m, key) >= 0 {
                (m.update(kv_find(m, key), (key, value)), CommandResult::Done)
            } else {
                (m.push((key, value)), CommandResult::Done)
            }
        },
        CommandView::Clear { key } => {
            if kv_find(m, key) >= 0 {
                (m.remove(kv_find(m, key)), CommandResult::Done)
            } else {
                (m, CommandResult::Done)
            }
        },
    }
}

/// The result of a query against the machine.
pub open spec fn query_spec(m: MachineView, q: QueryView) -> QueryResultView {
    match q {
        QueryView::Length => QueryResultView::Length { length: m.len() as int },
        QueryView::Entry { key } => QueryResultView::Entry {
            value: if kv_find(m, key) >= 0 {
                Some(m[kv_find(m, key)].1)
            } else {
                None
            },
        },
    }
}

/// The key/value machine replicated across peers.
#[derive(Debug, PartialEq, Eq)]
pub struct Machine {
    pairs: Vec<(String, String)>,
}

impl View for Machine {
    type V = MachineView;

    closed spec fn view(&self) -> MachineView {
        Seq::new(self.pairs@.len(), |i: int| (self.pairs@[i].0@, self.pairs@[i].1@))
    }
}

impl Machine {
    /// Creates an empty machine.
    pub fn new() -> (r: Machine)
        ensures
            r@ == MachineView::empty(),
    {
        let r = Machine { pairs: Vec::new() };
        proof {
            assert(r@ =~= MachineView::empty());
        }
        r
    }

    /// Position of the first entry with the given key, if any.
    fn find(&self, key: &String) -> (r: Option<usize>)
        ensures
            match r {
                Some(i) => i == kv_find(self@, key@) && i < self@.len(),
                None => kv_find(self@, key@) == -1,
            },
    {
        proof {
            lemma_kv_find(self@, key@);
        }
        let mut i: usize = 0;
        while i < self.pairs.len()
            invariant
                i <= self.pairs@.len(),
                self@.len() == self.pairs@.len(),
                forall|j: int| 0 <= j < i ==> (#[trigger] self@[j]).0 != key@,
                kv_find(self@, key@) == -1 ==> forall|j: int|
                    0 <= j < self@.len() ==> (#[trigger] self@[j]).0 != key@,
                kv_find(self@, key@) != -1 ==> 0 <= kv_find(self@, key@) < self@.len()
                    && self@[kv_find(self@, key@)].0 == key@ && forall|j: int|
                    0 <= j < kv_find(self@, key@) ==> (#[trigger] self@[j]).0 != key@,
            decreases self.pairs@.len() - i,
        {
            if self.pairs[i].0 == *key {
                proof {
                    assert(self@[i as int].0 == key@);
                    let r = kv_find(self@, key@);
                    if r == -1 {
                        assert(self@[i as int].0 != key@);
                    } else if r < i as int {
                        assert(self@[r].0 != key@);
                    } else if r > i as int {
                        assert(self@[i as int].0 != key@);
                    }
                }
                return Some(i);
            }
            assert(self@[i as int].0 != key@);
            i = i + 1;
        }
        None
    }

    /// Applies a command and returns its result.
    pub fn apply(&mut self, command: &Command) -> (r: CommandResult)
        ensures
            (final(self)@, r) == apply_spec(old(self)@, command@),
    {
        match command {
            Command::NoOp => CommandResult::Done,
            Command::Insert { key, value } => {
                match self.find(key) {
                    Some(_) => CommandResult::AlreadyExists,
                    None => {
                        self.pairs.push((key.clone(), value.clone()));
                        proof {
                            assert(self@ =~= apply_spec(old(self)@, command@).0);
                        }
                        CommandResult::Done
                    },
                }
            },
            Command::Upsert { key, value } => {
                match self.find(key) {
                    Some(i) => {
                        self.pairs.set(i, (key.clone(), value.clone()));
                        proof {
                            assert(self@ =~= apply_spec(old(self)@, command@).0);
                        }
                        CommandResult::Done
                    },
                    None => {
                        self.pairs.push((key.clone(), value.clone()));
                        proof {
                            assert(self@ =~= apply_spec(old(self)@, command@).0);
                        }
                        CommandResult::Done
                    },
                }
            },
            Command::Clear { key } => {
                match self.find(key) {
                    Some(i) => {
                        self.pairs.remove(i);
                        proof {
                            assert(self@ =~= apply_spec(old(self)@, command@).0);
                        }
                        CommandResult::Done
                    },
                    None => CommandResult::Done,
                }
            },
        }
    }

    /// Runs a query and returns its result.
    pub fn query(&self, query: &Query) -> (r: QueryResult)
        ensures
            r@ == query_spec(self@, query@),
    {
        match query {
            Query::Length => QueryResult::Length { length: self.pairs.len() },
            Query::Entry { key } => {
                match self.find(key) {
                    Some(i) => QueryResult::Entry { value: Some(self.pairs[i].1.clone()) },
                    None => QueryResult::Entry { value: None },
                }
            },
        }
    }

    /// Structural equality of two machines.
    pub fn deep_eq(&self, other: &Machine) -> (r: bool)
        ensures
            r == (self@ == other@),
    {
        if self.pairs.len() != other.pairs.len() {
            assert(self@.len() != other@.len());
            return false;
        }
        let mut i: usize = 0;
        while i < self.pairs.len()
            invariant
                i <= self.pairs@.len(),
                self.pairs@.len() == other.pairs@.len(),
                self@.len() == self.pairs@.len(),
                other@.len() == other.pairs@.len(),
                forall|j: int| 0 <= j < i ==> #[trigger] self@[j] == other@[j],
            decreases self.pairs@.len() - i,
        {
            if !(self.pairs[i].0 == other.pairs[i].0) || !(self.pairs[i].1 == other.pairs[i].1) {
                proof {
                    assert(self@[i as int] != other@[i as int]);
                    if self@ == other@ {
                        assert(self@[i as int] == other@[i as int]);
                    }
                }
                return false;
            }
            assert(self@[i as int] == other@[i as int]);
            i = i + 1;
        }
        proof {
            assert(self@ =~= other@);
        }
        true
    }
}

impl Clone for Machine {
    /// Clones the machine; the copy has the same view.
    fn clone(&self) -> (r: Machine)
        ensures
            r@ == self@,
    {
        let mut pairs: Vec<(String, String)> = Vec::new();
        let mut i: usize = 0;
        while i < self.pairs.len()
            invariant
                i <= self.pairs@.len(),
                pairs@.len() == i,
                forall|j: int|
                    0 <= j < i ==> (#[trigger] pairs@[j]).0@ == self.pairs@[j].0@ && pairs@[j].1@
                        == self.pairs@[j].1@,
            decreases self.pairs@.len() - i,
        {
            pairs.push((self.pairs[i].0.clone(), self.pairs[i].1.clone()));
            i = i + 1;
        }
        let r = Machine { pairs };
        proof {
            assert(r@ =~= self@);
        }
        r
    }
}

impl Default for Machine {
    /// Creates an empty machine.
    fn default() -> (r: Machine)
        ensures
            r@ == MachineView::empty(),
    {
        Machine::new()
    }
}

} // verus!
