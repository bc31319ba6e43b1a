//! The log of the cluster's metadata, kept in memory.

use vstd::prelude::*;

use crate::raft_types;
use crate::raft_types::{Entry, EntryView, LogId, Vote};

verus! {

/// An end of a range of log indexes.
#[derive(Debug, Clone, Copy, PartialEq, Eq, Structural)]
pub enum Edge {
    Included(u64),
    Excluded(u64),
    Unbounded,
}

impl Edge {
    /// The first index of a range that starts here.
    pub open spec fn start(self) -> int {
        match self {
            Edge::Included(n) => n as int,
            Edge::Excluded(n) => n + 1,
            Edge::Unbounded => 0,
        }
    }

    /// The index behind a range that ends here, where an open range ends at
    /// `open`.
    pub open spec fn end(self, open: u64) -> int {
        match self {
            Edge::Included(n) => n + 1,
            Edge::Excluded(n) => n as int,
            Edge::Unbounded => open as int,
        }
    }
}

/// The first index of a range and the one behind it.
pub fn range_of(start: Edge, end: Edge, open: u64) -> (r: (u64, u64))
    requires
        start.start() <= u64::MAX,
        end.end(open) <= u64::MAX,
    ensures
        r.0 == start.start(),
        r.1 == end.end(open),
{
    let from: u64 = match start {
        Edge::Included(n) => n,
        Edge::Excluded(n) => n + 1,
        Edge::Unbounded => 0,
    };
    let to: u64 = match end {
        Edge::Included(n) => n + 1,
        Edge::Excluded(n) => n,
        Edge::Unbounded => open,
    };
    (from, to)
}

/// Whether an entry has an index in a range.
pub open spec fn in_range(from: u64, to: u64) -> spec_fn(EntryView) -> bool {
    |e: EntryView| from <= e.log_id.index && e.log_id.index < to
}

/// Whether an entry comes before an index.
pub open spec fn below(index: u64) -> spec_fn(EntryView) -> bool {
    |e: EntryView| e.log_id.index < index
}

/// Whether an entry comes after an index.
pub open spec fn above(index: u64) -> spec_fn(EntryView) -> bool {
    |e: EntryView| e.log_id.index > index
}

/// The ends of a log.
#[derive(Debug, Clone, Copy, PartialEq, Eq, Structural)]
pub struct LogState {
    pub last_purged_log_id: Option<LogId>,
    pub last_log_id: Option<LogId>,
}

/// A log kept in memory.
pub struct MemoryLogStore {
    entries: Vec<Entry>,
    last_purged_log_id: Option<LogId>,
    committed: Option<LogId>,
    vote: Option<Vote>,
}

/// A log as a mathematical value.
pub struct LogView {
    pub entries: Seq<EntryView>,
    pub last_purged_log_id: Option<LogId>,
    pub committed: Option<LogId>,
    pub vote: Option<Vote>,
}

impl LogView {
    /// The ends of the log: the last entry, or the last one that was purged.
    pub open spec fn state(self) -> LogState {
        LogState {
            last_purged_log_id: self.last_purged_log_id,
            last_log_id: if self.entries.len() > 0 {
                Some(self.entries.last().log_id)
            } else {
                self.last_purged_log_id
            },
        }
    }
}

impl View for MemoryLogStore {
    type V = LogView;

    closed spec fn view(&self) -> LogView {
        LogView {
            entries: raft_types::entry_views(self.entries@),
            last_purged_log_id: self.last_purged_log_id,
            committed: self.committed,
            vote: self.vote,
        }
    }
}

impl MemoryLogStore {
    /// An empty log.
    pub fn new() -> (s: MemoryLogStore)
        ensures
            s@ == (LogView {
                entries: Seq::empty(),
                last_purged_log_id: None,
                committed: None,
                vote: None,
            }),
    {
        let s = MemoryLogStore {
            entries: Vec::new(),
            last_purged_log_id: None,
            committed: None,
            vote: None,
        };
        assert(raft_types::entry_views(s.entries@) =~= Seq::empty());
        s
    }

    /// The ends of the log.
    pub fn get_log_state(&self) -> (r: LogState)
        ensures
            r == self@.state(),
    {
        let n: usize = self.entries.len();
        let last: Option<LogId> = if n > 0 {
            Some(self.entries[n - 1].log_id)
        } else {
            self.last_purged_log_id
        };
        LogState { last_purged_log_id: self.last_purged_log_id, last_log_id: last }
    }

    /// The entries whose indexes are at least `from` and below `to`.
    pub fn entries_between(&self, from: u64, to: u64) -> (r: Vec<Entry>)
        ensures
            raft_types::entry_views(r@) == self@.entries.filter(in_range(from, to)),
    {
        let mut r: Vec<Entry> = Vec::new();
        let mut i: usize = 0;
        proof {
            reveal(Seq::filter);
            assert(self@.entries.take(0).filter(in_range(from, to)) =~= Seq::empty());
            assert(raft_types::entry_views(r@) =~= Seq::empty());
        }
        while i < self.entries.len()
            invariant
                i <= self.entries.len(),
                raft_types::entry_views(r@) == self@.entries.take(i as int).filter(in_range(from, to)),
            decreases self.entries.len() - i,
        {
            let e: &Entry = &self.entries[i];
            let ghost before = r@;
            proof {
                reveal(Seq::filter);
                assert(self@.entries.take(i + 1).drop_last() =~= self@.entries.take(i as int));
                assert(self@.entries.take(i + 1).last() == e@);
            }
            if from <= e.log_id.index && e.log_id.index < to {
                let copy: Entry = e.copy();
                r.push(copy);
                assert(raft_types::entry_views(r@) =~= raft_types::entry_views(before).push(copy@));
            }
            i += 1;
        }
        assert(self@.entries.take(i as int) =~= self@.entries);
        r
    }

    /// The entries of a range of indexes.
    pub fn try_get_log_entries(&self, start: Edge, end: Edge) -> (r: Vec<Entry>)
        requires
            start.start() <= u64::MAX,
            end.end(u64::MAX) <= u64::MAX,
        ensures
            raft_types::entry_views(r@) == self@.entries.filter(
                in_range(start.start() as u64, end.end(u64::MAX) as u64),
            ),
    {
        let (from, to) = range_of(start, end, u64::MAX);
        self.entries_between(from, to)
    }

    /// Appends entries.
    pub fn append(&mut self, entries: Vec<Entry>)
        ensures
            final(self)@ == (LogView {
                entries: old(self)@.entries + raft_types::entry_views(entries@),
                ..old(self)@
            }),
    {
        let ghost before = self.entries@;
        let mut entries: Vec<Entry> = entries;
        let ghost new = entries@;
        self.entries.append(&mut entries);
        assert(raft_types::entry_views(before + new) =~= raft_types::entry_views(before)
            + raft_types::entry_views(new));
    }

    /// Drops the entries from an index on.
    pub fn truncate(&mut self, log_id: LogId)
        ensures
            final(self)@ == (LogView {
                entries: old(self)@.entries.filter(below(log_id.index)),
                ..old(self)@
            }),
    {
        let kept: Vec<Entry> = self.entries_between(0, log_id.index);
        proof {
            lemma_same_filter(self@.entries, in_range(0, log_id.index), below(log_id.index));
        }
        self.entries = kept;
    }

    /// Drops the entries up to an index, and takes note of it.
    pub fn purge(&mut self, log_id: LogId)
        ensures
            final(self)@ == (LogView {
                entries: old(self)@.entries.filter(above(log_id.index)),
                last_purged_log_id: Some(log_id),
                ..old(self)@
            }),
    {
        let kept: Vec<Entry> = self.entries_above(log_id.index);
        self.entries = kept;
        self.last_purged_log_id = Some(log_id);
    }

    fn entries_above(&self, index: u64) -> (r: Vec<Entry>)
        ensures
            raft_types::entry_views(r@) == self@.entries.filter(above(index)),
    {
        let mut r: Vec<Entry> = Vec::new();
        let mut i: usize = 0;
        proof {
            reveal(Seq::filter);
            assert(self@.entries.take(0).filter(above(index)) =~= Seq::empty());
            assert(raft_types::entry_views(r@) =~= Seq::empty());
        }
        while i < self.entries.len()
            invariant
                i <= self.entries.len(),
                raft_types::entry_views(r@) == self@.entries.take(i as int).filter(above(index)),
            decreases self.entries.len() - i,
        {
            let e: &Entry = &self.entries[i];
            let ghost before = r@;
            proof {
                reveal(Seq::filter);
                assert(self@.entries.take(i + 1).drop_last() =~= self@.entries.take(i as int));
                assert(self@.entries.take(i + 1).last() == e@);
            }
            if e.log_id.index > index {
                let copy: Entry = e.copy();
                r.push(copy);
                assert(raft_types::entry_views(r@) =~= raft_types::entry_views(before).push(copy@));
            }
            i += 1;
        }
        assert(self@.entries.take(i as int) =~= self@.entries);
        r
    }

    /// Keeps a vote.
    pub fn save_vote(&mut self, vote: Vote)
        ensures
            final(self)@ == (LogView { vote: Some(vote), ..old(self)@ }),
    {
        self.vote = Some(vote);
    }

    /// The vote that was kept last.
    pub fn read_vote(&self) -> (r: Option<Vote>)
        ensures
            r == self@.vote,
    {
        self.vote
    }

    /// Keeps the last committed place.
    pub fn save_committed(&mut self, committed: Option<LogId>)
        ensures
            final(self)@ == (LogView { committed, ..old(self)@ }),
    {
        self.committed = committed;
    }

    /// The last committed place.
    pub fn read_committed(&self) -> (r: Option<LogId>)
        ensures
            r == self@.committed,
    {
        self.committed
    }
}

impl Default for MemoryLogStore {
    fn default() -> (s: MemoryLogStore)
        ensures
            s@ == (LogView {
                entries: Seq::empty(),
                last_purged_log_id: None,
                committed: None,
                vote: None,
            }),
    {
        MemoryLogStore::new()
    }
}

proof fn lemma_same_filter(
    s: Seq<EntryView>,
    a: spec_fn(EntryView) -> bool,
    b: spec_fn(EntryView) -> bool,
)
    requires
        forall|e: EntryView| a(e) == #[trigger] b(e),
    ensures
        s.filter(a) == s.filter(b),
    decreases s.len(),
{
    reveal(Seq::filter);
    if s.len() > 0 {
        lemma_same_filter(s.drop_last(), a, b);
    }
}

proof fn lemma_filtered_away(s: Seq<EntryView>, a: spec_fn(EntryView) -> bool, b: spec_fn(EntryView) -> bool)
    requires
        forall|e: EntryView| #[trigger] a(e) ==> !b(e),
    ensures
        s.filter(a).filter(b) == Seq::<EntryView>::empty(),
    decreases s.len(),
{
    reveal(Seq::filter);
    if s.len() > 0 {
        lemma_filtered_away(s.drop_last(), a, b);
        let kept = s.drop_last().filter(a);
        if a(s.last()) {
            assert(kept.push(s.last()).drop_last() =~= kept);
        }
    } else {
        assert(s.filter(a) =~= Seq::empty());
    }
}

proof fn lemma_filtered_within(s: Seq<EntryView>, a: spec_fn(EntryView) -> bool, b: spec_fn(EntryView) -> bool)
    requires
        forall|e: EntryView| #[trigger] b(e) ==> a(e),
    ensures
        s.filter(a).filter(b) == s.filter(b),
    decreases s.len(),
{
    reveal(Seq::filter);
    if s.len() > 0 {
        lemma_filtered_within(s.drop_last(), a, b);
        let kept = s.drop_last().filter(a);
        if a(s.last()) {
            assert(kept.push(s.last()).drop_last() =~= kept);
        }
    } else {
        assert(s.filter(a) =~= Seq::empty());
    }
}

/// A log that was truncated at an index reads as before below it, and holds
/// nothing from it on.
pub proof fn truncation_drops_the_tail(entries: Seq<EntryView>, index: u64, from: u64, to: u64)
    ensures
        to <= index ==> entries.filter(below(index)).filter(in_range(from, to)) == entries.filter(
            in_range(from, to),
        ),
        from >= index ==> entries.filter(below(index)).filter(in_range(from, to)) == Seq::<
            EntryView,
        >::empty(),
{
    if to <= index {
        lemma_filtered_within(entries, below(index), in_range(from, to));
    }
    if from >= index {
        lemma_filtered_away(entries, below(index), in_range(from, to));
    }
}

/// A log that was purged up to an index reads as before above it, and holds
/// nothing up to it.
pub proof fn purging_drops_the_head(entries: Seq<EntryView>, index: u64, from: u64, to: u64)
    ensures
        from > index ==> entries.filter(above(index)).filter(in_range(from, to)) == entries.filter(
            in_range(from, to),
        ),
        to <= index ==> entries.filter(above(index)).filter(in_range(from, to)) == Seq::<
            EntryView,
        >::empty(),
{
    if from > index {
        lemma_filtered_within(entries, above(index), in_range(from, to));
    }
    if to <= index {
        lemma_filtered_away(entries, above(index), in_range(from, to));
    }
}

/// The place up to which a log on disk was purged.
#[derive(Debug, Clone, Copy, PartialEq, Eq, Structural)]
pub struct SerializedState {
    pub last_purged_index: Option<u64>,
    pub last_purged_term: Option<u64>,
}

impl SerializedState {
    /// What is kept of a place.
    pub fn of(last_purged: Option<LogId>) -> (s: SerializedState)
        ensures
            s.last_purged_index == (match last_purged {
                Some(l) => Some(l.index),
                None => None,
            }),
            s.last_purged_term == (match last_purged {
                Some(l) => Some(l.term),
                None => None,
            }),
    {
        match last_purged {
            Some(l) => SerializedState {
                last_purged_index: Some(l.index),
                last_purged_term: Some(l.term),
            },
            None => SerializedState { last_purged_index: None, last_purged_term: None },
        }
    }

    /// The place that was kept. The node of its leader is not kept: it reads
    /// as 0.
    pub fn last_purged_log_id(&self) -> (r: Option<LogId>)
        ensures
            r == (if self.last_purged_index is Some && self.last_purged_term is Some {
                Some(LogId { term: self.last_purged_term->0, node: 0, index: self.last_purged_index->0 })
            } else {
                None
            }),
    {
        match (self.last_purged_index, self.last_purged_term) {
            (Some(index), Some(term)) => Some(LogId { term, node: 0, index }),
            _ => None,
        }
    }
}

/// A range of a log is read by index, from its start on and up to its end: an
/// edge that is included is part of it, one that is excluded is not.
pub proof fn edges_bound_the_range(start: Edge, end: Edge, open: u64, index: u64)
    ensures
        start.start() <= index <==> match start {
            Edge::Included(n) => index >= n,
            Edge::Excluded(n) => index > n,
            Edge::Unbounded => true,
        },
        index < end.end(open) <==> match end {
            Edge::Included(n) => index <= n,
            Edge::Excluded(n) => index < n,
            Edge::Unbounded => index < open,
        },
{
}

/// What a filter of a log keeps.
proof fn lemma_kept(entries: Seq<EntryView>, keep: spec_fn(EntryView) -> bool, e: EntryView)
    ensures
        entries.filter(keep).contains(e) <==> entries.contains(e) && keep(e),
    decreases entries.len(),
{
    reveal(Seq::filter);
    if entries.len() > 0 {
        let init = entries.drop_last();
        lemma_kept(init, keep, e);
        let a = init.filter(keep);
        let b = entries.filter(keep);
        if entries.contains(e) {
            let i = choose|i: int| 0 <= i < entries.len() && entries[i] == e;
            if i < init.len() {
                assert(init[i] == e);
            }
        }
        if init.contains(e) {
            let i = choose|i: int| 0 <= i < init.len() && init[i] == e;
            assert(entries[i] == e);
        }
        if a.contains(e) {
            let i = choose|i: int| 0 <= i < a.len() && a[i] == e;
            assert(b[i] == e);
        }
        if keep(entries.last()) {
            assert(b == a.push(entries.last()));
            assert(b[a.len() as int] == entries.last());
            assert(entries[entries.len() - 1] == entries.last());
            if b.contains(e) {
                let i = choose|i: int| 0 <= i < b.len() && b[i] == e;
                if i < a.len() {
                    assert(a[i] == e);
                }
            }
        }
    } else {
        assert(entries.filter(keep).len() == 0);
    }
}

/// Reading a range gives the entries whose index lies in it; truncation keeps
/// those before the index; purging keeps those behind it.
pub proof fn entries_are_kept_by_index(entries: Seq<EntryView>, from: u64, to: u64, index: u64, e: EntryView)
    ensures
        entries.filter(in_range(from, to)).contains(e) <==> entries.contains(e) && from <= e.log_id.index
            && e.log_id.index < to,
        entries.filter(below(index)).contains(e) <==> entries.contains(e) && e.log_id.index < index,
        entries.filter(above(index)).contains(e) <==> entries.contains(e) && e.log_id.index > index,
{
    lemma_kept(entries, in_range(from, to), e);
    lemma_kept(entries, below(index), e);
    lemma_kept(entries, above(index), e);
}

/// The last entry is the end of a log, and of an empty one the last that was
/// purged.
pub proof fn the_last_entry_is_the_end(l: LogView)
    ensures
        l.state().last_purged_log_id == l.last_purged_log_id,
        l.entries.len() > 0 ==> l.state().last_log_id == Some(l.entries[l.entries.len() - 1].log_id),
        l.entries.len() == 0 ==> l.state().last_log_id == l.last_purged_log_id,
{
}

} // verus!
