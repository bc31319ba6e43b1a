//! Inverted index over record metadata: for every name and value, the offsets
//! of the records that carry it.
//!
//! Postings are derived state, rebuilt with the records. Evaluating a filter on
//! them finds the records that the filter matches; see
//! [`evaluation_agrees_with_matching`].

use roaring::RoaringBitmap;
use vstd::prelude::*;

use crate::bitmap;
use crate::bitmap::{copied, intersect, subtract, unite};
use crate::filter;
use crate::filter::{ComparisonOp, CondView, OpView, WhereCondition, WhereFilter};
use crate::num;
use crate::num::F64;
use crate::text::same_text;
use crate::types;
use crate::types::{MetaView, Metadata, MetadataValue};

verus! {

/// Canonical form of a metadata value. Integers and doubles are held by their
/// place in the order of doubles, so that `5` and `5.0` fall together. An integer
/// that shares its double with others is held exactly as well.
#[derive(Debug)]
pub enum ValueKey {
    Str(String),
    Bool(bool),
    Num { rank: i64, exact: Option<i64> },
}

/// A canonical value as a mathematical value.
pub enum KeyView {
    Str(Seq<char>),
    Bool(bool),
    Num { rank: i64, exact: Option<i64> },
}

impl View for ValueKey {
    type V = KeyView;

    open spec fn view(&self) -> KeyView {
        match self {
            ValueKey::Str(s) => KeyView::Str(s@),
            ValueKey::Bool(b) => KeyView::Bool(*b),
            ValueKey::Num { rank, exact } => KeyView::Num { rank: *rank, exact: *exact },
        }
    }
}

/// The first integer that shares its double with another.
pub const SHARED: i64 = 0x20_0000_0000_0000;

/// The canonical form of a metadata value.
pub open spec fn key_of(v: MetaView) -> KeyView {
    match v {
        MetaView::Str(s) => KeyView::Str(s),
        MetaView::Bool(b) => KeyView::Bool(b),
        MetaView::Int(i) => KeyView::Num {
            rank: F64::of_int(i as int).rank() as i64,
            exact: if -SHARED < i < SHARED {
                None
            } else {
                Some(i)
            },
        },
        MetaView::Float(f) => KeyView::Num { rank: f.rank() as i64, exact: None },
    }
}

/// Whether the values of a canonical form equal a value.
pub open spec fn names(k: KeyView, v: MetaView) -> bool {
    match (k, v) {
        (KeyView::Str(a), MetaView::Str(b)) => a == b,
        (KeyView::Bool(a), MetaView::Bool(b)) => a == b,
        (KeyView::Num { rank, exact }, MetaView::Int(j)) => match exact {
            Some(i) => i == j,
            None => rank == F64::of_int(j as int).rank(),
        },
        (KeyView::Num { rank, .. }, MetaView::Float(f)) => !f.nan() && rank == f.rank(),
        _ => false,
    }
}

/// Whether the values of a canonical form equal one of some values.
pub open spec fn names_one(k: KeyView, vs: Seq<MetaView>) -> bool {
    exists|i: int| 0 <= i < vs.len() && names(k, #[trigger] vs[i])
}

/// The place of the numbers of a canonical form, if they are numbers.
pub open spec fn rank_of(k: KeyView) -> Option<int> {
    match k {
        KeyView::Num { rank, .. } => if rank == i64::MAX {
            None
        } else {
            Some(rank as int)
        },
        _ => None,
    }
}

/// Whether the values of a canonical form pass a comparison; for one that
/// excludes values, whether they are excluded.
pub open spec fn passes(k: KeyView, op: OpView) -> bool {
    match op {
        OpView::Eq(v) => names(k, v),
        OpView::Ne(v) => names(k, v),
        OpView::Gt(n) => !n.nan() && (rank_of(k) matches Some(r) && r > n.rank()),
        OpView::Gte(n) => !n.nan() && (rank_of(k) matches Some(r) && r >= n.rank()),
        OpView::Lt(n) => !n.nan() && (rank_of(k) matches Some(r) && r < n.rank()),
        OpView::Lte(n) => !n.nan() && (rank_of(k) matches Some(r) && r <= n.rank()),
        OpView::In(vs) => names_one(k, vs),
        OpView::Nin(vs) => names_one(k, vs),
    }
}

impl ValueKey {
    /// The canonical form of a metadata value.
    pub fn from_value(v: &MetadataValue) -> (r: ValueKey)
        ensures
            r@ == key_of(v@),
    {
        match v {
            MetadataValue::Str(s) => ValueKey::Str(s.clone()),
            MetadataValue::Bool(b) => ValueKey::Bool(*b),
            MetadataValue::Int(i) => {
                let exact: Option<i64> = if -SHARED < *i && *i < SHARED {
                    None
                } else {
                    Some(*i)
                };
                ValueKey::Num { rank: F64::from_i64(*i).order_key(), exact }
            },
            MetadataValue::Float(f) => ValueKey::Num { rank: f.order_key(), exact: None },
        }
    }

    fn same_key(&self, other: &ValueKey) -> (r: bool)
        ensures
            r == (self@ == other@),
    {
        match (self, other) {
            (ValueKey::Str(a), ValueKey::Str(b)) => same_text(a.as_str(), b.as_str()),
            (ValueKey::Bool(a), ValueKey::Bool(b)) => *a == *b,
            (ValueKey::Num { rank: a, exact: x }, ValueKey::Num { rank: b, exact: y }) => *a == *b && match (
                x,
                y,
            ) {
                (Some(i), Some(j)) => *i == *j,
                (None, None) => true,
                _ => false,
            },
            _ => false,
        }
    }

    /// Whether the values of this form equal a value.
    pub fn names_value(&self, v: &MetadataValue) -> (r: bool)
        ensures
            r == names(self@, v@),
    {
        match (self, v) {
            (ValueKey::Str(a), MetadataValue::Str(b)) => same_text(a.as_str(), b.as_str()),
            (ValueKey::Bool(a), MetadataValue::Bool(b)) => *a == *b,
            (ValueKey::Num { rank, exact }, MetadataValue::Int(j)) => match exact {
                Some(i) => *i == *j,
                None => *rank == F64::from_i64(*j).order_key(),
            },
            (ValueKey::Num { rank, .. }, MetadataValue::Float(f)) => !f.is_nan() && *rank == f.order_key(),
            _ => false,
        }
    }

    fn names_any(&self, vs: &Vec<MetadataValue>) -> (r: bool)
        ensures
            r == names_one(self@, filter::meta_views(vs@)),
    {
        let ghost views = filter::meta_views(vs@);
        let mut i: usize = 0;
        while i < vs.len()
            invariant
                i <= vs.len(),
                views == filter::meta_views(vs@),
                forall|j: int| 0 <= j < i ==> !names(self@, #[trigger] views[j]),
            decreases vs.len() - i,
        {
            assert(views[i as int] == vs@[i as int]@);
            if self.names_value(&vs[i]) {
                return true;
            }
            i += 1;
        }
        false
    }

    /// Whether the values of this form pass a comparison; for one that excludes
    /// values, whether they are excluded.
    pub fn passes_op(&self, op: &ComparisonOp) -> (r: bool)
        ensures
            r == passes(self@, op@),
    {
        let rank: Option<i64> = match self {
            ValueKey::Num { rank, .. } => if *rank == i64::MAX {
                None
            } else {
                Some(*rank)
            },
            _ => None,
        };
        match op {
            ComparisonOp::Eq(v) => self.names_value(v),
            ComparisonOp::Ne(v) => self.names_value(v),
            ComparisonOp::Gt(n) => match rank {
                Some(r) => !n.is_nan() && r > n.order_key(),
                None => false,
            },
            ComparisonOp::Gte(n) => match rank {
                Some(r) => !n.is_nan() && r >= n.order_key(),
                None => false,
            },
            ComparisonOp::Lt(n) => match rank {
                Some(r) => !n.is_nan() && r < n.order_key(),
                None => false,
            },
            ComparisonOp::Lte(n) => match rank {
                Some(r) => !n.is_nan() && r <= n.order_key(),
                None => false,
            },
            ComparisonOp::In(vs) => self.names_any(vs),
            ComparisonOp::Nin(vs) => self.names_any(vs),
        }
    }
}

/// The offsets under one name and value.
struct Posting {
    key: String,
    value: ValueKey,
    offsets: RoaringBitmap,
}

/// What an index holds: the offsets of all records, and each name and value
/// with the offsets of the records that carry them.
#[verifier::ext_equal]
pub struct IndexView {
    pub all: Set<u32>,
    pub held: Set<(Seq<char>, KeyView, u32)>,
}

/// Inverted index over the metadata of the live records.
pub struct Postings {
    entries: Vec<Posting>,
    all: RoaringBitmap,
}

/// Whether entry `p` stands for the given name and value.
spec fn stands_for(p: Posting, key: Seq<char>, value: KeyView) -> bool {
    p.key@ == key && p.value@ == value
}

/// The triples that a list of entries holds.
spec fn held_by(entries: Seq<Posting>) -> Set<(Seq<char>, KeyView, u32)> {
    Set::new(
        |t: (Seq<char>, KeyView, u32)|
            exists|i: int|
                0 <= i < entries.len() && stands_for(#[trigger] entries[i], t.0, t.1)
                    && bitmap::members(entries[i].offsets).contains(t.2),
    )
}

/// Whether no name and value has two entries, and no entry is empty.
spec fn tidy(entries: Seq<Posting>) -> bool {
    &&& forall|i: int, j: int|
        0 <= i < entries.len() && 0 <= j < entries.len() && (#[trigger] entries[i]).key@ == (
        #[trigger] entries[j]).key@ && entries[i].value@ == entries[j].value@ ==> i == j
    &&& forall|i: int|
        0 <= i < entries.len() ==> bitmap::members((#[trigger] entries[i]).offsets) != Set::<u32>::empty()
}

impl View for Postings {
    type V = IndexView;

    closed spec fn view(&self) -> IndexView {
        IndexView { all: bitmap::members(self.all), held: held_by(self.entries@) }
    }
}

/// The triples that a record's metadata puts under its offset.
pub open spec fn triples_of(offset: u32, m: Option<Map<Seq<char>, MetaView>>) -> Set<
    (Seq<char>, KeyView, u32),
> {
    Set::new(
        |t: (Seq<char>, KeyView, u32)|
            t.2 == offset && (m matches Some(m) && m.contains_key(t.0) && key_of(m[t.0]) == t.1),
    )
}

impl Postings {
    /// Whether the index is in order: one entry for each name and value, and
    /// none without offsets.
    pub closed spec fn wf(self) -> bool {
        tidy(self.entries@)
    }

    /// An index of no records.
    pub fn new() -> (p: Postings)
        ensures
            p.wf(),
            p@ == (IndexView { all: Set::empty(), held: Set::empty() }),
    {
        let p = Postings { entries: Vec::new(), all: RoaringBitmap::new() };
        assert(p@.held =~= Set::<(Seq<char>, KeyView, u32)>::empty());
        p
    }

    /// The entry for a name and value.
    fn find(&self, key: &str, value: &ValueKey) -> (r: Option<usize>)
        ensures
            match r {
                Some(i) => i < self.entries@.len() && stands_for(self.entries@[i as int], key@, value@),
                None => forall|i: int|
                    0 <= i < self.entries@.len() ==> !stands_for(#[trigger] self.entries@[i], key@, value@),
            },
    {
        let mut i: usize = 0;
        while i < self.entries.len()
            invariant
                i <= self.entries.len(),
                forall|j: int| 0 <= j < i ==> !stands_for(#[trigger] self.entries@[j], key@, value@),
            decreases self.entries.len() - i,
        {
            if same_text(self.entries[i].key.as_str(), key) && self.entries[i].value.same_key(value) {
                return Some(i);
            }
            i += 1;
        }
        None
    }

    fn add_pair(&mut self, key: &String, value: ValueKey, offset: u32)
        requires
            old(self).wf(),
        ensures
            final(self).wf(),
            final(self)@.all == old(self)@.all,
            final(self)@.held == old(self)@.held.insert((key@, value@, offset)),
    {
        let ghost before = self.entries@;
        let ghost t = (key@, value@, offset);
        match self.find(key.as_str(), &value) {
            Some(i) => {
                self.entries[i].offsets.insert(offset);
                proof {
                    let after = self.entries@;
                    assert(forall|j: int| 0 <= j < after.len() && j != i ==> after[j] == before[j]);
                    assert(bitmap::members(after[i as int].offsets).contains(offset));
                    assert(held_by(after) =~= held_by(before).insert(t)) by {
                        assert forall|u: (Seq<char>, KeyView, u32)| held_by(before).contains(u)
                            implies held_by(after).contains(u) by {
                            let j = choose|j: int|
                                0 <= j < before.len() && stands_for(#[trigger] before[j], u.0, u.1)
                                    && bitmap::members(before[j].offsets).contains(u.2);
                            assert(stands_for(after[j], u.0, u.1));
                        }
                        assert(stands_for(after[i as int], t.0, t.1));
                        assert forall|u: (Seq<char>, KeyView, u32)| held_by(after).contains(u) && u
                            != t implies held_by(before).contains(u) by {
                            let j = choose|j: int|
                                0 <= j < after.len() && stands_for(#[trigger] after[j], u.0, u.1)
                                    && bitmap::members(after[j].offsets).contains(u.2);
                            assert(stands_for(before[j], u.0, u.1));
                        }
                    }
                }
            },
            None => {
                let mut offsets: RoaringBitmap = RoaringBitmap::new();
                offsets.insert(offset);
                assert(bitmap::members(offsets).contains(offset));
                self.entries.push(Posting { key: key.clone(), value, offsets });
                proof {
                    let after = self.entries@;
                    let n = before.len() as int;
                    assert(stands_for(after[n], t.0, t.1));
                    assert forall|i: int, j: int|
                        0 <= i < after.len() && 0 <= j < after.len() && (#[trigger] after[i]).key@ == (
                        #[trigger] after[j]).key@ && after[i].value@ == after[j].value@ implies i == j by {
                        if i < n {
                            assert(after[i] == before[i]);
                            assert(!stands_for(before[i], t.0, t.1));
                        }
                        if j < n {
                            assert(after[j] == before[j]);
                            assert(!stands_for(before[j], t.0, t.1));
                        }
                    }
                    assert(held_by(after) =~= held_by(before).insert(t)) by {
                        assert forall|u: (Seq<char>, KeyView, u32)| held_by(before).contains(u)
                            implies held_by(after).contains(u) by {
                            let j = choose|j: int|
                                0 <= j < before.len() && stands_for(#[trigger] before[j], u.0, u.1)
                                    && bitmap::members(before[j].offsets).contains(u.2);
                            assert(stands_for(after[j], u.0, u.1));
                        }
                        assert forall|u: (Seq<char>, KeyView, u32)| held_by(after).contains(u) && u
                            != t implies held_by(before).contains(u) by {
                            let j = choose|j: int|
                                0 <= j < after.len() && stands_for(#[trigger] after[j], u.0, u.1)
                                    && bitmap::members(after[j].offsets).contains(u.2);
                            if j < n {
                                assert(stands_for(before[j], u.0, u.1));
                            }
                        }
                    }
                }
            },
        }
    }

    fn drop_pair(&mut self, key: &str, value: &ValueKey, offset: u32)
        requires
            old(self).wf(),
        ensures
            final(self).wf(),
            final(self)@.all == old(self)@.all,
            final(self)@.held == old(self)@.held.remove((key@, value@, offset)),
    {
        let ghost before = self.entries@;
        let ghost t = (key@, value@, offset);
        match self.find(key, value) {
            Some(i) => {
                self.entries[i].offsets.remove(offset);
                let ghost mid = self.entries@;
                proof {
                    assert(forall|j: int| 0 <= j < mid.len() && j != i ==> mid[j] == before[j]);
                    assert(held_by(mid) =~= held_by(before).remove(t)) by {
                        assert forall|u: (Seq<char>, KeyView, u32)| held_by(before).contains(u) && u
                            != t implies held_by(mid).contains(u) by {
                            let j = choose|j: int|
                                0 <= j < before.len() && stands_for(#[trigger] before[j], u.0, u.1)
                                    && bitmap::members(before[j].offsets).contains(u.2);
                            assert(stands_for(mid[j], u.0, u.1));
                        }
                        assert forall|u: (Seq<char>, KeyView, u32)| held_by(mid).contains(u)
                            implies held_by(before).contains(u) && u != t by {
                            let j = choose|j: int|
                                0 <= j < mid.len() && stands_for(#[trigger] mid[j], u.0, u.1)
                                    && bitmap::members(mid[j].offsets).contains(u.2);
                            assert(stands_for(before[j], u.0, u.1));
                            if u == t {
                                assert(before[j].key@ == before[i as int].key@);
                            }
                        }
                    }
                }
                if self.entries[i].offsets.is_empty() {
                    self.entries.remove(i);
                    proof {
                        let after = self.entries@;
                        assert(after =~= mid.remove(i as int));
                        assert(held_by(after) =~= held_by(mid)) by {
                            assert forall|u: (Seq<char>, KeyView, u32)| held_by(mid).contains(u)
                                implies held_by(after).contains(u) by {
                                let j = choose|j: int|
                                    0 <= j < mid.len() && stands_for(#[trigger] mid[j], u.0, u.1)
                                        && bitmap::members(mid[j].offsets).contains(u.2);
                                let k = if j < i {
                                    j
                                } else {
                                    j - 1
                                };
                                assert(j != i);
                                assert(after[k] == mid[j]);
                                assert(stands_for(after[k], u.0, u.1));
                            }
                            assert forall|u: (Seq<char>, KeyView, u32)| held_by(after).contains(u)
                                implies held_by(mid).contains(u) by {
                                let k = choose|k: int|
                                    0 <= k < after.len() && stands_for(#[trigger] after[k], u.0, u.1)
                                        && bitmap::members(after[k].offsets).contains(u.2);
                                let j = if k < i {
                                    k
                                } else {
                                    k + 1
                                };
                                assert(after[k] == mid[j]);
                                assert(stands_for(mid[j], u.0, u.1));
                            }
                        }
                        lemma_tidy_after_removal(before, after, i as int);
                    }
                } else {
                    proof {
                        lemma_tidy_after_change(before, mid, i as int);
                    }
                }
            },
            None => {
                proof {
                    assert(!held_by(before).contains(t));
                    assert(held_by(before).remove(t) =~= held_by(before));
                }
            },
        }
    }

    /// Indexes a record's metadata under its offset. A record without metadata
    /// is still counted among all records.
    pub fn insert(&mut self, offset: u32, metadata: Option<&Metadata>)
        requires
            old(self).wf(),
        ensures
            final(self).wf(),
            final(self)@.all == old(self)@.all.insert(offset),
            final(self)@.held == old(self)@.held.union(
                triples_of(
                    offset,
                    match metadata {
                        Some(m) => Some(m@),
                        None => None,
                    },
                ),
            ),
    {
        let ghost held = self@.held;
        self.all.insert(offset);
        match metadata {
            Some(m) => {
                let entries: &Vec<(String, MetadataValue)> = m.entries();
                let ghost done = self@;
                let mut i: usize = 0;
                assert(partial_triples(offset, entries@.take(0)) =~= Set::empty());
                assert(held.union(partial_triples(offset, entries@.take(0))) =~= held);
                while i < entries.len()
                    invariant
                        i <= entries.len(),
                        self.wf(),
                        self@.all == done.all,
                        self@.held == held.union(partial_triples(offset, entries@.take(i as int))),
                    decreases entries.len() - i,
                {
                    let vk: ValueKey = ValueKey::from_value(&entries[i].1);
                    let ghost t = (entries@[i as int].0@, vk@, offset);
                    self.add_pair(&entries[i].0, vk, offset);
                    proof {
                        lemma_partial_step(offset, entries@, i as int);
                        assert(held.union(partial_triples(offset, entries@.take(i as int))).insert(t)
                            =~= held.union(partial_triples(offset, entries@.take(i + 1))));
                    }
                    i += 1;
                }
                proof {
                    assert(entries@.take(entries@.len() as int) =~= entries@);
                    lemma_partial_whole(offset, entries@);
                }
            },
            None => {
                assert(held.union(triples_of(offset, None)) =~= held);
            },
        }
    }

    /// Takes a record's metadata and its offset out of the index. To be called
    /// with the metadata that the record was indexed with.
    pub fn remove(&mut self, offset: u32, metadata: Option<&Metadata>)
        requires
            old(self).wf(),
        ensures
            final(self).wf(),
            final(self)@.all == old(self)@.all.remove(offset),
            final(self)@.held == old(self)@.held.difference(
                triples_of(
                    offset,
                    match metadata {
                        Some(m) => Some(m@),
                        None => None,
                    },
                ),
            ),
    {
        let ghost held = self@.held;
        self.all.remove(offset);
        match metadata {
            Some(m) => {
                let entries: &Vec<(String, MetadataValue)> = m.entries();
                let ghost done = self@;
                let mut i: usize = 0;
                assert(partial_triples(offset, entries@.take(0)) =~= Set::empty());
                assert(held.difference(partial_triples(offset, entries@.take(0))) =~= held);
                while i < entries.len()
                    invariant
                        i <= entries.len(),
                        self.wf(),
                        self@.all == done.all,
                        self@.held == held.difference(
                            partial_triples(offset, entries@.take(i as int)),
                        ),
                    decreases entries.len() - i,
                {
                    let vk: ValueKey = ValueKey::from_value(&entries[i].1);
                    let ghost t = (entries@[i as int].0@, vk@, offset);
                    self.drop_pair(entries[i].0.as_str(), &vk, offset);
                    proof {
                        lemma_partial_step(offset, entries@, i as int);
                        assert(held.difference(partial_triples(offset, entries@.take(i as int))).remove(
                            t,
                        ) =~= held.difference(partial_triples(offset, entries@.take(i + 1))));
                    }
                    i += 1;
                }
                proof {
                    assert(entries@.take(entries@.len() as int) =~= entries@);
                    lemma_partial_whole(offset, entries@);
                }
            },
            None => {
                assert(held.difference(triples_of(offset, None)) =~= held);
            },
        }
    }

    /// Takes an offset out of every part of the index.
    pub fn remove_all(&mut self, offset: u32)
        requires
            old(self).wf(),
        ensures
            final(self).wf(),
            final(self)@.all == old(self)@.all.remove(offset),
            final(self)@.held == old(self)@.held.filter(
                |t: (Seq<char>, KeyView, u32)| t.2 != offset,
            ),
    {
        let ghost before = self.entries@;
        let ghost other = |t: (Seq<char>, KeyView, u32)| t.2 != offset;
        self.all.remove(offset);
        let mut i: usize = 0;
        // The entries before `i` are free of the offset, the others are as
        // they were.
        assert(held_by(before) =~= held_by(before).filter(other).union(held_by(before)));
        while i < self.entries.len()
            invariant
                i <= self.entries.len(),
                self.wf(),
                other == |t: (Seq<char>, KeyView, u32)| t.2 != offset,
                bitmap::members(self.all) == old(self)@.all.remove(offset),
                forall|j: int|
                    0 <= j < i ==> !bitmap::members((#[trigger] self.entries@[j]).offsets).contains(offset),
                held_by(self.entries@).filter(other) == held_by(before).filter(other),
            decreases self.entries.len() - i,
        {
            let ghost start = self.entries@;
            self.entries[i].offsets.remove(offset);
            let ghost mid = self.entries@;
            assert(forall|j: int| 0 <= j < mid.len() && j != i ==> mid[j] == start[j]);
            proof {
                assert(held_by(mid).filter(other) =~= held_by(start).filter(other)) by {
                    assert forall|u: (Seq<char>, KeyView, u32)| u.2 != offset implies held_by(
                        mid,
                    ).contains(u) == held_by(start).contains(u) by {
                        if held_by(start).contains(u) {
                            let j = choose|j: int|
                                0 <= j < start.len() && stands_for(#[trigger] start[j], u.0, u.1)
                                    && bitmap::members(start[j].offsets).contains(u.2);
                            assert(stands_for(mid[j], u.0, u.1));
                        }
                        if held_by(mid).contains(u) {
                            let j = choose|j: int|
                                0 <= j < mid.len() && stands_for(#[trigger] mid[j], u.0, u.1)
                                    && bitmap::members(mid[j].offsets).contains(u.2);
                            assert(stands_for(start[j], u.0, u.1));
                        }
                    }
                }
            }
            if self.entries[i].offsets.is_empty() {
                self.entries.remove(i);
                proof {
                    let after = self.entries@;
                    assert(after =~= mid.remove(i as int));
                    assert(held_by(after) =~= held_by(mid)) by {
                        assert forall|u: (Seq<char>, KeyView, u32)| held_by(mid).contains(u)
                            implies held_by(after).contains(u) by {
                            let j = choose|j: int|
                                0 <= j < mid.len() && stands_for(#[trigger] mid[j], u.0, u.1)
                                    && bitmap::members(mid[j].offsets).contains(u.2);
                            let k = if j < i {
                                j
                            } else {
                                j - 1
                            };
                            assert(j != i);
                            assert(after[k] == mid[j]);
                            assert(stands_for(after[k], u.0, u.1));
                        }
                        assert forall|u: (Seq<char>, KeyView, u32)| held_by(after).contains(u)
                            implies held_by(mid).contains(u) by {
                            let k = choose|k: int|
                                0 <= k < after.len() && stands_for(#[trigger] after[k], u.0, u.1)
                                    && bitmap::members(after[k].offsets).contains(u.2);
                            let j = if k < i {
                                k
                            } else {
                                k + 1
                            };
                            assert(after[k] == mid[j]);
                            assert(stands_for(mid[j], u.0, u.1));
                        }
                    }
                    lemma_tidy_after_removal(start, after, i as int);
                    assert forall|j: int| 0 <= j < i implies !bitmap::members(
                        (#[trigger] after[j]).offsets,
                    ).contains(offset) by {
                        assert(after[j] == start[j]);
                    }
                }
            } else {
                proof {
                    lemma_tidy_after_change(start, mid, i as int);
                    assert forall|j: int| 0 <= j < i + 1 implies !bitmap::members(
                        (#[trigger] mid[j]).offsets,
                    ).contains(offset) by {
                        if j < i {
                            assert(mid[j] == start[j]);
                        }
                    }
                }
                i += 1;
            }
        }
        proof {
            let after = self.entries@;
            assert(held_by(after) =~= held_by(after).filter(other)) by {
                assert forall|u: (Seq<char>, KeyView, u32)| held_by(after).contains(u) implies u.2
                    != offset by {
                    let j = choose|j: int|
                        0 <= j < after.len() && stands_for(#[trigger] after[j], u.0, u.1)
                            && bitmap::members(after[j].offsets).contains(u.2);
                }
            }
        }
    }

    /// Number of live records.
    pub fn len(&self) -> (r: usize)
        ensures
            self@.all.len() <= usize::MAX ==> r == self@.all.len(),
    {
        let n: u64 = self.all.len();
        if n <= usize::MAX as u64 {
            n as usize
        } else {
            usize::MAX
        }
    }

    /// Whether there are no live records.
    pub fn is_empty(&self) -> (r: bool)
        ensures
            r == (self@.all == Set::<u32>::empty()),
    {
        self.all.is_empty()
    }
}

proof fn lemma_tidy_after_removal(before: Seq<Posting>, after: Seq<Posting>, i: int)
    requires
        tidy(before),
        0 <= i < before.len(),
        after.len() == before.len() - 1,
        forall|j: int| 0 <= j < i ==> #[trigger] after[j] == before[j],
        forall|j: int| i <= j < after.len() ==> #[trigger] after[j] == before[j + 1],
    ensures
        tidy(after),
{
    assert forall|a: int, b: int|
        0 <= a < after.len() && 0 <= b < after.len() && (#[trigger] after[a]).key@ == (
        #[trigger] after[b]).key@ && after[a].value@ == after[b].value@ implies a == b by {
        let ja = if a < i {
            a
        } else {
            a + 1
        };
        let jb = if b < i {
            b
        } else {
            b + 1
        };
        assert(after[a] == before[ja] && after[b] == before[jb]);
    }
    assert forall|a: int| 0 <= a < after.len() implies bitmap::members(
        (#[trigger] after[a]).offsets,
    ) != Set::<u32>::empty() by {
        let ja = if a < i {
            a
        } else {
            a + 1
        };
        assert(after[a] == before[ja]);
    }
}

proof fn lemma_tidy_after_change(before: Seq<Posting>, after: Seq<Posting>, i: int)
    requires
        tidy(before),
        0 <= i < before.len(),
        after.len() == before.len(),
        forall|j: int| 0 <= j < after.len() && j != i ==> #[trigger] after[j] == before[j],
        after[i].key == before[i].key,
        after[i].value == before[i].value,
        bitmap::members(after[i].offsets) != Set::<u32>::empty(),
    ensures
        tidy(after),
{
    assert forall|a: int, b: int|
        0 <= a < after.len() && 0 <= b < after.len() && (#[trigger] after[a]).key@ == (
        #[trigger] after[b]).key@ && after[a].value@ == after[b].value@ implies a == b by {
        assert(before[a].key@ == after[a].key@ && before[b].key@ == after[b].key@);
        assert(before[a].value@ == after[a].value@ && before[b].value@ == after[b].value@);
    }
    assert forall|a: int| 0 <= a < after.len() implies bitmap::members(
        (#[trigger] after[a]).offsets,
    ) != Set::<u32>::empty() by {
        assert(before[a].key@ == after[a].key@);
    }
}

/// The triples of the first entries of a record's metadata.
spec fn partial_triples(offset: u32, entries: Seq<(String, MetadataValue)>) -> Set<
    (Seq<char>, KeyView, u32),
> {
    Set::new(
        |t: (Seq<char>, KeyView, u32)|
            t.2 == offset && exists|i: int|
                0 <= i < entries.len() && (#[trigger] entries[i]).0@ == t.0 && key_of(entries[i].1@) == t.1,
    )
}

proof fn lemma_partial_step(offset: u32, entries: Seq<(String, MetadataValue)>, i: int)
    requires
        0 <= i < entries.len(),
    ensures
        partial_triples(offset, entries.take(i + 1)) == partial_triples(offset, entries.take(i)).insert(
            (entries[i].0@, key_of(entries[i].1@), offset),
        ),
{
    let t = (entries[i].0@, key_of(entries[i].1@), offset);
    let small = partial_triples(offset, entries.take(i));
    let large = partial_triples(offset, entries.take(i + 1));
    assert forall|u: (Seq<char>, KeyView, u32)| large.contains(u) implies small.insert(t).contains(u) by {
        let j = choose|j: int|
            0 <= j < i + 1 && (#[trigger] entries.take(i + 1)[j]).0@ == u.0 && key_of(
                entries.take(i + 1)[j].1@,
            ) == u.1;
        if j < i {
            assert(entries.take(i)[j] == entries.take(i + 1)[j]);
        }
    }
    assert forall|u: (Seq<char>, KeyView, u32)| small.insert(t).contains(u) implies large.contains(u) by {
        if u == t {
            assert(entries.take(i + 1)[i].0@ == u.0);
        } else {
            let j = choose|j: int|
                0 <= j < i && (#[trigger] entries.take(i)[j]).0@ == u.0 && key_of(
                    entries.take(i)[j].1@,
                ) == u.1;
            assert(entries.take(i + 1)[j] == entries.take(i)[j]);
        }
    }
    assert(large =~= small.insert(t));
}

proof fn lemma_partial_whole(offset: u32, entries: Seq<(String, MetadataValue)>)
    requires
        types::keys_distinct(entries),
    ensures
        partial_triples(offset, entries) == triples_of(offset, Some(types::entries_map(entries))),
{
    let m = types::entries_map(entries);
    assert forall|u: (Seq<char>, KeyView, u32)| partial_triples(offset, entries).contains(u) implies triples_of(
        offset,
        Some(m),
    ).contains(u) by {
        let j = choose|j: int|
            0 <= j < entries.len() && (#[trigger] entries[j]).0@ == u.0 && key_of(entries[j].1@) == u.1;
        types::lemma_entry(entries, j);
    }
    assert forall|u: (Seq<char>, KeyView, u32)| triples_of(offset, Some(m)).contains(u) implies partial_triples(
        offset,
        entries,
    ).contains(u) by {
        let j = types::place_of(entries, u.0);
        assert(types::has_key(entries, u.0));
        assert(entries[j].0@ == u.0);
        types::lemma_entry(entries, j);
    }
    assert(partial_triples(offset, entries) =~= triples_of(offset, Some(m)));
}

// ---------------------------------------------------------------------------
// Evaluation
// ---------------------------------------------------------------------------

/// Whether an offset stands under a name with a value that passes a comparison.
pub open spec fn passing(p: IndexView, key: Seq<char>, op: OpView, o: u32) -> bool {
    exists|k: KeyView| passes(k, op) && #[trigger] p.held.contains((key, k, o))
}

/// Whether an offset stands under a name with any value.
pub open spec fn carries(p: IndexView, key: Seq<char>, o: u32) -> bool {
    exists|k: KeyView| #[trigger] p.held.contains((key, k, o))
}

/// Whether an offset is among those that a comparison finds.
pub open spec fn op_hits(p: IndexView, key: Seq<char>, op: OpView, o: u32) -> bool {
    match op {
        OpView::Ne(_) => carries(p, key, o) && !passing(p, key, op, o),
        OpView::Nin(_) => p.all.contains(o) && !passing(p, key, op, o),
        _ => passing(p, key, op, o),
    }
}

/// Whether an offset is among those that a filter tree finds. A conjunction of
/// nothing finds every record.
pub open spec fn cond_hits(p: IndexView, c: CondView, o: u32) -> bool
    decreases c,
{
    match c {
        CondView::Comparison { key, op } => op_hits(p, key, op, o),
        CondView::And(cs) => if cs.len() == 0 {
            p.all.contains(o)
        } else {
            forall|i: int| 0 <= i < cs.len() ==> cond_hits(p, #[trigger] cs[i], o)
        },
        CondView::Or(cs) => exists|i: int| 0 <= i < cs.len() && cond_hits(p, #[trigger] cs[i], o),
    }
}

proof fn lemma_lists_hit_by_members(p: IndexView, cs: Seq<CondView>, o: u32)
    ensures
        cs.len() > 0 ==> (cond_hits(p, CondView::And(cs), o) <==> forall|i: int|
            0 <= i < cs.len() ==> cond_hits(p, #[trigger] cs[i], o)),
        cond_hits(p, CondView::Or(cs), o) <==> exists|i: int|
            0 <= i < cs.len() && cond_hits(p, #[trigger] cs[i], o),
{
    let all = CondView::And(cs);
    if cond_hits(p, all, o) && cs.len() > 0 {
        assert forall|i: int| 0 <= i < cs.len() implies cond_hits(p, #[trigger] cs[i], o) by {
            assert(all->And_0[i] == cs[i]);
        }
    }
    if cs.len() > 0 && forall|i: int| 0 <= i < cs.len() ==> cond_hits(p, #[trigger] cs[i], o) {
        assert(cond_hits(p, all, o));
    }
    let one = CondView::Or(cs);
    if cond_hits(p, one, o) {
        assert(exists|i: int| 0 <= i < cs.len() && cond_hits(p, #[trigger] cs[i], o));
    }
    if exists|i: int| 0 <= i < cs.len() && cond_hits(p, #[trigger] cs[i], o) {
        let i = choose|i: int| 0 <= i < cs.len() && cond_hits(p, #[trigger] cs[i], o);
        assert(cond_hits(p, one->Or_0[i], o));
        assert(cond_hits(p, one, o));
    }
}

impl Postings {
    /// The offsets that carry a name with any value.
    fn key_present(&self, key: &str) -> (r: RoaringBitmap)
        requires
            self.wf(),
        ensures
            forall|o: u32| bitmap::members(r).contains(o) <==> #[trigger] carries(self@, key@, o),
    {
        let mut out: RoaringBitmap = RoaringBitmap::new();
        let mut i: usize = 0;
        while i < self.entries.len()
            invariant
                i <= self.entries.len(),
                forall|o: u32|
                    bitmap::members(out).contains(o) <==> exists|j: int|
                        0 <= j < i && (#[trigger] self.entries@[j]).key@ == key@ && bitmap::members(
                            self.entries@[j].offsets,
                        ).contains(o),
            decreases self.entries.len() - i,
        {
            let ghost before = bitmap::members(out);
            if same_text(self.entries[i].key.as_str(), key) {
                unite(&mut out, &self.entries[i].offsets);
            }
            proof {
                assert forall|o: u32|
                    bitmap::members(out).contains(o) <==> exists|j: int|
                        0 <= j < i + 1 && (#[trigger] self.entries@[j]).key@ == key@ && bitmap::members(
                            self.entries@[j].offsets,
                        ).contains(o) by {
                    if bitmap::members(out).contains(o) && !before.contains(o) {
                        assert(self.entries@[i as int].key@ == key@);
                    }
                }
            }
            i += 1;
        }
        proof {
            assert forall|o: u32| bitmap::members(out).contains(o) <==> #[trigger] carries(
                self@,
                key@,
                o,
            ) by {
                if bitmap::members(out).contains(o) {
                    let j = choose|j: int|
                        0 <= j < self.entries@.len() && (#[trigger] self.entries@[j]).key@ == key@
                            && bitmap::members(self.entries@[j].offsets).contains(o);
                    let k = self.entries@[j].value@;
                    assert(stands_for(self.entries@[j], key@, k));
                    assert(self@.held.contains((key@, k, o)));
                }
                if carries(self@, key@, o) {
                    let k = choose|k: KeyView| #[trigger] self@.held.contains((key@, k, o));
                    let j = choose|j: int|
                        0 <= j < self.entries@.len() && stands_for(#[trigger] self.entries@[j], key@, k)
                            && bitmap::members(self.entries@[j].offsets).contains(o);
                    assert(self.entries@[j].key@ == key@);
                }
            }
        }
        out
    }

    /// The offsets under a name with a value that passes a comparison.
    fn key_passing(&self, key: &str, op: &ComparisonOp) -> (r: RoaringBitmap)
        requires
            self.wf(),
        ensures
            forall|o: u32| bitmap::members(r).contains(o) <==> #[trigger] passing(self@, key@, op@, o),
    {
        let mut out: RoaringBitmap = RoaringBitmap::new();
        let mut i: usize = 0;
        while i < self.entries.len()
            invariant
                i <= self.entries.len(),
                forall|o: u32|
                    bitmap::members(out).contains(o) <==> exists|j: int|
                        0 <= j < i && within(#[trigger] self.entries@[j], key@, op@) && bitmap::members(
                            self.entries@[j].offsets,
                        ).contains(o),
            decreases self.entries.len() - i,
        {
            let ghost before = bitmap::members(out);
            if same_text(self.entries[i].key.as_str(), key) && self.entries[i].value.passes_op(op) {
                unite(&mut out, &self.entries[i].offsets);
                assert(within(self.entries@[i as int], key@, op@));
            } else {
                assert(!within(self.entries@[i as int], key@, op@));
            }
            proof {
                assert forall|o: u32|
                    bitmap::members(out).contains(o) <==> exists|j: int|
                        0 <= j < i + 1 && within(#[trigger] self.entries@[j], key@, op@)
                            && bitmap::members(self.entries@[j].offsets).contains(o) by {
                    if bitmap::members(out).contains(o) && !before.contains(o) {
                        assert(within(self.entries@[i as int], key@, op@));
                    }
                }
            }
            i += 1;
        }
        proof {
            assert forall|o: u32| bitmap::members(out).contains(o) <==> #[trigger] passing(
                self@,
                key@,
                op@,
                o,
            ) by {
                if bitmap::members(out).contains(o) {
                    let j = choose|j: int|
                        0 <= j < self.entries@.len() && within(#[trigger] self.entries@[j], key@, op@)
                            && bitmap::members(self.entries@[j].offsets).contains(o);
                    let k = self.entries@[j].value@;
                    assert(stands_for(self.entries@[j], key@, k));
                    assert(self@.held.contains((key@, k, o)));
                }
                if passing(self@, key@, op@, o) {
                    let k = choose|k: KeyView| passes(k, op@) && #[trigger] self@.held.contains((key@, k, o));
                    let j = choose|j: int|
                        0 <= j < self.entries@.len() && stands_for(#[trigger] self.entries@[j], key@, k)
                            && bitmap::members(self.entries@[j].offsets).contains(o);
                    assert(within(self.entries@[j], key@, op@));
                }
            }
        }
        out
    }

    fn eval_op(&self, key: &str, op: &ComparisonOp) -> (r: RoaringBitmap)
        requires
            self.wf(),
        ensures
            forall|o: u32| bitmap::members(r).contains(o) <==> #[trigger] op_hits(self@, key@, op@, o),
    {
        let found: RoaringBitmap = self.key_passing(key, op);
        let mut out: RoaringBitmap = match op {
            ComparisonOp::Ne(_) => self.key_present(key),
            ComparisonOp::Nin(_) => copied(&self.all),
            _ => {
                return found;
            },
        };
        subtract(&mut out, &found);
        proof {
            assert forall|o: u32| bitmap::members(out).contains(o) <==> #[trigger] op_hits(
                self@,
                key@,
                op@,
                o,
            ) by {
                assert(carries(self@, key@, o) || !carries(self@, key@, o));
                assert(passing(self@, key@, op@, o) || !passing(self@, key@, op@, o));
            }
        }
        out
    }

    #[verifier::loop_isolation(false)]
    fn eval_condition(&self, cond: &WhereCondition) -> (r: RoaringBitmap)
        requires
            self.wf(),
        ensures
            forall|o: u32| bitmap::members(r).contains(o) <==> #[trigger] cond_hits(self@, cond@, o),
        decreases cond,
    {
        match cond {
            WhereCondition::Comparison { key, op } => {
                let r: RoaringBitmap = self.eval_op(key.as_str(), op);
                proof {
                    assert forall|o: u32| bitmap::members(r).contains(o) <==> #[trigger] cond_hits(
                        self@,
                        cond@,
                        o,
                    ) by {
                        assert(cond_hits(self@, cond@, o) == op_hits(self@, key@, op@, o));
                    }
                }
                r
            },
            WhereCondition::And(conds) => {
                let ghost views = filter::cond_views(conds@);
                proof {
                    filter::lemma_list_view(*conds);
                }
                if conds.len() == 0 {
                    let r: RoaringBitmap = copied(&self.all);
                    assert(views.len() == 0);
                    return r;
                }
                let mut out: RoaringBitmap = self.eval_condition(&conds[0]);
                let mut i: usize = 1;
                assert(views[0] == conds@[0]@);
                while i < conds.len()
                    invariant
                        1 <= i <= conds.len(),
                        self.wf(),
                        *cond == WhereCondition::And(*conds),
                        views == filter::cond_views(conds@),
                        forall|o: u32|
                            bitmap::members(out).contains(o) <==> forall|j: int|
                                0 <= j < i ==> cond_hits(self@, #[trigger] views[j], o),
                    decreases conds.len() - i,
                {
                    let ghost before = bitmap::members(out);
                    let next: RoaringBitmap = self.eval_condition(&conds[i]);
                    intersect(&mut out, &next);
                    proof {
                        assert(views[i as int] == conds@[i as int]@);
                        assert forall|o: u32|
                            bitmap::members(out).contains(o) <==> forall|j: int|
                                0 <= j < i + 1 ==> cond_hits(self@, #[trigger] views[j], o) by {
                            assert(bitmap::members(next).contains(o) <==> cond_hits(
                                self@,
                                views[i as int],
                                o,
                            ));
                        }
                    }
                    i += 1;
                }
                proof {
                    assert forall|o: u32| bitmap::members(out).contains(o) <==> #[trigger] cond_hits(
                        self@,
                        cond@,
                        o,
                    ) by {
                        lemma_lists_hit_by_members(self@, views, o);
                    }
                }
                out
            },
            WhereCondition::Or(conds) => {
                let ghost views = filter::cond_views(conds@);
                proof {
                    filter::lemma_list_view(*conds);
                }
                let mut out: RoaringBitmap = RoaringBitmap::new();
                let mut i: usize = 0;
                while i < conds.len()
                    invariant
                        i <= conds.len(),
                        self.wf(),
                        *cond == WhereCondition::Or(*conds),
                        views == filter::cond_views(conds@),
                        forall|o: u32|
                            bitmap::members(out).contains(o) <==> exists|j: int|
                                0 <= j < i && cond_hits(self@, #[trigger] views[j], o),
                    decreases conds.len() - i,
                {
                    let ghost before = bitmap::members(out);
                    let next: RoaringBitmap = self.eval_condition(&conds[i]);
                    unite(&mut out, &next);
                    proof {
                        assert(views[i as int] == conds@[i as int]@);
                        assert forall|o: u32|
                            bitmap::members(out).contains(o) <==> exists|j: int|
                                0 <= j < i + 1 && cond_hits(self@, #[trigger] views[j], o) by {
                            assert(bitmap::members(next).contains(o) <==> cond_hits(
                                self@,
                                views[i as int],
                                o,
                            ));
                        }
                    }
                    i += 1;
                }
                proof {
                    assert forall|o: u32| bitmap::members(out).contains(o) <==> #[trigger] cond_hits(
                        self@,
                        cond@,
                        o,
                    ) by {
                        lemma_lists_hit_by_members(self@, views, o);
                    }
                }
                out
            },
        }
    }

    /// The offsets of the records that a filter finds.
    pub fn evaluate(&self, filter: &WhereFilter) -> (r: RoaringBitmap)
        requires
            self.wf(),
        ensures
            forall|o: u32| bitmap::members(r).contains(o) <==> #[trigger] cond_hits(self@, filter@, o),
    {
        self.eval_condition(&filter.condition)
    }
}

/// Whether an entry stands for the name and a value that passes a comparison.
spec fn within(p: Posting, key: Seq<char>, op: OpView) -> bool {
    p.key@ == key && passes(p.value@, op)
}

// ---------------------------------------------------------------------------
// Agreement with the records
// ---------------------------------------------------------------------------

/// The metadata of the live records by their offsets.
pub type Store = Map<u32, Option<Map<Seq<char>, MetaView>>>;

/// What a record without metadata is matched as.
pub open spec fn matched_as(m: Option<Map<Seq<char>, MetaView>>) -> Map<Seq<char>, MetaView> {
    match m {
        Some(m) => m,
        None => Map::empty(),
    }
}

/// Whether an index holds exactly the metadata of the given records.
pub open spec fn mirrors(p: IndexView, store: Store) -> bool {
    &&& p.all == store.dom()
    &&& forall|t: (Seq<char>, KeyView, u32)|
        #[trigger] p.held.contains(t) <==> store.contains_key(t.2) && triples_of(t.2, store[t.2]).contains(t)
}

/// The canonical form of a value names just the values that equal it.
pub proof fn keys_name_equal_values(a: MetaView, b: MetaView)
    ensures
        names(key_of(a), b) == a.same(b),
{
    if let MetaView::Int(i) = a {
        num::integers_convert_to_numbers(i);
    }
    if let MetaView::Int(j) = b {
        num::integers_convert_to_numbers(j);
        if let MetaView::Int(i) = a {
            if -SHARED < i < SHARED && i != j {
                num::small_integers_stand_alone(i, j);
            }
        }
    }
}

/// Text, truth values, integers below 53 bits and doubles that are numbers have
/// one canonical form just when they are equal.
pub proof fn ordinary_values_are_told_apart(a: MetaView, b: MetaView)
    requires
        ordinary(a),
        ordinary(b),
    ensures
        (key_of(a) == key_of(b)) == a.same(b),
{
    if let MetaView::Int(i) = a {
        num::integers_convert_to_numbers(i);
    }
    if let MetaView::Int(j) = b {
        num::integers_convert_to_numbers(j);
        if let MetaView::Int(i) = a {
            if i != j {
                num::small_integers_stand_alone(i, j);
            }
        }
    }
}

/// Whether a value is text, a truth value, an integer below 53 bits or a double
/// that is a number.
pub open spec fn ordinary(v: MetaView) -> bool {
    match v {
        MetaView::Int(i) => -SHARED < i < SHARED,
        MetaView::Float(f) => !f.nan(),
        _ => true,
    }
}

/// The canonical form of a value passes a comparison just when the value does.
proof fn lemma_key_passes(v: MetaView, op: OpView)
    ensures
        passes(key_of(v), op) == (match op {
            OpView::Eq(w) => v.same(w),
            OpView::Ne(w) => v.same(w),
            OpView::Gt(n) => v.number() matches Some(a) && n.less(a),
            OpView::Gte(n) => v.number() matches Some(a) && (n.less(a) || n.equals(a)),
            OpView::Lt(n) => v.number() matches Some(a) && a.less(n),
            OpView::Lte(n) => v.number() matches Some(a) && (a.less(n) || a.equals(n)),
            OpView::In(ws) => filter::among(v, ws),
            OpView::Nin(ws) => filter::among(v, ws),
        }),
{
    if let MetaView::Int(i) = v {
        num::integers_convert_to_numbers(i);
    }
    match op {
        OpView::Eq(w) => {
            keys_name_equal_values(v, w);
        },
        OpView::Ne(w) => {
            keys_name_equal_values(v, w);
        },
        OpView::In(ws) => {
            lemma_key_names_one(v, ws);
        },
        OpView::Nin(ws) => {
            lemma_key_names_one(v, ws);
        },
        _ => {},
    }
}

proof fn lemma_key_names_one(v: MetaView, ws: Seq<MetaView>)
    ensures
        names_one(key_of(v), ws) == filter::among(v, ws),
{
    assert forall|i: int| 0 <= i < ws.len() implies names(key_of(v), #[trigger] ws[i]) == v.same(ws[i]) by {
        keys_name_equal_values(v, ws[i]);
    }
    if names_one(key_of(v), ws) {
        let i = choose|i: int| 0 <= i < ws.len() && names(key_of(v), #[trigger] ws[i]);
        assert(v.same(ws[i]));
    }
}

proof fn lemma_held_under(p: IndexView, store: Store, key: Seq<char>, k: KeyView, o: u32)
    requires
        mirrors(p, store),
    ensures
        p.held.contains((key, k, o)) <==> store.contains_key(o) && matched_as(store[o]).contains_key(key)
            && key_of(matched_as(store[o])[key]) == k,
{
    let t = (key, k, o);
    assert(p.held.contains(t) <==> store.contains_key(t.2) && triples_of(t.2, store[t.2]).contains(t));
}

proof fn lemma_op_agrees(p: IndexView, store: Store, key: Seq<char>, op: OpView, o: u32)
    requires
        mirrors(p, store),
    ensures
        op_hits(p, key, op, o) <==> store.contains_key(o) && filter::op_matches(
            key,
            op,
            matched_as(store[o]),
        ),
{
    let m = matched_as(store[o]);
    let there = store.contains_key(o) && m.contains_key(key);
    let v = m[key];
    lemma_held_under(p, store, key, key_of(v), o);
    if there {
        assert(p.held.contains((key, key_of(v), o)));
    }
    assert(carries(p, key, o) ==> there) by {
        if carries(p, key, o) {
            let k = choose|k: KeyView| #[trigger] p.held.contains((key, k, o));
            lemma_held_under(p, store, key, k, o);
        }
    }
    assert(passing(p, key, op, o) <==> there && passes(key_of(v), op)) by {
        if passing(p, key, op, o) {
            let k = choose|k: KeyView| passes(k, op) && #[trigger] p.held.contains((key, k, o));
            lemma_held_under(p, store, key, k, o);
        }
    }
    lemma_key_passes(v, op);
}

/// Evaluating a filter on an index of the records finds exactly the records
/// whose metadata the filter matches.
pub proof fn evaluation_agrees_with_matching(p: IndexView, store: Store, c: CondView, o: u32)
    requires
        mirrors(p, store),
    ensures
        cond_hits(p, c, o) <==> store.contains_key(o) && filter::cond_matches(c, matched_as(store[o])),
    decreases c,
{
    let m = matched_as(store[o]);
    match c {
        CondView::Comparison { key, op } => {
            lemma_op_agrees(p, store, key, op, o);
        },
        CondView::And(cs) => {
            assert forall|i: int| 0 <= i < cs.len() implies cond_hits(p, #[trigger] cs[i], o) == (
            store.contains_key(o) && filter::cond_matches(cs[i], m)) by {
                assert(c->And_0[i] == cs[i]);
                evaluation_agrees_with_matching(p, store, cs[i], o);
            }
            filter::lists_match_by_members(cs, m);
            if cs.len() > 0 {
                lemma_lists_hit_by_members(p, cs, o);
                if cond_hits(p, c, o) {
                    assert(cond_hits(p, cs[0], o));
                }
            }
        },
        CondView::Or(cs) => {
            assert forall|i: int| 0 <= i < cs.len() implies cond_hits(p, #[trigger] cs[i], o) == (
            store.contains_key(o) && filter::cond_matches(cs[i], m)) by {
                assert(c->Or_0[i] == cs[i]);
                evaluation_agrees_with_matching(p, store, cs[i], o);
            }
            filter::lists_match_by_members(cs, m);
            lemma_lists_hit_by_members(p, cs, o);
            if cond_hits(p, c, o) {
                let i = choose|i: int| 0 <= i < cs.len() && cond_hits(p, #[trigger] cs[i], o);
                assert(filter::cond_matches(cs[i], m));
            }
            if store.contains_key(o) && filter::cond_matches(c, m) {
                let i = choose|i: int| 0 <= i < cs.len() && filter::cond_matches(#[trigger] cs[i], m);
                assert(cond_hits(p, cs[i], o));
            }
        },
    }
}

/// Indexing a record under a fresh offset adds it to the records mirrored.
pub proof fn insertion_mirrors_new_record(
    p: IndexView,
    store: Store,
    offset: u32,
    m: Option<Map<Seq<char>, MetaView>>,
)
    requires
        mirrors(p, store),
        !store.contains_key(offset),
    ensures
        mirrors(
            IndexView { all: p.all.insert(offset), held: p.held.union(triples_of(offset, m)) },
            store.insert(offset, m),
        ),
{
    let q = IndexView { all: p.all.insert(offset), held: p.held.union(triples_of(offset, m)) };
    let s = store.insert(offset, m);
    assert(q.all =~= s.dom());
    assert forall|t: (Seq<char>, KeyView, u32)|
        #[trigger] q.held.contains(t) <==> s.contains_key(t.2) && triples_of(t.2, s[t.2]).contains(t) by {
        if t.2 == offset {
            assert(!p.held.contains(t));
        } else {
            assert(p.held.contains(t) <==> store.contains_key(t.2) && triples_of(t.2, store[t.2]).contains(t));
        }
    }
}

/// Taking a record's metadata out of the index takes the record out of those
/// mirrored.
pub proof fn removal_mirrors_absence(
    p: IndexView,
    store: Store,
    offset: u32,
    m: Option<Map<Seq<char>, MetaView>>,
)
    requires
        mirrors(p, store),
        store.contains_key(offset) ==> triples_of(offset, m) == triples_of(offset, store[offset]),
    ensures
        mirrors(
            IndexView { all: p.all.remove(offset), held: p.held.difference(triples_of(offset, m)) },
            store.remove(offset),
        ),
{
    let q = IndexView { all: p.all.remove(offset), held: p.held.difference(triples_of(offset, m)) };
    let s = store.remove(offset);
    assert(q.all =~= s.dom());
    assert forall|t: (Seq<char>, KeyView, u32)|
        #[trigger] q.held.contains(t) <==> s.contains_key(t.2) && triples_of(t.2, s[t.2]).contains(t) by {
        assert(p.held.contains(t) <==> store.contains_key(t.2) && triples_of(t.2, store[t.2]).contains(t));
    }
}

/// Taking an offset out of every part of the index takes the record out of
/// those mirrored, whatever it carried.
pub proof fn full_removal_mirrors_absence(p: IndexView, store: Store, offset: u32)
    requires
        mirrors(p, store),
    ensures
        mirrors(
            IndexView {
                all: p.all.remove(offset),
                held: p.held.filter(|t: (Seq<char>, KeyView, u32)| t.2 != offset),
            },
            store.remove(offset),
        ),
{
    let q = IndexView {
        all: p.all.remove(offset),
        held: p.held.filter(|t: (Seq<char>, KeyView, u32)| t.2 != offset),
    };
    let s = store.remove(offset);
    assert(q.all =~= s.dom());
    assert forall|t: (Seq<char>, KeyView, u32)|
        #[trigger] q.held.contains(t) <==> s.contains_key(t.2) && triples_of(t.2, s[t.2]).contains(t) by {
        assert(p.held.contains(t) <==> store.contains_key(t.2) && triples_of(t.2, store[t.2]).contains(t));
    }
}

/// Metadata that is the same name by name and value by value is indexed the
/// same way.
pub proof fn same_metadata_is_indexed_alike(
    offset: u32,
    a: Map<Seq<char>, MetaView>,
    b: Map<Seq<char>, MetaView>,
)
    requires
        types::same_metadata(a, b),
    ensures
        triples_of(offset, Some(a)) == triples_of(offset, Some(b)),
{
    assert forall|k: Seq<char>| a.contains_key(k) implies key_of(a[k]) == key_of(#[trigger] b[k]) by {
        assert(a[k].alike(b[k]));
    }
    assert(triples_of(offset, Some(a)) =~= triples_of(offset, Some(b))) by {
        assert forall|t: (Seq<char>, KeyView, u32)| triples_of(offset, Some(a)).contains(t) == triples_of(
            offset,
            Some(b),
        ).contains(t) by {
            assert(a.dom().contains(t.0) == b.dom().contains(t.0));
            if a.contains_key(t.0) {
                assert(key_of(a[t.0]) == key_of(b[t.0]));
            }
        }
    }
}

} // verus!
