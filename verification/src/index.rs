//! Bookkeeping of the graph index: which record has which label in the graph.
//!
//! Ids map to labels that are handed out in ascending order and never used
//! twice, so that a label left behind in the graph can never be taken for
//! another record. The graph itself is the caller's: each step here says what
//! is to be done to it.

use std::collections::HashMap;

use vstd::prelude::*;
use vstd::string::*;

use crate::idmap;
use crate::idmap::IdMap;
use crate::num::F32;
use crate::text;
use crate::text::{around, decimal, same_text};
use crate::types;
use crate::types::{Distance, Id};

verus! {

broadcast use vstd::std_specs::hash::group_hash_axioms;

/// One search hit: a record and its distance, lower is closer.
#[derive(Debug, PartialEq)]
pub struct IndexHit {
    pub id: Id,
    pub distance: F32,
}

/// Errors of the index.
#[derive(Debug, PartialEq)]
pub enum IndexError {
    /// The graph failed, with this message.
    Graph(String),
    /// A vector has another length than the index.
    DimensionMismatch { index: usize, got: usize },
    /// The id is already indexed.
    DuplicateId(String),
    /// The saved index was built for another distance space.
    SpaceMismatch { saved: String, expected: Distance },
    /// The saved index was built for another dimension.
    SavedDimensionMismatch { saved: usize, expected: usize },
    /// The saved labels are not as many as the vectors of the graph.
    LabelCountMismatch { labels: usize, vectors: usize },
    /// The saved labels contradict each other.
    LabelsInconsistent,
}

/// The labels that a saved graph is read with.
#[derive(Debug)]
pub struct IndexMeta {
    /// Id of each record with its label.
    pub labels: Vec<(Id, u64)>,
    /// The next label to hand out.
    pub next_label: u64,
    /// Name of the distance space of the index.
    pub space: String,
    /// Dimension of the index.
    pub dimension: usize,
}

/// The labels of an index as a mathematical value.
pub struct LabelsView {
    pub labels: Map<Seq<char>, u64>,
    pub next_label: u64,
    pub space: Distance,
    pub dimension: usize,
}

/// The labels of an index: ids to labels and back.
pub struct LabelMap {
    space: Distance,
    dimension: usize,
    labels: IdMap<u64>,
    ids: HashMap<u64, String>,
    next_label: u64,
}

impl View for LabelMap {
    type V = LabelsView;

    closed spec fn view(&self) -> LabelsView {
        LabelsView {
            labels: self.labels@,
            next_label: self.next_label,
            space: self.space,
            dimension: self.dimension,
        }
    }
}

/// Whether no two ids share a label, and all labels were handed out.
pub open spec fn labels_distinct(v: LabelsView) -> bool {
    &&& forall|a: Seq<char>, b: Seq<char>|
        #![trigger v.labels[a], v.labels[b]]
        v.labels.contains_key(a) && v.labels.contains_key(b) && v.labels[a] == v.labels[b] ==> a == b
    &&& forall|a: Seq<char>| #[trigger] v.labels.contains_key(a) ==> v.labels[a] < v.next_label
}

impl LabelMap {
    /// Whether both directions agree and no label was given twice.
    pub closed spec fn wf(self) -> bool {
        &&& self.labels.wf()
        &&& labels_distinct(self@)
        &&& forall|a: Seq<char>|
            #[trigger] self.labels@.contains_key(a) ==> self.ids@.contains_key(self.labels@[a])
                && self.ids@[self.labels@[a]]@ == a
        &&& forall|l: u64|
            #[trigger] self.ids@.contains_key(l) ==> self.labels@.contains_key(self.ids@[l]@)
                && self.labels@[self.ids@[l]@] == l
    }

    /// The labels of an empty index.
    pub fn new(space: Distance, dimension: usize) -> (m: LabelMap)
        ensures
            m.wf(),
            m@.labels == Map::<Seq<char>, u64>::empty(),
            m@.next_label == 0,
            m@.space == space,
            m@.dimension == dimension,
    {
        LabelMap { space, dimension, labels: IdMap::new(), ids: HashMap::new(), next_label: 0 }
    }

    /// The labels of an index are always distinct.
    pub proof fn lemma_distinct(&self)
        requires
            self.wf(),
        ensures
            labels_distinct(self@),
    {
    }

    /// Takes over the dimension of vectors once it is known.
    pub fn set_dimension(&mut self, dimension: usize)
        requires
            old(self).wf(),
        ensures
            final(self).wf(),
            final(self)@ == (LabelsView { dimension, ..old(self)@ }),
    {
        self.dimension = dimension;
    }

    /// The label that the next record gets.
    pub fn next_label(&self) -> (r: u64)
        ensures
            r == self@.next_label,
    {
        self.next_label
    }

    /// Gives a record the next label, under which its vector is to be put into
    /// the graph.
    pub fn add(&mut self, id: &str, got: usize) -> (r: Result<u64, IndexError>)
        requires
            old(self).wf(),
            old(self)@.next_label < u64::MAX,
        ensures
            final(self).wf(),
            got != old(self)@.dimension ==> final(self)@ == old(self)@ && (r matches Err(
                IndexError::DimensionMismatch { index: i, got: g },
            ) && i == old(self)@.dimension && g == got),
            got == old(self)@.dimension && old(self)@.labels.contains_key(id@) ==> final(self)@ == old(
                self,
            )@ && (r matches Err(IndexError::DuplicateId(s)) && s@ == id@),
            got == old(self)@.dimension && !old(self)@.labels.contains_key(id@) ==> {
                &&& r matches Ok(l) && l == old(self)@.next_label
                &&& final(self)@ == (LabelsView {
                    labels: old(self)@.labels.insert(id@, old(self)@.next_label),
                    next_label: (old(self)@.next_label + 1) as u64,
                    ..old(self)@
                })
            },
    {
        if got != self.dimension {
            return Err(IndexError::DimensionMismatch { index: self.dimension, got });
        }
        if self.labels.contains_key(id) {
            return Err(IndexError::DuplicateId(id.to_owned()));
        }
        let label: u64 = self.next_label;
        self.next_label = label + 1;
        self.labels.insert(id.to_owned(), label);
        self.ids.insert(label, id.to_owned());
        Ok(label)
    }

    /// Takes a record out and returns the label to be removed from the graph,
    /// if the record was in.
    pub fn delete(&mut self, id: &str) -> (r: Option<u64>)
        requires
            old(self).wf(),
        ensures
            final(self).wf(),
            final(self)@ == (LabelsView { labels: old(self)@.labels.remove(id@), ..old(self)@ }),
            r == (if old(self)@.labels.contains_key(id@) {
                Some(old(self)@.labels[id@])
            } else {
                None
            }),
    {
        let ghost before = self.labels@;
        match self.labels.remove(id) {
            Some(label) => {
                self.ids.remove(&label);
                proof {
                    assert forall|a: Seq<char>| #[trigger] self.labels@.contains_key(a) implies self.ids@.contains_key(
                        self.labels@[a],
                    ) && self.ids@[self.labels@[a]]@ == a by {
                        assert(before.contains_key(a) && before.contains_key(id@));
                        assert(before[a] != before[id@]);
                    }
                }
                Some(label)
            },
            None => {
                assert(before.remove(id@) =~= before);
                None
            },
        }
    }

    /// Checks that a query has the dimension of the index.
    pub fn check_query(&self, got: usize) -> (r: Result<(), IndexError>)
        ensures
            match r {
                Ok(()) => got == self@.dimension,
                Err(e) => got != self@.dimension && (e matches IndexError::DimensionMismatch {
                    index: i,
                    got: g,
                } && i == self@.dimension && g == got),
            },
    {
        if got != self.dimension {
            return Err(IndexError::DimensionMismatch { index: self.dimension, got });
        }
        Ok(())
    }

    /// The hits of a graph search by record. Labels that belong to no record
    /// are left out.
    pub fn resolve(&self, hits: &Vec<(u64, F32)>) -> (r: Vec<IndexHit>)
        requires
            self.wf(),
        ensures
            hit_views(r@) == resolved(self@.labels, hits@),
    {
        let mut out: Vec<IndexHit> = Vec::new();
        let mut i: usize = 0;
        assert(hits@.take(0) =~= Seq::<(u64, F32)>::empty());
        assert(hit_views(out@) =~= Seq::<(Seq<char>, F32)>::empty());
        while i < hits.len()
            invariant
                i <= hits.len(),
                self.wf(),
                hit_views(out@) == resolved(self@.labels, hits@.take(i as int)),
            decreases hits.len() - i,
        {
            let (label, distance) = hits[i];
            let ghost before = hit_views(out@);
            proof {
                assert(hits@.take(i + 1).drop_last() =~= hits@.take(i as int));
                assert(hits@.take(i + 1).last() == hits@[i as int]);
            }
            match self.ids.get(&label) {
                Some(id) => {
                    proof {
                        assert(self.labels@[id@] == label);
                        self.lemma_owner(label, id@);
                    }
                    let ghost name = id@;
                    out.push(IndexHit { id: id.clone(), distance });
                    assert(hit_views(out@) =~= before.push((name, distance)));
                },
                None => {
                    proof {
                        assert forall|a: Seq<char>| !(#[trigger] self@.labels.contains_key(a)
                            && self@.labels[a] == label) by {
                            if self.labels@.contains_key(a) && self.labels@[a] == label {
                                assert(self.ids@.contains_key(self.labels@[a]));
                            }
                        }
                    }
                },
            }
            i += 1;
        }
        assert(hits@.take(hits@.len() as int) =~= hits@);
        out
    }

    proof fn lemma_owner(&self, label: u64, name: Seq<char>)
        requires
            self.wf(),
            self@.labels.contains_key(name),
            self@.labels[name] == label,
        ensures
            has_owner(self@.labels, label),
            owner(self@.labels, label) == name,
    {
        let o = owner(self@.labels, label);
        assert(self@.labels.contains_key(name) && self@.labels[name] == label);
        assert(self@.labels.contains_key(o) && self@.labels[o] == label);
        assert(self@.labels[o] == self@.labels[name]);
    }

    /// Number of records in the index.
    pub fn len(&self) -> (r: usize)
        requires
            self.wf(),
        ensures
            r == self@.labels.dom().len(),
    {
        self.labels.len()
    }

    /// Whether a record is in the index.
    pub fn contains(&self, id: &str) -> (r: bool)
        requires
            self.wf(),
        ensures
            r == self@.labels.contains_key(id@),
    {
        self.labels.contains_key(id)
    }

    /// Dimension of the indexed vectors.
    pub fn dimension(&self) -> (r: usize)
        ensures
            r == self@.dimension,
    {
        self.dimension
    }

    /// Distance space of the index.
    pub fn space(&self) -> (r: Distance)
        ensures
            r == self@.space,
    {
        self.space
    }
}

/// Whether a label belongs to a record.
pub open spec fn has_owner(labels: Map<Seq<char>, u64>, label: u64) -> bool {
    exists|a: Seq<char>| #[trigger] labels.contains_key(a) && labels[a] == label
}

/// The record that a label belongs to.
pub open spec fn owner(labels: Map<Seq<char>, u64>, label: u64) -> Seq<char> {
    choose|a: Seq<char>| #[trigger] labels.contains_key(a) && labels[a] == label
}

/// The hits by record, in their order, without those of unknown labels.
pub open spec fn resolved(labels: Map<Seq<char>, u64>, hits: Seq<(u64, F32)>) -> Seq<(Seq<char>, F32)>
    decreases hits.len(),
{
    if hits.len() == 0 {
        Seq::empty()
    } else {
        let done = resolved(labels, hits.drop_last());
        let (label, distance) = hits.last();
        if has_owner(labels, label) {
            done.push((owner(labels, label), distance))
        } else {
            done
        }
    }
}

/// Hits as mathematical values.
pub open spec fn hit_views(hits: Seq<IndexHit>) -> Seq<(Seq<char>, F32)> {
    Seq::new(hits.len(), |i: int| (hits[i].id@, hits[i].distance))
}

/// The capacity to reserve before the next vector is put into a graph, if the
/// present one is exhausted: twice as much, and room for 64 more at least.
pub fn capacity_to_reserve(size: usize, capacity: usize) -> (r: Option<usize>)
    requires
        capacity <= usize::MAX / 2,
        size <= usize::MAX - 64,
    ensures
        r == (if size < capacity {
            None
        } else if 2 * capacity > size + 64 {
            Some((2 * capacity) as usize)
        } else {
            Some((size + 64) as usize)
        }),
{
    if size >= capacity {
        let doubled: usize = capacity * 2;
        let room: usize = size + 64;
        if doubled > room {
            Some(doubled)
        } else {
            Some(room)
        }
    } else {
        None
    }
}

/// A label that was handed out is never handed out again: every later label
/// is greater.
pub proof fn labels_are_never_reused(before: LabelsView, id: Seq<char>, after: LabelsView)
    requires
        labels_distinct(before),
        before.next_label < u64::MAX,
        after.labels == before.labels.insert(id, before.next_label),
        after.next_label == before.next_label + 1,
        !before.labels.contains_key(id),
    ensures
        labels_distinct(after),
        forall|a: Seq<char>| #[trigger] before.labels.contains_key(a) ==> before.labels[a] < after.labels[id],
{
    assert forall|a: Seq<char>, b: Seq<char>|
        #![trigger after.labels[a], after.labels[b]]
        after.labels.contains_key(a) && after.labels.contains_key(b) && after.labels[a] == after.labels[b]
        implies a == b by {
        if a != id && b != id {
            assert(before.labels[a] == before.labels[b]);
        }
    }
}

// ---------------------------------------------------------------------------
// Saving and restoring
// ---------------------------------------------------------------------------

/// The map that saved labels stand for.
pub open spec fn saved_map(labels: Seq<(String, u64)>) -> Map<Seq<char>, u64> {
    idmap::map_of(labels)
}

/// Whether saved labels are those of an index: distinct ids, distinct labels,
/// and none that is yet to be handed out.
pub open spec fn consistent(labels: Seq<(String, u64)>, next_label: u64) -> bool {
    &&& idmap::names_distinct(labels)
    &&& forall|i: int, j: int|
        0 <= i < labels.len() && 0 <= j < labels.len() && (#[trigger] labels[i]).1 == (
        #[trigger] labels[j]).1 ==> i == j
    &&& forall|i: int| 0 <= i < labels.len() ==> (#[trigger] labels[i]).1 < next_label
}

/// Whether `meta` is what an index with the labels `v` saves.
pub open spec fn saves(v: LabelsView, meta: IndexMeta) -> bool {
    &&& saved_map(meta.labels@) == v.labels
    &&& consistent(meta.labels@, meta.next_label)
    &&& meta.labels@.len() == v.labels.dom().len()
    &&& meta.next_label == v.next_label
    &&& meta.space@ == v.space.label()
    &&& meta.dimension == v.dimension
}

/// Whether a saved index was built for another space or dimension, and `e` says
/// so. The space is told first.
pub open spec fn built_otherwise(meta: IndexMeta, space: Distance, dimension: usize, e: IndexError) -> bool {
    if meta.space@ != space.label() {
        e matches IndexError::SpaceMismatch { saved, expected } && saved@ == meta.space@ && expected
            == space
    } else {
        &&& meta.dimension != dimension
        &&& e matches IndexError::SavedDimensionMismatch { saved, expected }
        &&& saved == meta.dimension
        &&& expected == dimension
    }
}

/// Whether `r` is the outcome of restoring the labels of a saved index whose
/// graph holds `vectors` vectors.
pub open spec fn restores(
    meta: IndexMeta,
    space: Distance,
    dimension: usize,
    vectors: nat,
    r: Result<LabelsView, IndexError>,
) -> bool {
    if meta.space@ != space.label() || meta.dimension != dimension {
        r matches Err(e) && built_otherwise(meta, space, dimension, e)
    } else if meta.labels@.len() != vectors {
        &&& r matches Err(IndexError::LabelCountMismatch { labels, vectors: v })
        &&& labels == meta.labels@.len()
        &&& v == vectors
    } else if !consistent(meta.labels@, meta.next_label) {
        r matches Err(IndexError::LabelsInconsistent)
    } else {
        &&& r matches Ok(m)
        &&& m.labels == saved_map(meta.labels@)
        &&& m.next_label == meta.next_label
        &&& m.space == space
        &&& m.dimension == dimension
    }
}

/// What was saved comes back: an index restored for the same space and
/// dimension, over a graph of as many vectors as it had records, has the same
/// labels and hands out the same label next.
pub proof fn saved_labels_come_back(v: LabelsView, meta: IndexMeta, r: Result<LabelsView, IndexError>)
    requires
        saves(v, meta),
        restores(meta, v.space, v.dimension, v.labels.dom().len(), r),
    ensures
        r == Result::<LabelsView, IndexError>::Ok(v),
{
}

/// An index is not restored for another space or another dimension.
pub proof fn labels_keep_to_their_space(
    v: LabelsView,
    meta: IndexMeta,
    space: Distance,
    dimension: usize,
    vectors: nat,
    r: Result<LabelsView, IndexError>,
)
    requires
        saves(v, meta),
        space != v.space || dimension != v.dimension,
        restores(meta, space, dimension, vectors, r),
    ensures
        r is Err,
{
    if space.label() == v.space.label() {
        types::distance_names_are_distinct(space, v.space);
    }
}

impl IndexMeta {
    /// Checks that a saved index was built for the given space and dimension.
    pub fn check(&self, space: Distance, dimension: usize) -> (r: Result<(), IndexError>)
        ensures
            match r {
                Ok(()) => self.space@ == space.label() && self.dimension == dimension,
                Err(e) => built_otherwise(*self, space, dimension, e),
            },
    {
        if !same_text(self.space.as_str(), space.name()) {
            return Err(IndexError::SpaceMismatch { saved: self.space.clone(), expected: space });
        }
        if self.dimension != dimension {
            return Err(
                IndexError::SavedDimensionMismatch { saved: self.dimension, expected: dimension },
            );
        }
        Ok(())
    }
}

impl LabelMap {
    /// The labels to save with the graph.
    pub fn to_meta(&self) -> (r: IndexMeta)
        requires
            self.wf(),
        ensures
            saves(self@, r),
    {
        let entries: &Vec<(String, u64)> = self.labels.entries();
        let n: usize = self.labels.len();
        let mut labels: Vec<(Id, u64)> = Vec::new();
        let mut i: usize = 0;
        while i < entries.len()
            invariant
                i <= entries.len(),
                labels@.len() == i,
                forall|j: int|
                    0 <= j < i ==> (#[trigger] labels@[j]).0@ == entries@[j].0@ && labels@[j].1 == entries@[j].1,
            decreases entries.len() - i,
        {
            labels.push((entries[i].0.clone(), entries[i].1));
            i += 1;
        }
        proof {
            lemma_copied(entries@, labels@);
            idmap::lemma_count(labels@);
            assert forall|i: int, j: int|
                0 <= i < labels@.len() && 0 <= j < labels@.len() && (#[trigger] labels@[i]).1 == (
                #[trigger] labels@[j]).1 implies i == j by {
                idmap::lemma_named_entry(entries@, i);
                idmap::lemma_named_entry(entries@, j);
                let a = entries@[i].0@;
                let b = entries@[j].0@;
                assert(self@.labels[a] == self@.labels[b]);
            }
            assert forall|i: int| 0 <= i < labels@.len() implies (#[trigger] labels@[i]).1 < self.next_label by {
                idmap::lemma_named_entry(entries@, i);
                assert(self@.labels.contains_key(entries@[i].0@));
            }
        }
        IndexMeta {
            labels,
            next_label: self.next_label,
            space: self.space.name().to_owned(),
            dimension: self.dimension,
        }
    }

    /// Restores the labels of a saved index whose graph holds `vectors` vectors.
    pub fn restore(meta: &IndexMeta, space: Distance, dimension: usize, vectors: usize) -> (r: Result<
        LabelMap,
        IndexError,
    >)
        ensures
            restores(*meta, space, dimension, vectors as nat, match r {
                Ok(m) => Ok(m@),
                Err(e) => Err(e),
            }),
            r matches Ok(m) ==> m.wf(),
    {
        match meta.check(space, dimension) {
            Ok(()) => {},
            Err(e) => {
                return Err(e);
            },
        }
        if meta.labels.len() != vectors {
            return Err(
                IndexError::LabelCountMismatch { labels: meta.labels.len(), vectors },
            );
        }
        let ghost saved = meta.labels@;
        let mut m: LabelMap = LabelMap {
            space,
            dimension,
            labels: IdMap::new(),
            ids: HashMap::new(),
            next_label: meta.next_label,
        };
        let mut i: usize = 0;
        assert(saved_map(saved.take(0)) =~= Map::<Seq<char>, u64>::empty());
        while i < meta.labels.len()
            invariant
                i <= meta.labels.len(),
                saved == meta.labels@,
                meta.labels@.len() == vectors,
                meta.space@ == space.label(),
                meta.dimension == dimension,
                m.wf(),
                m.space == space,
                m.dimension == dimension,
                m.next_label == meta.next_label,
                m.labels@ == saved_map(saved.take(i as int)),
                consistent(saved.take(i as int), meta.next_label),
            decreases meta.labels.len() - i,
        {
            let label: u64 = meta.labels[i].1;
            let ghost name = saved[i as int].0@;
            let ghost part = saved.take(i as int);
            let ghost more = saved.take(i + 1);
            assert(more.take(i as int) =~= part);
            assert(more[i as int] == saved[i as int]);
            if label >= meta.next_label || m.labels.contains_key(meta.labels[i].0.as_str())
                || m.ids.contains_key(&label) {
                proof {
                    if consistent(saved, meta.next_label) {
                        assert(saved[i as int].1 < meta.next_label);
                        if idmap::named(part, name) {
                            let j = idmap::spot(part, name);
                            assert(part[j] == saved[j]);
                            assert(saved[j].0@ == saved[i as int].0@);
                        }
                        if m.ids@.contains_key(label) {
                            let a = m.ids@[label]@;
                            assert(m.labels@.contains_key(a) && m.labels@[a] == label);
                            let j = idmap::spot(part, a);
                            assert(part[j].0@ == a);
                            idmap::lemma_named_entry(part, j);
                            assert(part[j] == saved[j]);
                            assert(saved[j].1 == saved[i as int].1);
                        }
                        assert(false);
                    }
                }
                return Err(IndexError::LabelsInconsistent);
            }
            let ghost old_labels = m.labels@;
            let ghost old_ids = m.ids@;
            m.labels.insert(meta.labels[i].0.clone(), label);
            m.ids.insert(label, meta.labels[i].0.clone());
            proof {
                idmap::lemma_pushed(part, more);
                assert(m.labels@ =~= saved_map(more));
                assert forall|a: int, b: int|
                    0 <= a < more.len() && 0 <= b < more.len() && (#[trigger] more[a]).1 == (
                    #[trigger] more[b]).1 implies a == b by {
                    if a < i {
                        assert(part[a] == more[a]);
                        idmap::lemma_named_entry(part, a);
                        assert(old_labels.contains_key(more[a].0@));
                        assert(old_ids.contains_key(old_labels[more[a].0@]));
                    }
                    if b < i {
                        assert(part[b] == more[b]);
                        idmap::lemma_named_entry(part, b);
                        assert(old_labels.contains_key(more[b].0@));
                        assert(old_ids.contains_key(old_labels[more[b].0@]));
                    }
                }
                assert forall|a: int| 0 <= a < more.len() implies (#[trigger] more[a]).1 < meta.next_label by {
                    if a < i {
                        assert(part[a] == more[a]);
                    }
                }
                assert forall|a: Seq<char>| #[trigger] m.labels@.contains_key(a) implies m.ids@.contains_key(
                    m.labels@[a],
                ) && m.ids@[m.labels@[a]]@ == a by {
                    if a != name {
                        assert(old_labels.contains_key(a));
                        assert(old_ids.contains_key(old_labels[a]));
                    }
                }
                assert forall|l: u64| #[trigger] m.ids@.contains_key(l) implies m.labels@.contains_key(
                    m.ids@[l]@,
                ) && m.labels@[m.ids@[l]@] == l by {
                    if l != label {
                        assert(old_ids.contains_key(l));
                        assert(old_labels.contains_key(old_ids[l]@));
                    }
                }
                assert forall|a: Seq<char>, b: Seq<char>|
                    #![trigger m@.labels[a], m@.labels[b]]
                    m@.labels.contains_key(a) && m@.labels.contains_key(b) && m@.labels[a] == m@.labels[b]
                    implies a == b by {
                    assert(m.ids@[m.labels@[a]]@ == a);
                    assert(m.ids@[m.labels@[b]]@ == b);
                }
                assert forall|a: Seq<char>| #[trigger] m@.labels.contains_key(a) implies m@.labels[a]
                    < m@.next_label by {
                    if a != name {
                        assert(old_labels.contains_key(a));
                        assert(old_labels[a] == m@.labels[a]);
                    }
                }
            }
            i += 1;
        }
        assert(saved.take(saved.len() as int) =~= saved);
        Ok(m)
    }
}

proof fn lemma_copied(a: Seq<(String, u64)>, b: Seq<(String, u64)>)
    requires
        idmap::names_distinct(a),
        a.len() == b.len(),
        forall|j: int| 0 <= j < b.len() ==> (#[trigger] b[j]).0@ == a[j].0@ && b[j].1 == a[j].1,
    ensures
        idmap::names_distinct(b),
        idmap::map_of(b) == idmap::map_of(a),
{
    idmap::lemma_same_names(a, b);
    assert forall|q: Seq<char>| idmap::named(b, q) implies idmap::map_of(b)[q] == idmap::map_of(a)[q] by {
        let j = idmap::spot(b, q);
        assert(b[j].0@ == q);
        assert(a[j].0@ == q);
        idmap::lemma_named_entry(a, j);
        idmap::lemma_named_entry(b, j);
    }
    assert(idmap::map_of(b) =~= idmap::map_of(a));
}

impl IndexError {
    /// The message that describes the error.
    pub open spec fn text(self) -> Seq<char> {
        match self {
            IndexError::Graph(m) => "usearch: "@ + m@,
            IndexError::DimensionMismatch { index, got } => "dimension mismatch: index is "@
                + text::decimal_text(index as nat) + ", got "@ + text::decimal_text(got as nat),
            IndexError::DuplicateId(s) => "id `"@ + s@ + "` already exists (use upsert/delete first)"@,
            IndexError::SpaceMismatch { saved, expected } => "corrupt index file: space mismatch: meta says `"@
                + saved@ + "`, expected `"@ + expected.label() + "`"@,
            IndexError::SavedDimensionMismatch { saved, expected } =>
                "corrupt index file: dimension mismatch: meta says "@ + text::decimal_text(saved as nat)
                + ", expected "@ + text::decimal_text(expected as nat),
            IndexError::LabelCountMismatch { labels, vectors } =>
                "corrupt index file: label count mismatch: "@ + text::decimal_text(labels as nat)
                + " labels but the graph holds "@ + text::decimal_text(vectors as nat) + " vectors"@,
            IndexError::LabelsInconsistent => "corrupt index file: inconsistent labels"@,
        }
    }

    /// The message that describes the error.
    pub fn message(&self) -> (r: String)
        ensures
            r@ == self.text(),
    {
        match self {
            IndexError::Graph(m) => {
                let mut s: String = "usearch: ".to_owned();
                s.append(m.as_str());
                s
            },
            IndexError::DimensionMismatch { index, got } => {
                let mut s: String = around("dimension mismatch: index is ", *index as u64, ", got ");
                s.append(decimal(*got as u64).as_str());
                s
            },
            IndexError::DuplicateId(id) => {
                let mut s: String = "id `".to_owned();
                s.append(id.as_str());
                s.append("` already exists (use upsert/delete first)");
                s
            },
            IndexError::SpaceMismatch { saved, expected } => {
                let mut s: String = "corrupt index file: space mismatch: meta says `".to_owned();
                s.append(saved.as_str());
                s.append("`, expected `");
                s.append(expected.name());
                s.append("`");
                s
            },
            IndexError::SavedDimensionMismatch { saved, expected } => {
                let mut s: String = around(
                    "corrupt index file: dimension mismatch: meta says ",
                    *saved as u64,
                    ", expected ",
                );
                s.append(decimal(*expected as u64).as_str());
                s
            },
            IndexError::LabelCountMismatch { labels, vectors } => {
                let mut s: String = around(
                    "corrupt index file: label count mismatch: ",
                    *labels as u64,
                    " labels but the graph holds ",
                );
                s.append(decimal(*vectors as u64).as_str());
                s.append(" vectors");
                s
            },
            IndexError::LabelsInconsistent => "corrupt index file: inconsistent labels".to_owned(),
        }
    }
}

/// A hit of the graph is one of the record that has its label, at the distance
/// of the hit; a hit of a label that no record has is none.
pub proof fn hits_are_of_their_records(labels: Map<Seq<char>, u64>, hits: Seq<(u64, F32)>, i: int)
    requires
        0 <= i < resolved(labels, hits).len(),
    ensures
        ({
            let (id, d) = resolved(labels, hits)[i];
            labels.contains_key(id) && exists|j: int|
                0 <= j < hits.len() && #[trigger] hits[j] == (labels[id], d)
        }),
        resolved(labels, hits).len() <= hits.len(),
    decreases hits.len(),
{
    let rest = hits.drop_last();
    let done = resolved(labels, rest);
    lemma_fewer_hits(labels, hits);
    if i < done.len() {
        hits_are_of_their_records(labels, rest, i);
        let (id, d) = done[i];
        assert(resolved(labels, hits)[i] == done[i]);
        let j = choose|j: int| 0 <= j < rest.len() && #[trigger] rest[j] == (labels[id], d);
        assert(hits[j] == (labels[id], d));
    } else {
        let (label, d) = hits.last();
        assert(has_owner(labels, label));
        assert(hits[hits.len() - 1] == (label, d));
    }
}

proof fn lemma_fewer_hits(labels: Map<Seq<char>, u64>, hits: Seq<(u64, F32)>)
    ensures
        resolved(labels, hits).len() <= hits.len(),
    decreases hits.len(),
{
    if hits.len() > 0 {
        lemma_fewer_hits(labels, hits.drop_last());
    }
}

/// No hit of a known label is lost, and hits keep their order.
pub proof fn known_hits_are_kept(labels: Map<Seq<char>, u64>, hits: Seq<(u64, F32)>, more: Seq<(u64, F32)>)
    requires
        forall|i: int| 0 <= i < hits.len() ==> has_owner(labels, (#[trigger] hits[i]).0),
    ensures
        resolved(labels, hits).len() == hits.len(),
        forall|i: int|
            0 <= i < hits.len() ==> labels.contains_key((#[trigger] resolved(labels, hits)[i]).0)
                && labels[resolved(labels, hits)[i].0] == hits[i].0 && resolved(labels, hits)[i].1
                == hits[i].1,
        resolved(labels, hits + more) == resolved(labels, hits) + resolved(labels, more),
    decreases hits.len() + more.len(),
{
    if more.len() > 0 {
        known_hits_are_kept(labels, hits, more.drop_last());
        assert((hits + more).drop_last() =~= hits + more.drop_last());
        assert(resolved(labels, hits + more) =~= resolved(labels, hits) + resolved(labels, more));
    } else {
        assert(hits + more =~= hits);
        assert(resolved(labels, hits) + resolved(labels, more) =~= resolved(labels, hits));
        if hits.len() > 0 {
            let rest = hits.drop_last();
            assert forall|i: int| 0 <= i < rest.len() implies has_owner(labels, (#[trigger] rest[i]).0) by {
                assert(rest[i] == hits[i]);
            }
            known_hits_are_kept(labels, rest, more);
            assert(has_owner(labels, hits[hits.len() - 1].0));
            let r = resolved(labels, hits);
            assert forall|i: int| 0 <= i < hits.len() implies labels.contains_key((#[trigger] r[i]).0)
                && labels[r[i].0] == hits[i].0 && r[i].1 == hits[i].1 by {
                if i < rest.len() {
                    assert(r[i] == resolved(labels, rest)[i]);
                    assert(rest[i] == hits[i]);
                }
            }
        }
    }
}

/// Labels are restored only where no two records have the same label, none was
/// given that is still to come, and there are as many as vectors.
pub proof fn only_consistent_labels_are_restored(
    meta: IndexMeta,
    space: Distance,
    dimension: usize,
    vectors: nat,
    r: Result<LabelsView, IndexError>,
    i: int,
    j: int,
)
    requires
        restores(meta, space, dimension, vectors, r),
        r is Ok,
        0 <= i < meta.labels@.len(),
        0 <= j < meta.labels@.len(),
    ensures
        meta.labels@.len() == vectors,
        meta.space@ == space.label(),
        meta.dimension == dimension,
        i != j ==> meta.labels@[i].1 != meta.labels@[j].1 && meta.labels@[i].0@ != meta.labels@[j].0@,
        meta.labels@[i].1 < meta.next_label,
        r->Ok_0.labels.contains_key(meta.labels@[i].0@),
        r->Ok_0.labels[meta.labels@[i].0@] == meta.labels@[i].1,
        r->Ok_0.next_label == meta.next_label,
{
    idmap::lemma_named_entry(meta.labels@, i);
}

/// Labels that are saved with another space, another dimension or for another
/// number of vectors are refused with the reason.
pub proof fn unfitting_labels_are_refused(
    meta: IndexMeta,
    space: Distance,
    dimension: usize,
    vectors: nat,
    r: Result<LabelsView, IndexError>,
)
    requires
        restores(meta, space, dimension, vectors, r),
    ensures
        meta.space@ != space.label() ==> r matches Err(IndexError::SpaceMismatch { .. }),
        meta.space@ == space.label() && meta.dimension != dimension ==> r matches Err(
            IndexError::SavedDimensionMismatch { .. },
        ),
        meta.space@ == space.label() && meta.dimension == dimension && meta.labels@.len() != vectors ==> r matches Err(
            IndexError::LabelCountMismatch { .. },
        ),
{
}

} // verus!
