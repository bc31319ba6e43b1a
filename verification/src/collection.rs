//! The state of one collection and its two-tier write path.
//!
//! Every operation of the log is applied to the records, to the buffer of
//! vectors that wait for the graph index, to the metadata postings and to the
//! offsets that the postings speak of. Replaying the log goes through the same
//! step, so all of this is derived state.

use std::collections::HashMap;

use vstd::prelude::*;
use vstd::string::*;

use crate::config;
use crate::config::{CollectionConfig, ConfigView};
use crate::idmap::IdMap;
use crate::index;
use crate::index::{LabelMap, LabelsView};
use crate::op;
use crate::op::{OpKind, Operation};
use crate::postings;
use crate::postings::{IndexView, Postings};
use crate::text::same_text;
use crate::types;
use crate::types::{clone_meta, clone_text, Document, Embedding, Id, MetaView, Metadata};

pub mod batch;
pub mod checkpoint;
pub mod flush;
pub mod history;
pub mod query;
pub mod validate;

verus! {

broadcast use vstd::std_specs::hash::group_hash_axioms;

/// A live record: its vector, metadata and document, and the sequence number
/// of the operation that made it so.
#[derive(Debug)]
pub struct Record {
    pub id: Id,
    /// The vector, if the record has one and it is held in memory.
    pub embedding: Option<Embedding>,
    pub metadata: Option<Metadata>,
    pub document: Option<Document>,
    pub seq: u64,
}

/// A record as a mathematical value.
pub struct RecordState {
    pub embedding: Option<Seq<u32>>,
    pub metadata: Option<Map<Seq<char>, MetaView>>,
    pub document: Option<Seq<char>>,
    pub seq: u64,
}

/// An optional vector as a mathematical value.
pub open spec fn vector_opt(e: Option<Embedding>) -> Option<Seq<u32>> {
    match e {
        Some(e) => Some(e@),
        None => None,
    }
}

impl View for Record {
    type V = RecordState;

    open spec fn view(&self) -> RecordState {
        RecordState {
            embedding: vector_opt(self.embedding),
            metadata: types::meta_opt(self.metadata),
            document: types::text_opt(self.document),
            seq: self.seq,
        }
    }
}

/// Copies a vector.
pub fn clone_vector(e: &Embedding) -> (r: Embedding)
    ensures
        r@ == e@,
{
    let mut out: Vec<u32> = Vec::new();
    let mut i: usize = 0;
    while i < e.len()
        invariant
            i <= e.len(),
            out@ == e@.take(i as int),
        decreases e.len() - i,
    {
        out.push(e[i]);
        i += 1;
        assert(e@.take(i as int) =~= e@.take(i - 1).push(e@[i - 1]));
    }
    assert(e@.take(e@.len() as int) =~= e@);
    out
}

impl Record {
    /// Copies a record.
    pub fn copy(&self) -> (r: Record)
        ensures
            r@ == self@,
            r.id@ == self.id@,
    {
        Record {
            id: self.id.clone(),
            embedding: match &self.embedding {
                Some(e) => Some(clone_vector(e)),
                None => None,
            },
            metadata: clone_meta(&self.metadata),
            document: clone_text(&self.document),
            seq: self.seq,
        }
    }
}

/// The records after an operation: adding and upserting put a whole record,
/// updating keeps the vector, deleting removes the record.
pub open spec fn records_after(
    records: Map<Seq<char>, RecordState>,
    id: Seq<char>,
    effect: OpKind,
    seq: u64,
) -> Map<Seq<char>, RecordState> {
    match effect {
        OpKind::Put { embedding, metadata, document } => records.insert(
            id,
            RecordState { embedding: Some(embedding), metadata, document, seq },
        ),
        OpKind::Change { metadata, document } => records.insert(
            id,
            RecordState {
                embedding: if records.contains_key(id) {
                    records[id].embedding
                } else {
                    None
                },
                metadata,
                document,
                seq,
            },
        ),
        OpKind::Drop => records.remove(id),
    }
}

/// Whether a buffered record is another one.
pub open spec fn other_than(id: Seq<char>) -> spec_fn((Seq<char>, RecordState)) -> bool {
    |r: (Seq<char>, RecordState)| r.0 != id
}

/// The buffer without a record.
pub open spec fn without(buffer: Seq<(Seq<char>, RecordState)>, id: Seq<char>) -> Seq<
    (Seq<char>, RecordState),
> {
    buffer.filter(other_than(id))
}

/// The buffer after an operation: a put record goes to the end, in place of an
/// older version; a deleted one is taken out.
pub open spec fn buffer_after(
    buffer: Seq<(Seq<char>, RecordState)>,
    id: Seq<char>,
    effect: OpKind,
    seq: u64,
) -> Seq<(Seq<char>, RecordState)> {
    match effect {
        OpKind::Put { embedding, metadata, document } => without(buffer, id).push(
            (id, RecordState { embedding: Some(embedding), metadata, document, seq }),
        ),
        OpKind::Change { .. } => buffer,
        OpKind::Drop => without(buffer, id),
    }
}

/// The places in the segment file after an operation: a deleted record has none.
pub open spec fn stored_after(stored: Map<Seq<char>, usize>, id: Seq<char>, effect: OpKind) -> Map<
    Seq<char>,
    usize,
> {
    match effect {
        OpKind::Drop => stored.remove(id),
        _ => stored,
    }
}

/// The labels of the graph index after an operation: a deleted record has none.
pub open spec fn labels_after(labels: LabelsView, id: Seq<char>, effect: OpKind) -> LabelsView {
    match effect {
        OpKind::Drop => LabelsView { labels: labels.labels.remove(id), ..labels },
        _ => labels,
    }
}

/// The state of a collection as a mathematical value.
pub struct CollectionState {
    pub config: ConfigView,
    /// The live records by id.
    pub records: Map<Seq<char>, RecordState>,
    /// The records whose vectors wait for the graph index, oldest first.
    pub buffer: Seq<(Seq<char>, RecordState)>,
    /// The labels of the graph index.
    pub labels: LabelsView,
    /// Highest sequence number that reached the graph index.
    pub flushed_seq: u64,
    /// The offsets that the postings know the records by.
    pub offsets: Map<Seq<char>, u32>,
    /// The next offset to hand out.
    pub next_offset: u32,
    /// The metadata postings.
    pub postings: IndexView,
    /// Sequence number that the last checkpoint covers.
    pub last_checkpoint_seq: u64,
    /// Place of each record's vector in the segment file.
    pub stored: Map<Seq<char>, usize>,
}

/// The state of one collection.
pub struct Collection {
    config: CollectionConfig,
    records: IdMap<Record>,
    buffer: Vec<Record>,
    labels: LabelMap,
    flushed_seq: u64,
    offsets: IdMap<u32>,
    id_by_offset: HashMap<u32, String>,
    next_offset: u32,
    postings: Postings,
    last_checkpoint_seq: u64,
    stored: IdMap<usize>,
}

/// The values of a map of records.
pub open spec fn record_states(m: Map<Seq<char>, Record>) -> Map<Seq<char>, RecordState> {
    m.map_values(|r: Record| r@)
}

/// The records of a buffer with their ids.
pub open spec fn buffer_states(b: Seq<Record>) -> Seq<(Seq<char>, RecordState)> {
    Seq::new(b.len(), |i: int| (b[i].id@, b[i]@))
}

impl View for Collection {
    type V = CollectionState;

    closed spec fn view(&self) -> CollectionState {
        CollectionState {
            config: self.config@,
            records: record_states(self.records@),
            buffer: buffer_states(self.buffer@),
            labels: self.labels@,
            flushed_seq: self.flushed_seq,
            offsets: self.offsets@,
            next_offset: self.next_offset,
            postings: self.postings@,
            last_checkpoint_seq: self.last_checkpoint_seq,
            stored: self.stored@,
        }
    }
}

/// Whether an offset belongs to a record.
pub open spec fn in_use(offsets: Map<Seq<char>, u32>, o: u32) -> bool {
    exists|a: Seq<char>| #[trigger] offsets.contains_key(a) && offsets[a] == o
}

/// The record that an offset belongs to.
pub open spec fn at_offset(offsets: Map<Seq<char>, u32>, o: u32) -> Seq<char> {
    choose|a: Seq<char>| #[trigger] offsets.contains_key(a) && offsets[a] == o
}

/// The metadata of the records by their offsets.
pub open spec fn store_of(
    records: Map<Seq<char>, RecordState>,
    offsets: Map<Seq<char>, u32>,
) -> postings::Store {
    Map::new(|o: u32| in_use(offsets, o), |o: u32| records[at_offset(offsets, o)].metadata)
}

/// Whether a buffered record is live and has the vector that it waits with.
pub open spec fn waiting(
    e: (Seq<char>, RecordState),
    records: Map<Seq<char>, RecordState>,
) -> bool {
    &&& records.contains_key(e.0)
    &&& e.1.embedding is Some
    &&& records[e.0].embedding == e.1.embedding
}

/// What holds of a collection's state whatever was applied to it.
pub open spec fn sound(s: CollectionState) -> bool {
    // No two records share an offset, and every offset was handed out.
    &&& forall|a: Seq<char>, b: Seq<char>|
        #![trigger s.offsets[a], s.offsets[b]]
        s.offsets.contains_key(a) && s.offsets.contains_key(b) && s.offsets[a] == s.offsets[b] ==> a == b
    &&& forall|a: Seq<char>| #[trigger] s.offsets.contains_key(a) ==> s.offsets[a] < s.next_offset
    // Offsets belong to live records; a live record without one has neither
    // vector nor metadata.
    &&& forall|a: Seq<char>| #[trigger] s.offsets.contains_key(a) ==> s.records.contains_key(a)
    &&& forall|a: Seq<char>|
        #[trigger] s.records.contains_key(a) && !s.offsets.contains_key(a) ==> s.records[a].metadata is None
            && s.records[a].embedding is None && !s.stored.contains_key(a)
    // The postings hold the metadata of the records.
    &&& postings::mirrors(s.postings, store_of(s.records, s.offsets))
    // The buffer holds live records, each once, each with the vector that the
    // record has.
    &&& forall|i: int, j: int|
        0 <= i < s.buffer.len() && 0 <= j < s.buffer.len() && (#[trigger] s.buffer[i]).0 == (
        #[trigger] s.buffer[j]).0 ==> i == j
    &&& forall|i: int|
        0 <= i < s.buffer.len() ==> waiting(#[trigger] s.buffer[i], s.records)
    // Only live records have a vector in the segment file.
    &&& forall|a: Seq<char>| #[trigger] s.stored.contains_key(a) ==> s.records.contains_key(a)
    // Labels are distinct and belong to live records.
    &&& index::labels_distinct(s.labels)
    &&& forall|a: Seq<char>| #[trigger] s.labels.labels.contains_key(a) ==> s.records.contains_key(a)
}

impl Collection {
    /// Whether the parts of the state agree with each other.
    pub closed spec fn wf(self) -> bool {
        &&& self.records.wf()
        &&& self.offsets.wf()
        &&& self.stored.wf()
        &&& self.labels.wf()
        &&& self.postings.wf()
        &&& forall|k: Seq<char>| #[trigger] self.records@.contains_key(k) ==> self.records@[k].id@ == k
        &&& self.offsets_agree()
        &&& sound(self@)
    }

    /// Whether both directions of the offsets agree.
    spec fn offsets_agree(self) -> bool {
        &&& self.offsets.wf()
        &&& forall|k: Seq<char>|
            #[trigger] self.offsets@.contains_key(k) ==> self.id_by_offset@.contains_key(self.offsets@[k])
                && self.id_by_offset@[self.offsets@[k]]@ == k && self.offsets@[k] < self.next_offset
        &&& forall|o: u32|
            #[trigger] self.id_by_offset@.contains_key(o) ==> self.offsets@.contains_key(
                self.id_by_offset@[o]@,
            ) && self.offsets@[self.id_by_offset@[o]@] == o
    }

    /// A well-kept collection has a sound state.
    pub proof fn lemma_sound(&self)
        requires
            self.wf(),
        ensures
            sound(self@),
    {
    }

    /// An empty collection.
    pub fn new(config: CollectionConfig) -> (c: Collection)
        ensures
            c.wf(),
            c@.config == config@,
            c@.records == Map::<Seq<char>, RecordState>::empty(),
            c@.buffer == Seq::<(Seq<char>, RecordState)>::empty(),
            c@.labels.labels == Map::<Seq<char>, u64>::empty(),
            c@.labels.next_label == 0,
            c@.labels.space == config@.space,
            c@.labels.dimension == config@.dimension,
            c@.flushed_seq == 0,
            c@.offsets == Map::<Seq<char>, u32>::empty(),
            c@.next_offset == 0,
            c@.last_checkpoint_seq == 0,
            c@.stored == Map::<Seq<char>, usize>::empty(),
    {
        let labels: LabelMap = LabelMap::new(config.space, config.dimension);
        let c = Collection {
            config,
            records: IdMap::new(),
            buffer: Vec::new(),
            labels,
            flushed_seq: 0,
            offsets: IdMap::new(),
            id_by_offset: HashMap::new(),
            next_offset: 0,
            postings: Postings::new(),
            last_checkpoint_seq: 0,
            stored: IdMap::new(),
        };
        proof {
            c.labels.lemma_distinct();
            assert(c@.records =~= Map::<Seq<char>, RecordState>::empty());
            assert(c@.buffer =~= Seq::<(Seq<char>, RecordState)>::empty());
            let store = store_of(c@.records, c@.offsets);
            assert(c@.postings.all =~= store.dom());
        }
        c
    }
}

// ---------------------------------------------------------------------------
// Facts about offsets and the buffer
// ---------------------------------------------------------------------------

/// Whether no two records share an offset.
pub open spec fn offsets_distinct(offsets: Map<Seq<char>, u32>) -> bool {
    forall|a: Seq<char>, b: Seq<char>|
        #![trigger offsets[a], offsets[b]]
        offsets.contains_key(a) && offsets.contains_key(b) && offsets[a] == offsets[b] ==> a == b
}

pub proof fn lemma_at_offset(offsets: Map<Seq<char>, u32>, a: Seq<char>)
    requires
        offsets_distinct(offsets),
        offsets.contains_key(a),
    ensures
        in_use(offsets, offsets[a]),
        at_offset(offsets, offsets[a]) == a,
{
    let b = at_offset(offsets, offsets[a]);
    assert(offsets.contains_key(b) && offsets[b] == offsets[a]);
}

proof fn lemma_store_put(
    records: Map<Seq<char>, RecordState>,
    offsets: Map<Seq<char>, u32>,
    id: Seq<char>,
    new: RecordState,
    o: u32,
)
    requires
        offsets_distinct(offsets),
        offsets.contains_key(id) ==> offsets[id] == o,
        !offsets.contains_key(id) ==> !in_use(offsets, o),
    ensures
        offsets_distinct(offsets.insert(id, o)),
        store_of(records.insert(id, new), offsets.insert(id, o)) == store_of(records, offsets).remove(
            o,
        ).insert(o, new.metadata),
{
    let more = offsets.insert(id, o);
    let all = records.insert(id, new);
    assert forall|a: Seq<char>, b: Seq<char>|
        #![trigger more[a], more[b]]
        more.contains_key(a) && more.contains_key(b) && more[a] == more[b] implies a == b by {
        if a != id && b != id {
            assert(offsets[a] == offsets[b]);
        } else if a != id {
            assert(offsets.contains_key(a) && offsets[a] == o);
            if offsets.contains_key(id) {
                assert(offsets[a] == offsets[id]);
            }
        } else if b != id {
            assert(offsets.contains_key(b) && offsets[b] == o);
            if offsets.contains_key(id) {
                assert(offsets[b] == offsets[id]);
            }
        }
    }
    let left = store_of(all, more);
    let right = store_of(records, offsets).remove(o).insert(o, new.metadata);
    assert forall|p: u32| left.contains_key(p) == right.contains_key(p) by {
        if in_use(offsets, p) && p != o {
            let a = at_offset(offsets, p);
            assert(more.contains_key(a) && more[a] == p);
        }
        if in_use(more, p) && p != o {
            let a = at_offset(more, p);
            assert(offsets.contains_key(a) && offsets[a] == p);
        }
        if p == o {
            assert(more.contains_key(id) && more[id] == o);
        }
    }
    assert forall|p: u32| left.contains_key(p) implies left[p] == right[p] by {
        if p == o {
            lemma_at_offset(more, id);
        } else {
            let a = at_offset(more, p);
            assert(more.contains_key(a) && more[a] == p);
            assert(a != id);
            lemma_at_offset(offsets, a);
            lemma_at_offset(more, a);
        }
    }
    assert(left =~= right);
}

proof fn lemma_store_drop(
    records: Map<Seq<char>, RecordState>,
    offsets: Map<Seq<char>, u32>,
    id: Seq<char>,
)
    requires
        offsets_distinct(offsets),
        offsets.contains_key(id),
    ensures
        offsets_distinct(offsets.remove(id)),
        store_of(records.remove(id), offsets.remove(id)) == store_of(records, offsets).remove(offsets[id]),
{
    let less = offsets.remove(id);
    let o = offsets[id];
    let left = store_of(records.remove(id), less);
    let right = store_of(records, offsets).remove(o);
    assert forall|a: Seq<char>, b: Seq<char>|
        #![trigger less[a], less[b]]
        less.contains_key(a) && less.contains_key(b) && less[a] == less[b] implies a == b by {
        assert(offsets[a] == offsets[b]);
    }
    assert forall|p: u32| left.contains_key(p) == right.contains_key(p) by {
        if in_use(offsets, p) && p != o {
            let a = at_offset(offsets, p);
            assert(less.contains_key(a) && less[a] == p);
        }
        if in_use(less, p) {
            let a = at_offset(less, p);
            assert(offsets.contains_key(a) && offsets[a] == p);
            if p == o {
                assert(offsets[a] == offsets[id]);
            }
        }
    }
    assert forall|p: u32| left.contains_key(p) implies left[p] == right[p] by {
        let a = at_offset(less, p);
        assert(less.contains_key(a) && less[a] == p);
        lemma_at_offset(offsets, a);
        lemma_at_offset(less, a);
    }
    assert(left =~= right);
}

/// Changing a record without touching the postings keeps them right, if its
/// metadata is indexed the same way.
proof fn lemma_store_keep(
    p: IndexView,
    records: Map<Seq<char>, RecordState>,
    offsets: Map<Seq<char>, u32>,
    id: Seq<char>,
    new: RecordState,
)
    requires
        offsets_distinct(offsets),
        postings::mirrors(p, store_of(records, offsets)),
        offsets.contains_key(id) ==> postings::triples_of(offsets[id], new.metadata)
            == postings::triples_of(offsets[id], records[id].metadata),
    ensures
        postings::mirrors(p, store_of(records.insert(id, new), offsets)),
{
    let before = store_of(records, offsets);
    let after = store_of(records.insert(id, new), offsets);
    assert(before.dom() =~= after.dom());
    assert forall|t: (Seq<char>, postings::KeyView, u32)|
        #[trigger] p.held.contains(t) <==> after.contains_key(t.2) && postings::triples_of(
            t.2,
            after[t.2],
        ).contains(t) by {
        assert(p.held.contains(t) <==> before.contains_key(t.2) && postings::triples_of(
            t.2,
            before[t.2],
        ).contains(t));
        if before.contains_key(t.2) {
            let a = at_offset(offsets, t.2);
            assert(offsets.contains_key(a) && offsets[a] == t.2);
            if a == id {
                assert(after[t.2] == new.metadata);
                assert(before[t.2] == records[id].metadata);
            } else {
                assert(after[t.2] == before[t.2]);
            }
        }
    }
}

proof fn lemma_filter_keeps_all(
    b: Seq<(Seq<char>, RecordState)>,
    keep: spec_fn((Seq<char>, RecordState)) -> bool,
)
    requires
        forall|i: int| 0 <= i < b.len() ==> keep(#[trigger] b[i]),
    ensures
        b.filter(keep) == b,
    decreases b.len(),
{
    reveal(Seq::filter);
    if b.len() > 0 {
        let init = b.drop_last();
        assert forall|i: int| 0 <= i < init.len() implies keep(#[trigger] init[i]) by {
            assert(init[i] == b[i]);
        }
        lemma_filter_keeps_all(init, keep);
        assert(b.last() == b[b.len() - 1]);
        assert(init.push(b.last()) =~= b);
    }
}

/// With distinct ids, taking out a record is taking out one entry, or none.
proof fn lemma_without(b: Seq<(Seq<char>, RecordState)>, id: Seq<char>, at: Option<int>)
    requires
        forall|i: int, j: int|
            0 <= i < b.len() && 0 <= j < b.len() && (#[trigger] b[i]).0 == (#[trigger] b[j]).0 ==> i == j,
        match at {
            Some(i) => 0 <= i < b.len() && b[i].0 == id,
            None => forall|i: int| 0 <= i < b.len() ==> (#[trigger] b[i]).0 != id,
        },
    ensures
        without(b, id) == (match at {
            Some(i) => b.remove(i),
            None => b,
        }),
{
    let keep = other_than(id);
    match at {
        None => {
            lemma_filter_keeps_all(b, keep);
        },
        Some(i) => {
            let head = b.take(i);
            let mid = seq![b[i]];
            let tail = b.skip(i + 1);
            assert(b =~= head + mid + tail);
            Seq::filter_distributes_over_add(head + mid, tail, keep);
            Seq::filter_distributes_over_add(head, mid, keep);
            assert forall|j: int| 0 <= j < head.len() implies keep(#[trigger] head[j]) by {
                assert(head[j] == b[j]);
            }
            assert forall|j: int| 0 <= j < tail.len() implies keep(#[trigger] tail[j]) by {
                assert(tail[j] == b[i + 1 + j]);
            }
            lemma_filter_keeps_all(head, keep);
            lemma_filter_keeps_all(tail, keep);
            reveal_with_fuel(Seq::filter, 2);
            assert(mid.drop_last() =~= Seq::<(Seq<char>, RecordState)>::empty());
            assert(mid.filter(keep) =~= Seq::<(Seq<char>, RecordState)>::empty());
            assert(head + Seq::<(Seq<char>, RecordState)>::empty() + tail =~= b.remove(i));
        },
    }
}

/// Whether the metadata of a record changes.
fn metadata_differs(a: &Option<Metadata>, b: &Option<Metadata>) -> (r: bool)
    ensures
        r == !(match (types::meta_opt(*a), types::meta_opt(*b)) {
            (Some(x), Some(y)) => types::same_metadata(x, y),
            (None, None) => true,
            _ => false,
        }),
{
    match (a, b) {
        (Some(x), Some(y)) => !x.same_as(y),
        (None, None) => false,
        _ => true,
    }
}

impl Collection {
    /// Takes a record out of the buffer.
    fn unbuffer(&mut self, id: &str)
        requires
            old(self).wf(),
        ensures
            final(self).buffer@.len() <= old(self).buffer@.len(),
            buffer_states(final(self).buffer@) == without(old(self)@.buffer, id@),
            *final(self) == (Collection { buffer: final(self).buffer, ..*old(self) }),
    {
        let ghost before = buffer_states(self.buffer@);
        let mut i: usize = 0;
        while i < self.buffer.len()
            invariant
                i <= self.buffer.len(),
                *self == *old(self),
                old(self).wf(),
                before == buffer_states(self.buffer@),
                forall|j: int| 0 <= j < i ==> (#[trigger] self.buffer@[j]).id@ != id@,
            decreases self.buffer.len() - i,
        {
            if same_text(self.buffer[i].id.as_str(), id) {
                self.buffer.remove(i);
                proof {
                    assert(before[i as int].0 == id@);
                    assert(before == old(self)@.buffer);
                    assert(sound(old(self)@));
                    lemma_without(before, id@, Some(i as int));
                    assert(buffer_states(self.buffer@) =~= before.remove(i as int));
                }
                return;
            }
            i += 1;
        }
        proof {
            assert forall|j: int| 0 <= j < before.len() implies (#[trigger] before[j]).0 != id@ by {
                assert(self.buffer@[j].id@ != id@);
            }
            assert(before == old(self)@.buffer);
            assert(sound(old(self)@));
            lemma_without(before, id@, None);
        }
    }

    /// The offset of a record, a new one if it has none yet.
    fn offset_for(&mut self, id: &str) -> (o: u32)
        requires
            old(self).offsets_agree(),
            old(self)@.next_offset < u32::MAX,
        ensures
            final(self).offsets@ == old(self).offsets@.insert(id@, o),
            old(self).offsets@.contains_key(id@) ==> o == old(self).offsets@[id@] && *final(self) == (
            Collection { offsets: final(self).offsets, ..*old(self) }),
            !old(self).offsets@.contains_key(id@) ==> o == old(self).next_offset && *final(self) == (
            Collection {
                offsets: final(self).offsets,
                id_by_offset: final(self).id_by_offset,
                next_offset: (old(self).next_offset + 1) as u32,
                ..*old(self)
            }),
            final(self).offsets_agree(),
    {
        match self.offsets.get(id) {
            Some(o) => {
                let o: u32 = *o;
                assert(self.offsets@.insert(id@, o) =~= self.offsets@);
                return o;
            },
            None => {},
        }
        let o: u32 = self.next_offset;
        self.next_offset = o + 1;
        self.offsets.insert(id.to_owned(), o);
        self.id_by_offset.insert(o, id.to_owned());
        proof {
            assert(forall|k: Seq<char>|
                #[trigger] old(self).offsets@.contains_key(k) ==> old(self).offsets@[k] < o);
            assert forall|p: u32|
                #[trigger] self.id_by_offset@.contains_key(p) implies self.offsets@.contains_key(
                self.id_by_offset@[p]@,
            ) && self.offsets@[self.id_by_offset@[p]@] == p by {
                if p != o {
                    assert(old(self).id_by_offset@.contains_key(p));
                }
            }
        }
        o
    }
}

// ---------------------------------------------------------------------------
// Applying operations
// ---------------------------------------------------------------------------

/// The part of the state that an operation leaves alone.
pub open spec fn same_frame(a: CollectionState, b: CollectionState) -> bool {
    &&& a.config == b.config
    &&& a.flushed_seq == b.flushed_seq
    &&& a.last_checkpoint_seq == b.last_checkpoint_seq
}

proof fn lemma_record_states_insert(m: Map<Seq<char>, Record>, k: Seq<char>, r: Record)
    ensures
        record_states(m.insert(k, r)) == record_states(m).insert(k, r@),
{
    assert(record_states(m.insert(k, r)) =~= record_states(m).insert(k, r@));
}

proof fn lemma_record_states_remove(m: Map<Seq<char>, Record>, k: Seq<char>)
    ensures
        record_states(m.remove(k)) == record_states(m).remove(k),
{
    assert(record_states(m.remove(k)) =~= record_states(m).remove(k));
}

/// The buffer stays sound when a record goes to its end.
proof fn lemma_buffer_put(
    buffer: Seq<(Seq<char>, RecordState)>,
    records: Map<Seq<char>, RecordState>,
    id: Seq<char>,
)
    requires
        forall|i: int, j: int|
            0 <= i < buffer.len() && 0 <= j < buffer.len() && (#[trigger] buffer[i]).0 == (
            #[trigger] buffer[j]).0 ==> i == j,
        forall|i: int|
            0 <= i < buffer.len() ==> waiting(#[trigger] buffer[i], records),
    ensures
        ({
            let rest = without(buffer, id);
            &&& forall|i: int, j: int|
                0 <= i < rest.len() && 0 <= j < rest.len() && (#[trigger] rest[i]).0 == (
                #[trigger] rest[j]).0 ==> i == j
            &&& forall|i: int|
                0 <= i < rest.len() ==> waiting(#[trigger] rest[i], records) && rest[i].0
                    != id
        }),
        rest_len_at_most(buffer, id),
{
    let rest = without(buffer, id);
    if exists|i: int| 0 <= i < buffer.len() && (#[trigger] buffer[i]).0 == id {
        let k = choose|i: int| 0 <= i < buffer.len() && (#[trigger] buffer[i]).0 == id;
        lemma_without(buffer, id, Some(k));
        assert forall|i: int| 0 <= i < rest.len() implies rest[i] == buffer[if i < k {
            i
        } else {
            i + 1
        }] by {}
        assert forall|i: int, j: int|
            0 <= i < rest.len() && 0 <= j < rest.len() && (#[trigger] rest[i]).0 == (#[trigger] rest[j]).0
            implies i == j by {
            let a = if i < k {
                i
            } else {
                i + 1
            };
            let b = if j < k {
                j
            } else {
                j + 1
            };
            assert(rest[i] == buffer[a] && rest[j] == buffer[b]);
        }
        assert forall|i: int| 0 <= i < rest.len() implies waiting(
            #[trigger] rest[i],
            records,
        ) && rest[i].0 != id by {
            let a = if i < k {
                i
            } else {
                i + 1
            };
            assert(rest[i] == buffer[a]);
            assert(buffer[k].0 == id);
        }
    } else {
        lemma_without(buffer, id, None);
    }
}

/// Taking out a record does not make the buffer longer.
pub open spec fn rest_len_at_most(buffer: Seq<(Seq<char>, RecordState)>, id: Seq<char>) -> bool {
    without(buffer, id).len() <= buffer.len()
}

impl Collection {
    #[verifier::rlimit(40)]
    fn put(
        &mut self,
        id: &Id,
        embedding: &Embedding,
        metadata: &Option<Metadata>,
        document: &Option<Document>,
        seq: u64,
    )
        requires
            old(self).wf(),
            old(self)@.next_offset < u32::MAX,
        ensures
            final(self).wf(),
            same_frame(final(self)@, old(self)@),
            final(self)@.labels == old(self)@.labels,
            final(self)@.stored == old(self)@.stored,
            final(self)@.records == old(self)@.records.insert(
                id@,
                RecordState {
                    embedding: Some(embedding@),
                    metadata: types::meta_opt(*metadata),
                    document: types::text_opt(*document),
                    seq,
                },
            ),
            final(self)@.buffer == without(old(self)@.buffer, id@).push(
                (
                    id@,
                    RecordState {
                        embedding: Some(embedding@),
                        metadata: types::meta_opt(*metadata),
                        document: types::text_opt(*document),
                        seq,
                    },
                ),
            ),
            final(self)@.offsets == old(self)@.offsets.insert(
                id@,
                if old(self)@.offsets.contains_key(id@) {
                    old(self)@.offsets[id@]
                } else {
                    old(self)@.next_offset
                },
            ),
            final(self)@.next_offset == (if old(self)@.offsets.contains_key(id@) {
                old(self)@.next_offset as int
            } else {
                old(self)@.next_offset + 1
            }),
    {
        let ghost start = self@;
        let ghost new = RecordState {
            embedding: Some(embedding@),
            metadata: types::meta_opt(*metadata),
            document: types::text_opt(*document),
            seq,
        };
        proof {
            lemma_buffer_put(start.buffer, start.records, id@);
        }
        self.unbuffer(id.as_str());
        self.buffer.push(
            Record {
                id: id.clone(),
                embedding: Some(clone_vector(embedding)),
                metadata: clone_meta(metadata),
                document: clone_text(document),
                seq,
            },
        );
        assert(buffer_states(self.buffer@) =~= without(start.buffer, id@).push((id@, new)));
        let ghost buffered = self.buffer;
        let ghost store = store_of(start.records, start.offsets);
        // The offset stays with an existing record and is new for a new one.
        let o: u32 = self.offset_for(id.as_str());
        match self.records.get(id.as_str()) {
            Some(old_record) => {
                self.postings.remove(o, old_record.metadata.as_ref());
                proof {
                    assert(start.records.contains_key(id@));
                    if start.offsets.contains_key(id@) {
                        lemma_at_offset(start.offsets, id@);
                    } else {
                        assert(!in_use(start.offsets, o)) by {
                            if in_use(start.offsets, o) {
                                let a = at_offset(start.offsets, o);
                                assert(start.offsets.contains_key(a) && start.offsets[a] == o);
                            }
                        }
                    }
                    postings::removal_mirrors_absence(
                        start.postings,
                        store,
                        o,
                        start.records[id@].metadata,
                    );
                }
            },
            None => {
                proof {
                    assert(!start.records.contains_key(id@));
                    assert(!start.offsets.contains_key(id@));
                    assert(!in_use(start.offsets, o)) by {
                        if in_use(start.offsets, o) {
                            let a = at_offset(start.offsets, o);
                            assert(start.offsets.contains_key(a) && start.offsets[a] == o);
                        }
                    }
                    assert(store.remove(o) =~= store);
                }
            },
        }
        assert(postings::mirrors(self.postings@, store.remove(o)));
        let ghost mid = self.postings@;
        self.postings.insert(o, metadata.as_ref());
        proof {
            postings::insertion_mirrors_new_record(mid, store.remove(o), o, new.metadata);
            lemma_store_put(start.records, start.offsets, id@, new, o);
        }
        let record = Record {
            id: id.clone(),
            embedding: Some(clone_vector(embedding)),
            metadata: clone_meta(metadata),
            document: clone_text(document),
            seq,
        };
        proof {
            lemma_record_states_insert(self.records@, id@, record);
        }
        self.records.insert(id.clone(), record);
        proof {
            let end = self@;
            assert(end.records == start.records.insert(id@, new));
            assert(end.offsets == start.offsets.insert(id@, o));
            assert forall|a: Seq<char>| #[trigger] end.offsets.contains_key(a) implies end.offsets[a]
                < end.next_offset by {
                if a != id@ {
                    assert(start.offsets.contains_key(a));
                }
            }
            assert forall|a: Seq<char>| #[trigger] end.records.contains_key(a) && !end.offsets.contains_key(
                a,
            ) implies end.records[a].metadata is None && end.records[a].embedding is None
                && !end.stored.contains_key(a) by {
                assert(start.records.contains_key(a));
            }
            assert forall|a: Seq<char>| #[trigger] end.stored.contains_key(a) implies end.records.contains_key(
                a,
            ) by {
                assert(start.stored.contains_key(a));
            }
            assert forall|a: Seq<char>| #[trigger] end.labels.labels.contains_key(a) implies end.records.contains_key(
                a,
            ) by {
                assert(start.labels.labels.contains_key(a));
            }
            let rest = without(start.buffer, id@);
            assert forall|i: int, j: int|
                0 <= i < end.buffer.len() && 0 <= j < end.buffer.len() && (#[trigger] end.buffer[i]).0 == (
                #[trigger] end.buffer[j]).0 implies i == j by {
                if i < rest.len() {
                    assert(end.buffer[i] == rest[i]);
                }
                if j < rest.len() {
                    assert(end.buffer[j] == rest[j]);
                }
            }
            assert forall|i: int| 0 <= i < end.buffer.len() implies waiting(
                #[trigger] end.buffer[i],
                end.records,
            ) by {
                if i < rest.len() {
                    assert(end.buffer[i] == rest[i]);
                }
            }
        }
    }
}

impl Collection {
    #[verifier::rlimit(40)]
    fn change(&mut self, id: &Id, metadata: &Option<Metadata>, document: &Option<Document>, seq: u64)
        requires
            old(self).wf(),
            old(self)@.next_offset < u32::MAX,
        ensures
            final(self).wf(),
            same_frame(final(self)@, old(self)@),
            final(self)@.labels == old(self)@.labels,
            final(self)@.stored == old(self)@.stored,
            final(self)@.buffer == old(self)@.buffer,
            final(self)@.records == old(self)@.records.insert(
                id@,
                RecordState {
                    embedding: if old(self)@.records.contains_key(id@) {
                        old(self)@.records[id@].embedding
                    } else {
                        None
                    },
                    metadata: types::meta_opt(*metadata),
                    document: types::text_opt(*document),
                    seq,
                },
            ),
            forall|a: Seq<char>|
                #[trigger] old(self)@.offsets.contains_key(a) ==> final(self)@.offsets.contains_key(a)
                    && final(self)@.offsets[a] == old(self)@.offsets[a],
            final(self)@.next_offset <= old(self)@.next_offset + 1,
            final(self)@.next_offset >= old(self)@.next_offset,
    {
        let ghost start = self@;
        let ghost store = store_of(start.records, start.offsets);
        let (embedding, old_metadata): (Option<Embedding>, Option<Metadata>) = match self.records.get(
            id.as_str(),
        ) {
            Some(r) => (
                match &r.embedding {
                    Some(e) => Some(clone_vector(e)),
                    None => None,
                },
                clone_meta(&r.metadata),
            ),
            None => (None, None),
        };
        let ghost new = RecordState {
            embedding: vector_opt(embedding),
            metadata: types::meta_opt(*metadata),
            document: types::text_opt(*document),
            seq,
        };
        let ghost old_meta = types::meta_opt(old_metadata);
        assert(start.records.contains_key(id@) ==> old_meta == start.records[id@].metadata);
        let differs: bool = metadata_differs(&old_metadata, metadata);
        if differs {
            let o: u32 = self.offset_for(id.as_str());
            self.postings.remove(o, old_metadata.as_ref());
            proof {
                if start.offsets.contains_key(id@) {
                    lemma_at_offset(start.offsets, id@);
                } else {
                    assert(!in_use(start.offsets, o)) by {
                        if in_use(start.offsets, o) {
                            let a = at_offset(start.offsets, o);
                            assert(start.offsets.contains_key(a) && start.offsets[a] == o);
                        }
                    }
                }
                postings::removal_mirrors_absence(start.postings, store, o, old_meta);
            }
            let ghost mid = self.postings@;
            self.postings.insert(o, metadata.as_ref());
            proof {
                postings::insertion_mirrors_new_record(mid, store.remove(o), o, new.metadata);
                lemma_store_put(start.records, start.offsets, id@, new, o);
            }
        } else {
            proof {
                if start.offsets.contains_key(id@) {
                    let o = start.offsets[id@];
                    assert(start.records.contains_key(id@));
                    match (old_meta, new.metadata) {
                        (Some(x), Some(y)) => {
                            postings::same_metadata_is_indexed_alike(o, x, y);
                        },
                        _ => {},
                    }
                }
                lemma_store_keep(start.postings, start.records, start.offsets, id@, new);
            }
        }
        let record = Record {
            id: id.clone(),
            embedding,
            metadata: clone_meta(metadata),
            document: clone_text(document),
            seq,
        };
        proof {
            lemma_record_states_insert(self.records@, id@, record);
        }
        self.records.insert(id.clone(), record);
        proof {
            let end = self@;
            assert(end.records == start.records.insert(id@, new));
            assert forall|a: Seq<char>| #[trigger] end.offsets.contains_key(a) implies end.offsets[a]
                < end.next_offset && end.records.contains_key(a) by {
                if a != id@ {
                    assert(start.offsets.contains_key(a));
                }
            }
            assert forall|a: Seq<char>| #[trigger] end.records.contains_key(a) && !end.offsets.contains_key(
                a,
            ) implies end.records[a].metadata is None && end.records[a].embedding is None
                && !end.stored.contains_key(a) by {
                if a == id@ {
                    assert(!differs);
                    if start.records.contains_key(id@) {
                        assert(!start.offsets.contains_key(id@));
                    } else {
                        assert(!start.stored.contains_key(id@));
                    }
                    assert(old_meta is None);
                } else {
                    assert(start.records.contains_key(a));
                }
            }
            assert forall|i: int| 0 <= i < end.buffer.len() implies waiting(
                #[trigger] end.buffer[i],
                end.records,
            ) by {
                assert(waiting(start.buffer[i], start.records));
            }
            assert forall|a: Seq<char>| #[trigger] end.stored.contains_key(a) implies end.records.contains_key(
                a,
            ) by {
                assert(start.stored.contains_key(a));
            }
            assert forall|a: Seq<char>| #[trigger] end.labels.labels.contains_key(a) implies end.records.contains_key(
                a,
            ) by {
                assert(start.labels.labels.contains_key(a));
            }
            assert(offsets_distinct(end.offsets));
            assert(postings::mirrors(end.postings, store_of(end.records, end.offsets)));
            assert(end.buffer == start.buffer && sound(start));
            assert(index::labels_distinct(end.labels));
            assert(sound(end));
            assert(self.offsets_agree());
        }
    }

    #[verifier::rlimit(40)]
    fn drop_record(&mut self, id: &Id) -> (label: Option<u64>)
        requires
            old(self).wf(),
        ensures
            final(self).wf(),
            same_frame(final(self)@, old(self)@),
            final(self)@.labels == (LabelsView {
                labels: old(self)@.labels.labels.remove(id@),
                ..old(self)@.labels
            }),
            final(self)@.buffer == without(old(self)@.buffer, id@),
            final(self)@.stored == old(self)@.stored.remove(id@),
            final(self)@.records == old(self)@.records.remove(id@),
            final(self)@.offsets == old(self)@.offsets.remove(id@),
            final(self)@.next_offset == old(self)@.next_offset,
            label == (if old(self)@.labels.labels.contains_key(id@) {
                Some(old(self)@.labels.labels[id@])
            } else {
                None
            }),
    {
        let ghost start = self@;
        let ghost store = store_of(start.records, start.offsets);
        proof {
            lemma_buffer_put(start.buffer, start.records, id@);
        }
        self.unbuffer(id.as_str());
        let at: Option<u32> = match self.offsets.get(id.as_str()) {
            Some(o) => Some(*o),
            None => None,
        };
        match at {
            Some(o) => {
                proof {
                    lemma_at_offset(start.offsets, id@);
                }
                match self.records.get(id.as_str()) {
                    Some(r) => {
                        self.postings.remove(o, r.metadata.as_ref());
                        proof {
                            postings::removal_mirrors_absence(
                                start.postings,
                                store,
                                o,
                                start.records[id@].metadata,
                            );
                        }
                    },
                    None => {},
                }
                let ghost mid = self.postings@;
                assert(postings::mirrors(mid, store.remove(o)));
                self.postings.remove_all(o);
                proof {
                    postings::full_removal_mirrors_absence(mid, store.remove(o), o);
                    assert(store.remove(o).remove(o) =~= store.remove(o));
                    lemma_store_drop(start.records, start.offsets, id@);
                }
                self.id_by_offset.remove(&o);
                self.offsets.remove(id.as_str());
                proof {
                    assert forall|k: Seq<char>|
                        #[trigger] self.offsets@.contains_key(k) implies self.id_by_offset@.contains_key(
                        self.offsets@[k],
                    ) && self.id_by_offset@[self.offsets@[k]]@ == k by {
                        assert(start.offsets.contains_key(k));
                        assert(start.offsets[k] != start.offsets[id@]);
                    }
                }
            },
            None => {
                proof {
                    assert(start.offsets.remove(id@) =~= start.offsets);
                    // A record without an offset is not in the postings.
                    let left = store_of(start.records.remove(id@), start.offsets);
                    assert(left =~= store) by {
                        assert forall|p: u32| left.contains_key(p) implies left[p] == store[p] by {
                            let a = at_offset(start.offsets, p);
                            assert(start.offsets.contains_key(a) && start.offsets[a] == p);
                            assert(a != id@);
                        }
                    }
                }
            },
        }
        proof {
            lemma_record_states_remove(self.records@, id@);
        }
        self.records.remove(id.as_str());
        // A vector must not outlive its record, neither in the segment file nor
        // in the graph.
        self.stored.remove(id.as_str());
        let label: Option<u64> = self.labels.delete(id.as_str());
        proof {
            self.labels.lemma_distinct();
            let end = self@;
            assert forall|a: Seq<char>| #[trigger] end.offsets.contains_key(a) implies end.offsets[a]
                < end.next_offset && end.records.contains_key(a) by {
                assert(start.offsets.contains_key(a));
            }
            assert forall|a: Seq<char>| #[trigger] end.records.contains_key(a) && !end.offsets.contains_key(
                a,
            ) implies end.records[a].metadata is None && end.records[a].embedding is None
                && !end.stored.contains_key(a) by {
                assert(start.records.contains_key(a));
            }
            assert forall|i: int| 0 <= i < end.buffer.len() implies waiting(
                #[trigger] end.buffer[i],
                end.records,
            ) by {
                assert(waiting(end.buffer[i], start.records));
            }
            assert forall|a: Seq<char>| #[trigger] end.stored.contains_key(a) implies end.records.contains_key(
                a,
            ) by {
                assert(start.stored.contains_key(a));
            }
            assert forall|a: Seq<char>| #[trigger] end.labels.labels.contains_key(a) implies end.records.contains_key(
                a,
            ) by {
                assert(start.labels.labels.contains_key(a));
            }
            assert(offsets_distinct(end.offsets));
        }
        label
    }

    /// Applies one operation of the log to the state. This is the step both of
    /// live writes and of a replay. A deletion returns the label that is to be
    /// removed from the graph, if the record was in it.
    pub fn apply_operation(&mut self, op: &Operation, seq: u64) -> (label: Option<u64>)
        requires
            old(self).wf(),
            old(self)@.next_offset < u32::MAX,
        ensures
            final(self).wf(),
            same_frame(final(self)@, old(self)@),
            final(self)@.records == records_after(old(self)@.records, op.target(), op.effect(), seq),
            final(self)@.buffer == buffer_after(old(self)@.buffer, op.target(), op.effect(), seq),
            final(self)@.stored == stored_after(old(self)@.stored, op.target(), op.effect()),
            final(self)@.labels == labels_after(old(self)@.labels, op.target(), op.effect()),
            label == (if op.effect() is Drop && old(self)@.labels.labels.contains_key(op.target()) {
                Some(old(self)@.labels.labels[op.target()])
            } else {
                None
            }),
            old(self)@.next_offset <= final(self)@.next_offset <= old(self)@.next_offset + 1,
            forall|a: Seq<char>|
                a != op.target() && #[trigger] old(self)@.offsets.contains_key(a)
                    ==> final(self)@.offsets.contains_key(a) && final(self)@.offsets[a] == old(
                    self,
                )@.offsets[a],
    {
        match op {
            Operation::Add { id, embedding, metadata, document } => {
                self.put(id, embedding, metadata, document, seq);
                None
            },
            Operation::Upsert { id, embedding, metadata, document } => {
                self.put(id, embedding, metadata, document, seq);
                None
            },
            Operation::Update { id, metadata, document } => {
                self.change(id, metadata, document, seq);
                None
            },
            Operation::Delete { id } => self.drop_record(id),
        }
    }
}

} // verus!
