//! Moving buffered vectors into the graph index.

use vstd::prelude::*;
use vstd::string::*;

use crate::collection;
use crate::collection::query;
use crate::collection::{clone_vector, Collection, CollectionState, Record, RecordState};
use crate::index;
use crate::index::{IndexError, LabelMap, LabelsView};
use crate::types::Embedding;

verus! {

/// A change that the graph index is to make.
#[derive(Debug, PartialEq)]
pub enum GraphChange {
    /// Takes out the vector under a label.
    Remove { label: u64 },
    /// Puts in a vector under a new label.
    Insert { label: u64, vector: Embedding },
}

/// A change of the graph index as a mathematical value.
pub enum ChangeView {
    Remove { label: u64 },
    Insert { label: u64, vector: Seq<u32> },
}

impl View for GraphChange {
    type V = ChangeView;

    open spec fn view(&self) -> ChangeView {
        match self {
            GraphChange::Remove { label } => ChangeView::Remove { label: *label },
            GraphChange::Insert { label, vector } => ChangeView::Insert { label: *label, vector: vector@ },
        }
    }
}

/// Changes as mathematical values.
pub open spec fn changes(v: Seq<GraphChange>) -> Seq<ChangeView> {
    Seq::new(v.len(), |i: int| v[i]@)
}

/// How far a flush came.
pub struct Progress {
    pub labels: LabelsView,
    pub changes: Seq<ChangeView>,
    /// The length of a vector that does not fit the index, where one stopped
    /// the flush.
    pub misfit: Option<nat>,
}

/// A flush of a run of buffered records. A record that is in the index is taken
/// out first; each goes in under a new label. The first vector that does not
/// fit the index stops the flush.
pub open spec fn flushing(labels: LabelsView, batch: Seq<(Seq<char>, RecordState)>) -> Progress
    decreases batch.len(),
{
    if batch.len() == 0 {
        Progress { labels, changes: Seq::empty(), misfit: None }
    } else {
        let before = flushing(labels, batch.drop_last());
        let (id, r) = batch.last();
        if before.misfit is Some || r.embedding is None {
            before
        } else {
            let vector = r.embedding->0;
            let l = before.labels.labels;
            let cleared = if l.contains_key(id) {
                before.changes.push(ChangeView::Remove { label: l[id] })
            } else {
                before.changes
            };
            if vector.len() != labels.dimension {
                Progress {
                    labels: LabelsView { labels: l.remove(id), ..before.labels },
                    changes: cleared,
                    misfit: Some(vector.len()),
                }
            } else {
                let label = before.labels.next_label;
                Progress {
                    labels: LabelsView {
                        labels: l.remove(id).insert(id, label),
                        next_label: (label + 1) as u64,
                        ..before.labels
                    },
                    changes: cleared.push(ChangeView::Insert { label, vector }),
                    misfit: None,
                }
            }
        }
    }
}

/// The highest sequence number of a run of records, or a lower bound.
pub open spec fn highest_seq(least: u64, batch: Seq<(Seq<char>, RecordState)>) -> u64
    decreases batch.len(),
{
    if batch.len() == 0 {
        least
    } else {
        let before = highest_seq(least, batch.drop_last());
        let seq = batch.last().1.seq;
        if seq > before {
            seq
        } else {
            before
        }
    }
}

/// The outcome of a flush: the changes for the graph index, and the error that
/// stopped it, if one did.
#[derive(Debug)]
pub struct Flush {
    pub changes: Vec<GraphChange>,
    pub error: Option<IndexError>,
}

/// What a flush makes of a collection's state.
pub open spec fn flushed(a: CollectionState) -> CollectionState {
    let p = flushing(a.labels, a.buffer);
    CollectionState {
        buffer: Seq::empty(),
        labels: p.labels,
        flushed_seq: if p.misfit is None {
            highest_seq(a.flushed_seq, a.buffer)
        } else {
            a.flushed_seq
        },
        ..a
    }
}

proof fn lemma_next_label(labels: LabelsView, batch: Seq<(Seq<char>, RecordState)>)
    requires
        labels.next_label + batch.len() <= u64::MAX,
    ensures
        flushing(labels, batch).labels.next_label <= labels.next_label + batch.len(),
        flushing(labels, batch).labels.dimension == labels.dimension,
    decreases batch.len(),
{
    if batch.len() > 0 {
        lemma_next_label(labels, batch.drop_last());
    }
}

proof fn lemma_flushing_names(
    labels: LabelsView,
    batch: Seq<(Seq<char>, RecordState)>,
    id: Seq<char>,
)
    requires
        flushing(labels, batch).labels.labels.contains_key(id),
    ensures
        labels.labels.contains_key(id) || exists|i: int|
            0 <= i < batch.len() && (#[trigger] batch[i]).0 == id,
    decreases batch.len(),
{
    if batch.len() > 0 {
        let rest = batch.drop_last();
        if flushing(labels, rest).labels.labels.contains_key(id) {
            lemma_flushing_names(labels, rest, id);
            if !labels.labels.contains_key(id) {
                let i = choose|i: int| 0 <= i < rest.len() && (#[trigger] rest[i]).0 == id;
                assert(batch[i] == rest[i]);
            }
        } else {
            assert(batch[batch.len() - 1].0 == id);
        }
    }
}

/// Puts a run of records into the index.
fn flush_records(labels: &mut LabelMap, batch: &Vec<Record>) -> (r: Flush)
    requires
        old(labels).wf(),
        old(labels)@.next_label + batch@.len() <= u64::MAX,
    ensures
        final(labels).wf(),
        ({
            let p = flushing(old(labels)@, collection::buffer_states(batch@));
            &&& final(labels)@ == p.labels
            &&& changes(r.changes@) == p.changes
            &&& p.misfit is None <==> r.error is None
            &&& p.misfit matches Some(n) ==> r.error == Some(
                IndexError::DimensionMismatch { index: old(labels)@.dimension, got: n as usize },
            )
        }),
{
    let mut out: Vec<GraphChange> = Vec::new();
    let mut error: Option<IndexError> = None;
    let ghost all = collection::buffer_states(batch@);
    let mut i: usize = 0;
    assert(all.take(0) =~= Seq::<(Seq<char>, RecordState)>::empty());
    assert(changes(out@) =~= Seq::<ChangeView>::empty());
    while i < batch.len()
        invariant
            i <= batch.len(),
            all == collection::buffer_states(batch@),
            labels.wf(),
            old(labels)@.next_label + batch@.len() <= u64::MAX,
            ({
                let p = flushing(old(labels)@, all.take(i as int));
                &&& labels@ == p.labels
                &&& changes(out@) == p.changes
                &&& p.misfit is None <==> error is None
                &&& p.misfit matches Some(n) ==> error == Some(
                    IndexError::DimensionMismatch { index: old(labels)@.dimension, got: n as usize },
                )
            }),
        decreases batch.len() - i,
    {
        let ghost p = flushing(old(labels)@, all.take(i as int));
        proof {
            assert(all.take(i + 1).drop_last() =~= all.take(i as int));
            assert(all.take(i + 1).last() == all[i as int]);
            lemma_next_label(old(labels)@, all.take(i as int));
        }
        let record: &Record = &batch[i];
        if error.is_none() {
            match &record.embedding {
                Some(embedding) => {
                    let ghost first = changes(out@);
                    match labels.delete(record.id.as_str()) {
                        Some(label) => {
                            out.push(GraphChange::Remove { label });
                            assert(changes(out@) =~= first.push(ChangeView::Remove { label }));
                        },
                        None => {},
                    }
                    let ghost cleared = changes(out@);
                    assert(labels@.labels == p.labels.labels.remove(record.id@));
                    match labels.add(record.id.as_str(), embedding.len()) {
                        Ok(label) => {
                            out.push(GraphChange::Insert { label, vector: clone_vector(embedding) });
                            assert(changes(out@) =~= cleared.push(
                                ChangeView::Insert { label, vector: embedding@ },
                            ));
                        },
                        Err(e) => {
                            error = Some(e);
                        },
                    }
                },
                None => {},
            }
        }
        i += 1;
    }
    assert(all.take(batch@.len() as int) =~= all);
    Flush { changes: out, error }
}

impl Collection {
    /// Number of labels that can still be handed out.
    pub fn labels_left(&self) -> (n: u64)
        requires
            self.wf(),
        ensures
            n == u64::MAX - self@.labels.next_label,
    {
        u64::MAX - self.labels.next_label()
    }

    /// Number of records that wait for the graph index.
    pub fn buffered(&self) -> (n: usize)
        ensures
            n == self@.buffer.len(),
    {
        self.buffer.len()
    }

    /// Drains the buffer into the index. Returns the changes that the graph is
    /// to make, in order.
    pub fn flush_buffer(&mut self) -> (r: Flush)
        requires
            old(self).wf(),
            old(self)@.labels.next_label + old(self)@.buffer.len() <= u64::MAX,
        ensures
            final(self).wf(),
            final(self)@ == flushed(old(self)@),
            ({
                let p = flushing(old(self)@.labels, old(self)@.buffer);
                &&& changes(r.changes@) == p.changes
                &&& p.misfit is None <==> r.error is None
                &&& p.misfit matches Some(n) ==> r.error == Some(
                    IndexError::DimensionMismatch { index: old(self)@.labels.dimension, got: n as usize },
                )
            }),
    {
        let mut batch: Vec<Record> = Vec::new();
        std::mem::swap(&mut batch, &mut self.buffer);
        let r: Flush = flush_records(&mut self.labels, &batch);
        if r.error.is_none() {
            let mut i: usize = 0;
            let ghost all = collection::buffer_states(batch@);
            assert(all.take(0) =~= Seq::<(Seq<char>, RecordState)>::empty());
            let mut top: u64 = self.flushed_seq;
            while i < batch.len()
                invariant
                    i <= batch.len(),
                    all == collection::buffer_states(batch@),
                    top == highest_seq(self.flushed_seq, all.take(i as int)),
                decreases batch.len() - i,
            {
                proof {
                    assert(all.take(i + 1).drop_last() =~= all.take(i as int));
                    assert(all.take(i + 1).last() == all[i as int]);
                }
                if batch[i].seq > top {
                    top = batch[i].seq;
                }
                i += 1;
            }
            assert(all.take(batch@.len() as int) =~= all);
            self.flushed_seq = top;
        }
        proof {
            self.labels.lemma_distinct();
            let start = old(self)@;
            let end = self@;
            assert(self@.buffer =~= Seq::<(Seq<char>, RecordState)>::empty());
            assert forall|a: Seq<char>| #[trigger] end.stored.contains_key(a) implies end.records.contains_key(
                a,
            ) by {
                assert(start.stored.contains_key(a));
            }
            assert forall|a: Seq<char>| #[trigger] end.labels.labels.contains_key(a) implies end.records.contains_key(
                a,
            ) by {
                lemma_flushing_names(start.labels, start.buffer, a);
                if !start.labels.labels.contains_key(a) {
                    let i = choose|i: int|
                        0 <= i < start.buffer.len() && (#[trigger] start.buffer[i]).0 == a;
                    assert(collection::waiting(start.buffer[i], start.records));
                }
            }
            assert(collection::sound(end));
        }
        r
    }

    /// Drains the buffer once it has reached the batch size.
    pub fn flush_if_needed(&mut self) -> (r: Flush)
        requires
            old(self).wf(),
            old(self)@.labels.next_label + old(self)@.buffer.len() <= u64::MAX,
        ensures
            final(self).wf(),
            old(self)@.buffer.len() < old(self)@.config.hnsw.batch_size ==> final(self)@ == old(self)@
                && r.changes@.len() == 0 && r.error is None,
            old(self)@.buffer.len() >= old(self)@.config.hnsw.batch_size ==> {
                let p = flushing(old(self)@.labels, old(self)@.buffer);
                &&& final(self)@ == flushed(old(self)@)
                &&& changes(r.changes@) == p.changes
                &&& p.misfit is None <==> r.error is None
                &&& p.misfit matches Some(n) ==> r.error == Some(
                    IndexError::DimensionMismatch { index: old(self)@.labels.dimension, got: n as usize },
                )
            },
    {
        if self.buffer.len() >= self.config.hnsw.batch_size {
            self.flush_buffer()
        } else {
            Flush { changes: Vec::new(), error: None }
        }
    }
}

// ---------------------------------------------------------------------------
// Laws
// ---------------------------------------------------------------------------

/// The vectors of a graph, by label, after a change.
pub open spec fn graph_after(graph: Map<u64, Seq<u32>>, changes: Seq<ChangeView>) -> Map<u64, Seq<u32>>
    decreases changes.len(),
{
    if changes.len() == 0 {
        graph
    } else {
        let before = graph_after(graph, changes.drop_last());
        match changes.last() {
            ChangeView::Remove { label } => before.remove(label),
            ChangeView::Insert { label, vector } => before.insert(label, vector),
        }
    }
}

proof fn lemma_graph_push(graph: Map<u64, Seq<u32>>, changes: Seq<ChangeView>, c: ChangeView)
    ensures
        graph_after(graph, changes.push(c)) == (match c {
            ChangeView::Remove { label } => graph_after(graph, changes).remove(label),
            ChangeView::Insert { label, vector } => graph_after(graph, changes).insert(label, vector),
        }),
{
    assert(changes.push(c).drop_last() =~= changes);
}

/// A flush that is not stopped leaves each buffered vector in the graph under
/// the label of its record, and the vectors of other records as they were.
pub proof fn flushed_vectors_reach_the_graph(
    labels: LabelsView,
    batch: Seq<(Seq<char>, RecordState)>,
    graph: Map<u64, Seq<u32>>,
)
    requires
        index::labels_distinct(labels),
        labels.next_label + batch.len() <= u64::MAX,
        flushing(labels, batch).misfit is None,
        forall|i: int, j: int|
            0 <= i < batch.len() && 0 <= j < batch.len() && (#[trigger] batch[i]).0 == (
            #[trigger] batch[j]).0 ==> i == j,
        forall|i: int| 0 <= i < batch.len() ==> (#[trigger] batch[i]).1.embedding is Some,
    ensures
        ({
            let p = flushing(labels, batch);
            let after = graph_after(graph, p.changes);
            &&& forall|i: int|
                0 <= i < batch.len() ==> p.labels.labels.contains_key((#[trigger] batch[i]).0)
                    && after.contains_key(p.labels.labels[batch[i].0]) && Some(
                    after[p.labels.labels[batch[i].0]],
                ) == batch[i].1.embedding
            &&& forall|id: Seq<char>|
                (forall|i: int| 0 <= i < batch.len() ==> (#[trigger] batch[i]).0 != id)
                    && labels.labels.contains_key(id) && graph.contains_key(#[trigger] labels.labels[id]) ==> {
                    &&& p.labels.labels.contains_key(id)
                    &&& p.labels.labels[id] == labels.labels[id]
                    &&& after.contains_key(labels.labels[id])
                    &&& after[labels.labels[id]] == graph[labels.labels[id]]
                }
        }),
    decreases batch.len(),
{
    if batch.len() > 0 {
        let rest = batch.drop_last();
        let b = flushing(labels, rest);
        assert(b.misfit is None);
        assert forall|i: int, j: int|
            0 <= i < rest.len() && 0 <= j < rest.len() && (#[trigger] rest[i]).0 == (
            #[trigger] rest[j]).0 implies i == j by {
            assert(rest[i] == batch[i] && rest[j] == batch[j]);
        }
        assert forall|i: int| 0 <= i < rest.len() implies (#[trigger] rest[i]).1.embedding is Some by {
            assert(rest[i] == batch[i]);
        }
        flushed_vectors_reach_the_graph(labels, rest, graph);
        lemma_flushing_distinct(labels, rest);
        lemma_next_label(labels, rest);
        let p = flushing(labels, batch);
        let (id, r) = batch.last();
        assert(batch[batch.len() - 1] == (id, r));
        let l = b.labels.labels;
        let mid = graph_after(graph, b.changes);
        let label = b.labels.next_label;
        let cleared = if l.contains_key(id) {
            b.changes.push(ChangeView::Remove { label: l[id] })
        } else {
            b.changes
        };
        if l.contains_key(id) {
            lemma_graph_push(graph, b.changes, ChangeView::Remove { label: l[id] });
        }
        let mid2 = graph_after(graph, cleared);
        lemma_graph_push(graph, cleared, ChangeView::Insert { label, vector: r.embedding->0 });
        let after = graph_after(graph, p.changes);
        assert(after == mid2.insert(label, r.embedding->0));
        assert forall|i: int| 0 <= i < batch.len() implies p.labels.labels.contains_key(
            (#[trigger] batch[i]).0,
        ) && after.contains_key(p.labels.labels[batch[i].0]) && Some(
            after[p.labels.labels[batch[i].0]],
        ) == batch[i].1.embedding by {
            if i < rest.len() {
                assert(rest[i] == batch[i]);
                assert(batch[i].0 != id);
                assert(l.contains_key(batch[i].0));
                assert(l[batch[i].0] < label);
                if l.contains_key(id) {
                    assert(l[batch[i].0] != l[id]);
                }
            }
        }
        assert forall|other: Seq<char>|
            (forall|i: int| 0 <= i < batch.len() ==> (#[trigger] batch[i]).0 != other)
                && labels.labels.contains_key(other) && graph.contains_key(
                #[trigger] labels.labels[other],
            ) implies p.labels.labels.contains_key(other) && p.labels.labels[other] == labels.labels[other]
            && after.contains_key(labels.labels[other]) && after[labels.labels[other]]
            == graph[labels.labels[other]] by {
            assert(batch[batch.len() - 1].0 != other);
            assert forall|i: int| 0 <= i < rest.len() implies (#[trigger] rest[i]).0 != other by {
                assert(rest[i] == batch[i]);
            }
            assert(l.contains_key(other) && l[other] == labels.labels[other]);
            assert(l[other] < label);
            if l.contains_key(id) {
                assert(l[other] != l[id]);
            }
        }
    }
}

proof fn lemma_flushing_distinct(labels: LabelsView, batch: Seq<(Seq<char>, RecordState)>)
    requires
        index::labels_distinct(labels),
        labels.next_label + batch.len() <= u64::MAX,
    ensures
        index::labels_distinct(flushing(labels, batch).labels),
    decreases batch.len(),
{
    if batch.len() > 0 {
        lemma_flushing_distinct(labels, batch.drop_last());
        lemma_next_label(labels, batch.drop_last());
    }
}

/// A flush moves the watermark up to the newest buffered record and never back.
pub proof fn watermark_never_goes_back(least: u64, batch: Seq<(Seq<char>, RecordState)>)
    ensures
        highest_seq(least, batch) >= least,
        forall|i: int| 0 <= i < batch.len() ==> highest_seq(least, batch) >= (#[trigger] batch[i]).1.seq,
        highest_seq(least, batch) == least || exists|i: int|
            0 <= i < batch.len() && highest_seq(least, batch) == (#[trigger] batch[i]).1.seq,
    decreases batch.len(),
{
    if batch.len() > 0 {
        let rest = batch.drop_last();
        watermark_never_goes_back(least, rest);
        assert forall|i: int| 0 <= i < batch.len() implies highest_seq(least, batch) >= (
        #[trigger] batch[i]).1.seq by {
            if i < rest.len() {
                assert(rest[i] == batch[i]);
            }
        }
        if highest_seq(least, batch) == batch.last().1.seq {
            assert(batch[batch.len() - 1] == batch.last());
        } else if highest_seq(least, rest) != least {
            let i = choose|i: int|
                0 <= i < rest.len() && highest_seq(least, rest) == (#[trigger] rest[i]).1.seq;
            assert(batch[i] == rest[i]);
        }
    }
}

/// A flush changes no record: it empties the buffer and gives labels.
pub proof fn flushing_changes_no_record(a: CollectionState, file: Seq<Seq<u32>>)
    ensures
        query::contents(flushed(a), file) == query::contents(a, file),
        flushed(a).buffer.len() == 0,
        flushed(a).records == a.records,
        flushed(a).stored == a.stored,
        flushed(a).offsets == a.offsets,
        flushed(a).postings == a.postings,
        flushed(a).config == a.config,
        flushed(a).last_checkpoint_seq == a.last_checkpoint_seq,
{
    assert(query::contents(flushed(a), file) =~= query::contents(a, file));
}

/// The watermark of a flush is the highest number among what it covers and was
/// flushed.
pub proof fn the_watermark_is_the_highest(least: u64, batch: Seq<(Seq<char>, RecordState)>)
    ensures
        highest_seq(least, batch) >= least,
        forall|i: int| 0 <= i < batch.len() ==> highest_seq(least, batch) >= (#[trigger] batch[i]).1.seq,
        highest_seq(least, batch) == least || exists|i: int|
            0 <= i < batch.len() && (#[trigger] batch[i]).1.seq == highest_seq(least, batch),
    decreases batch.len(),
{
    if batch.len() > 0 {
        let rest = batch.drop_last();
        the_watermark_is_the_highest(least, rest);
        let h = highest_seq(least, batch);
        assert(batch[batch.len() - 1] == batch.last());
        assert forall|i: int| 0 <= i < batch.len() implies h >= (#[trigger] batch[i]).1.seq by {
            if i < rest.len() {
                assert(rest[i] == batch[i]);
            }
        }
        if highest_seq(least, rest) != least {
            let i = choose|i: int|
                0 <= i < rest.len() && (#[trigger] rest[i]).1.seq == highest_seq(least, rest);
            assert(batch[i] == rest[i]);
        }
    }
}

/// A flush is stopped by a vector that does not fit the index, and by nothing
/// else.
pub proof fn fitting_vectors_are_flushed(labels: LabelsView, batch: Seq<(Seq<char>, RecordState)>)
    ensures
        flushing(labels, batch).misfit is None <==> forall|i: int|
            0 <= i < batch.len() ==> ((#[trigger] batch[i]).1.embedding matches Some(v) ==> v.len()
                == labels.dimension),
    decreases batch.len(),
{
    if batch.len() > 0 {
        let rest = batch.drop_last();
        fitting_vectors_are_flushed(labels, rest);
        assert(batch[batch.len() - 1] == batch.last());
        assert forall|i: int| 0 <= i < rest.len() implies #[trigger] rest[i] == batch[i] by {}
        if forall|i: int|
            0 <= i < batch.len() ==> ((#[trigger] batch[i]).1.embedding matches Some(v) ==> v.len()
                == labels.dimension) {
            assert forall|i: int| 0 <= i < rest.len() implies ((#[trigger] rest[i]).1.embedding matches Some(
                v,
            ) ==> v.len() == labels.dimension) by {
                assert(rest[i] == batch[i]);
            }
        }
        if flushing(labels, batch).misfit is None {
            assert forall|i: int| 0 <= i < batch.len() implies ((#[trigger] batch[i]).1.embedding matches Some(
                v,
            ) ==> v.len() == labels.dimension) by {
                if i < rest.len() {
                    assert(rest[i] == batch[i]);
                }
            }
        }
    }
}

} // verus!
