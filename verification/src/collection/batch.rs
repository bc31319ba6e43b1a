//! Batches of writes, and reading records back.

use vstd::prelude::*;
use vstd::string::*;

use crate::collection;
use crate::collection::checkpoint::Rebuild;
use crate::collection::flush::Flush;
use crate::collection::history::LoggedOp;
use crate::collection::{checkpoint, flush, history, query, validate};
use crate::collection::{clone_vector, Collection, CollectionState, Record, RecordState};
use crate::config::{CollectionConfig, ConfigView};
use crate::error::{EngineError, EngineErrorView, EngineResult, Invalid, InvalidView, Verb};
use crate::idmap;
use crate::index::{IndexError, LabelsView};
use crate::op::{OpKind, Operation};
use crate::segment::Mapped;
use crate::text;
use crate::types;
use crate::types::{clone_meta, clone_text, Document, Embedding, Id, MetaView, Metadata};

verus! {

// ---------------------------------------------------------------------------
// Operations of a batch
// ---------------------------------------------------------------------------

/// The metadata of one record of a batch.
pub open spec fn meta_at(list: Option<Vec<Option<Metadata>>>, i: int) -> Option<
    Map<Seq<char>, MetaView>,
> {
    match list {
        Some(l) => types::meta_opt(l@[i]),
        None => None,
    }
}

/// The document of one record of a batch.
pub open spec fn text_at(list: Option<Vec<Option<Document>>>, i: int) -> Option<Seq<char>> {
    match list {
        Some(l) => types::text_opt(l@[i]),
        None => None,
    }
}

/// Whether a list, if there is one, goes with a number of ids.
pub open spec fn goes_with<T>(list: Option<Vec<T>>, n: nat) -> bool {
    list matches Some(l) ==> l@.len() == n
}

fn pick_meta(list: &Option<Vec<Option<Metadata>>>, i: usize) -> (r: Option<Metadata>)
    requires
        list matches Some(l) ==> i < l@.len(),
    ensures
        types::meta_opt(r) == meta_at(*list, i as int),
{
    match list {
        Some(l) => clone_meta(&l[i]),
        None => None,
    }
}

fn pick_text(list: &Option<Vec<Option<Document>>>, i: usize) -> (r: Option<Document>)
    requires
        list matches Some(l) ==> i < l@.len(),
    ensures
        types::text_opt(r) == text_at(*list, i as int),
{
    match list {
        Some(l) => clone_text(&l[i]),
        None => None,
    }
}

/// What a batch puts for one of its records.
pub open spec fn put_at(
    embeddings: Seq<Embedding>,
    metadatas: Option<Vec<Option<Metadata>>>,
    documents: Option<Vec<Option<Document>>>,
    i: int,
) -> OpKind {
    OpKind::Put {
        embedding: embeddings[i]@,
        metadata: meta_at(metadatas, i),
        document: text_at(documents, i),
    }
}

/// One addition for each id.
fn add_ops(
    ids: &Vec<Id>,
    embeddings: &Vec<Embedding>,
    metadatas: &Option<Vec<Option<Metadata>>>,
    documents: &Option<Vec<Option<Document>>>,
) -> (r: Vec<Operation>)
    requires
        embeddings@.len() == ids@.len(),
        goes_with(*metadatas, ids@.len()),
        goes_with(*documents, ids@.len()),
    ensures
        r@.len() == ids@.len(),
        forall|i: int|
            0 <= i < ids@.len() ==> (#[trigger] r@[i]) is Add && r@[i].target() == ids@[i]@ && r@[i].effect()
                == put_at(embeddings@, *metadatas, *documents, i),
{
    let mut out: Vec<Operation> = Vec::new();
    let mut i: usize = 0;
    while i < ids.len()
        invariant
            i <= ids.len(),
            embeddings@.len() == ids@.len(),
            goes_with(*metadatas, ids@.len()),
            goes_with(*documents, ids@.len()),
            out@.len() == i,
            forall|j: int|
                0 <= j < i ==> (#[trigger] out@[j]) is Add && out@[j].target() == ids@[j]@ && out@[j].effect()
                    == put_at(embeddings@, *metadatas, *documents, j),
        decreases ids.len() - i,
    {
        out.push(
            Operation::Add {
                id: ids[i].clone(),
                embedding: clone_vector(&embeddings[i]),
                metadata: pick_meta(metadatas, i),
                document: pick_text(documents, i),
            },
        );
        i += 1;
    }
    out
}

/// One upsert for each id.
fn upsert_ops(
    ids: &Vec<Id>,
    embeddings: &Vec<Embedding>,
    metadatas: &Option<Vec<Option<Metadata>>>,
    documents: &Option<Vec<Option<Document>>>,
) -> (r: Vec<Operation>)
    requires
        embeddings@.len() == ids@.len(),
        goes_with(*metadatas, ids@.len()),
        goes_with(*documents, ids@.len()),
    ensures
        r@.len() == ids@.len(),
        forall|i: int|
            0 <= i < ids@.len() ==> (#[trigger] r@[i]) is Upsert && r@[i].target() == ids@[i]@
                && r@[i].effect() == put_at(embeddings@, *metadatas, *documents, i),
{
    let mut out: Vec<Operation> = Vec::new();
    let mut i: usize = 0;
    while i < ids.len()
        invariant
            i <= ids.len(),
            embeddings@.len() == ids@.len(),
            goes_with(*metadatas, ids@.len()),
            goes_with(*documents, ids@.len()),
            out@.len() == i,
            forall|j: int|
                0 <= j < i ==> (#[trigger] out@[j]) is Upsert && out@[j].target() == ids@[j]@
                    && out@[j].effect() == put_at(embeddings@, *metadatas, *documents, j),
        decreases ids.len() - i,
    {
        out.push(
            Operation::Upsert {
                id: ids[i].clone(),
                embedding: clone_vector(&embeddings[i]),
                metadata: pick_meta(metadatas, i),
                document: pick_text(documents, i),
            },
        );
        i += 1;
    }
    out
}

/// What an update makes of the metadata of one of its records: what is given for
/// it, or what it has where no metadata are given.
pub open spec fn updated_meta(
    s: CollectionState,
    ids: Seq<Id>,
    metadatas: Option<Vec<Option<Metadata>>>,
    i: int,
) -> Option<Map<Seq<char>, MetaView>> {
    match metadatas {
        Some(_) => meta_at(metadatas, i),
        None => s.records[ids[i]@].metadata,
    }
}

/// What an update makes of the document of one of its records: what is given for
/// it, or what it has where no documents are given.
pub open spec fn updated_text(
    s: CollectionState,
    ids: Seq<Id>,
    documents: Option<Vec<Option<Document>>>,
    i: int,
) -> Option<Seq<char>> {
    match documents {
        Some(_) => text_at(documents, i),
        None => s.records[ids[i]@].document,
    }
}

/// What an update puts for one of its records.
pub open spec fn change_at(
    s: CollectionState,
    ids: Seq<Id>,
    metadatas: Option<Vec<Option<Metadata>>>,
    documents: Option<Vec<Option<Document>>>,
    i: int,
) -> OpKind {
    OpKind::Change {
        metadata: updated_meta(s, ids, metadatas, i),
        document: updated_text(s, ids, documents, i),
    }
}

/// One deletion for each id.
pub fn delete_ops(ids: &Vec<Id>) -> (r: Vec<Operation>)
    ensures
        r@.len() == ids@.len(),
        forall|i: int|
            0 <= i < ids@.len() ==> (#[trigger] r@[i]) is Delete && r@[i].target() == ids@[i]@
                && r@[i].effect() == OpKind::Drop,
{
    let mut out: Vec<Operation> = Vec::new();
    let mut i: usize = 0;
    while i < ids.len()
        invariant
            i <= ids.len(),
            out@.len() == i,
            forall|j: int|
                0 <= j < i ==> (#[trigger] out@[j]) is Delete && out@[j].target() == ids@[j]@
                    && out@[j].effect() == OpKind::Drop,
        decreases ids.len() - i,
    {
        out.push(Operation::Delete { id: ids[i].clone() });
        i += 1;
    }
    out
}

/// A batch that was found in order: its operations, and the dimension that the
/// collection takes over from it, if it had none.
#[derive(Debug)]
pub struct Batch {
    pub ops: Vec<Operation>,
    pub dimension: Option<usize>,
}

/// The dimension that a collection takes over from a batch.
pub open spec fn new_dimension(s: CollectionState, embeddings: Seq<nat>) -> Option<usize> {
    if s.config.dimension == 0 && embeddings.len() > 0 {
        Some(embeddings[0] as usize)
    } else {
        None
    }
}

/// What a request to add records comes to: a refusal, or one addition for each
/// id.
pub open spec fn prepares_add(
    s: CollectionState,
    ids: Seq<Id>,
    embeddings: Seq<Embedding>,
    metadatas: Option<Vec<Option<Metadata>>>,
    documents: Option<Vec<Option<Document>>>,
    r: EngineResult<Batch>,
) -> bool {
    let verdict = validate::add_verdict(
        s,
        text::views(ids),
        validate::lengths(embeddings),
        validate::count_of(metadatas),
        validate::count_of(documents),
    );
    match r {
        Err(e) => verdict matches Some(v) && e@ == EngineErrorView::Validation(v),
        Ok(b) => {
            &&& verdict is None
            &&& b.dimension == new_dimension(s, validate::lengths(embeddings))
            &&& b.ops@.len() == ids.len()
            &&& forall|i: int|
                0 <= i < ids.len() ==> (#[trigger] b.ops@[i]) is Add && b.ops@[i].target()
                    == ids[i]@ && b.ops@[i].effect() == put_at(
                    embeddings,
                    metadatas,
                    documents,
                    i,
                )
        },
    }
}

/// What a request to upsert records comes to: a refusal, or one upsert for each
/// id.
pub open spec fn prepares_upsert(
    s: CollectionState,
    ids: Seq<Id>,
    embeddings: Seq<Embedding>,
    metadatas: Option<Vec<Option<Metadata>>>,
    documents: Option<Vec<Option<Document>>>,
    r: EngineResult<Batch>,
) -> bool {
    let verdict = validate::batch_verdict(
        Verb::Upsert,
        ids.len(),
        validate::lengths(embeddings),
        validate::count_of(metadatas),
        validate::count_of(documents),
        validate::taken_dimension(s, validate::lengths(embeddings)),
    );
    match r {
        Err(e) => verdict matches Some(v) && e@ == EngineErrorView::Validation(v),
        Ok(b) => {
            &&& verdict is None
            &&& b.dimension == new_dimension(s, validate::lengths(embeddings))
            &&& b.ops@.len() == ids.len()
            &&& forall|i: int|
                0 <= i < ids.len() ==> (#[trigger] b.ops@[i]) is Upsert && b.ops@[i].target()
                    == ids[i]@ && b.ops@[i].effect() == put_at(
                    embeddings,
                    metadatas,
                    documents,
                    i,
                )
        },
    }
}

/// What a request to update records comes to: a refusal, or one update for each
/// id. Of a list that is not given, every record keeps what it has.
pub open spec fn prepares_update(
    s: CollectionState,
    ids: Seq<Id>,
    metadatas: Option<Vec<Option<Metadata>>>,
    documents: Option<Vec<Option<Document>>>,
    r: EngineResult<Batch>,
) -> bool {
    let verdict = validate::update_verdict(
        s,
        text::views(ids),
        validate::count_of(metadatas),
        validate::count_of(documents),
    );
    match r {
        Err(e) => verdict matches Some(v) && e@ == EngineErrorView::Validation(v),
        Ok(b) => {
            &&& verdict is None
            &&& b.dimension is None
            &&& b.ops@.len() == ids.len()
            &&& forall|i: int|
                0 <= i < ids.len() ==> (#[trigger] b.ops@[i]) is Update && b.ops@[i].target()
                    == ids[i]@ && b.ops@[i].effect() == change_at(s, ids, metadatas, documents, i)
        },
    }
}

/// A state with a dimension that it takes over.
pub open spec fn with_dimension(s: CollectionState, dimension: Option<usize>) -> CollectionState {
    match dimension {
        Some(d) => CollectionState {
            config: ConfigView { dimension: d, ..s.config },
            labels: LabelsView { dimension: d, ..s.labels },
            ..s
        },
        None => s,
    }
}

/// A state stays sound when it takes over a dimension.
proof fn lemma_with_dimension(s: CollectionState, dimension: Option<usize>)
    requires
        collection::sound(s),
    ensures
        collection::sound(with_dimension(s, dimension)),
{
}

impl Collection {
    fn dimension_from(&self, embeddings: &Vec<Embedding>) -> (d: Option<usize>)
        ensures
            d == new_dimension(self@, validate::lengths(embeddings@)),
    {
        if self.config.dimension == 0 && embeddings.len() > 0 {
            Some(embeddings[0].len())
        } else {
            None
        }
    }

    /// Prepares the addition of new records. A batch with anything wrong is
    /// refused as a whole.
    pub fn prepare_add(
        &self,
        ids: &Vec<Id>,
        embeddings: &Vec<Embedding>,
        metadatas: &Option<Vec<Option<Metadata>>>,
        documents: &Option<Vec<Option<Document>>>,
    ) -> (r: EngineResult<Batch>)
        requires
            self.wf(),
        ensures
            prepares_add(self@, ids@, embeddings@, *metadatas, *documents, r),
    {
        match self.validate_add(ids, embeddings, metadatas, documents) {
            Some(v) => Err(EngineError::Validation(v)),
            None => {
                let dimension: Option<usize> = self.dimension_from(embeddings);
                Ok(Batch { ops: add_ops(ids, embeddings, metadatas, documents), dimension })
            },
        }
    }

    /// Prepares the insertion or replacement of records.
    pub fn prepare_upsert(
        &self,
        ids: &Vec<Id>,
        embeddings: &Vec<Embedding>,
        metadatas: &Option<Vec<Option<Metadata>>>,
        documents: &Option<Vec<Option<Document>>>,
    ) -> (r: EngineResult<Batch>)
        ensures
            prepares_upsert(self@, ids@, embeddings@, *metadatas, *documents, r),
    {
        match self.validate_upsert(ids, embeddings, metadatas, documents) {
            Some(v) => Err(EngineError::Validation(v)),
            None => {
                let dimension: Option<usize> = self.dimension_from(embeddings);
                Ok(Batch { ops: upsert_ops(ids, embeddings, metadatas, documents), dimension })
            },
        }
    }

    /// One update for each id.
    fn update_ops(
        &self,
        ids: &Vec<Id>,
        metadatas: &Option<Vec<Option<Metadata>>>,
        documents: &Option<Vec<Option<Document>>>,
    ) -> (r: Vec<Operation>)
        requires
            self.wf(),
            goes_with(*metadatas, ids@.len()),
            goes_with(*documents, ids@.len()),
            forall|i: int| 0 <= i < ids@.len() ==> self@.records.contains_key(#[trigger] ids@[i]@),
        ensures
            r@.len() == ids@.len(),
            forall|i: int|
                0 <= i < ids@.len() ==> (#[trigger] r@[i]) is Update && r@[i].target() == ids@[i]@
                    && r@[i].effect() == change_at(self@, ids@, *metadatas, *documents, i),
    {
        let mut out: Vec<Operation> = Vec::new();
        let mut i: usize = 0;
        while i < ids.len()
            invariant
                i <= ids.len(),
                self.wf(),
                goes_with(*metadatas, ids@.len()),
                goes_with(*documents, ids@.len()),
                forall|j: int| 0 <= j < ids@.len() ==> self@.records.contains_key(#[trigger] ids@[j]@),
                out@.len() == i,
                forall|j: int|
                    0 <= j < i ==> (#[trigger] out@[j]) is Update && out@[j].target() == ids@[j]@
                        && out@[j].effect() == change_at(self@, ids@, *metadatas, *documents, j),
            decreases ids.len() - i,
        {
            assert(self@.records.contains_key(ids@[i as int]@));
            assert(self.records@.contains_key(ids@[i as int]@));
            let held: Option<&Record> = self.records.get(ids[i].as_str());
            let metadata: Option<Metadata> = match (metadatas, held) {
                (None, Some(r)) => clone_meta(&r.metadata),
                _ => pick_meta(metadatas, i),
            };
            let document: Option<Document> = match (documents, held) {
                (None, Some(r)) => clone_text(&r.document),
                _ => pick_text(documents, i),
            };
            out.push(Operation::Update { id: ids[i].clone(), metadata, document });
            i += 1;
        }
        out
    }

    /// Prepares the update of existing records. Of a list that is not given,
    /// every record keeps what it has.
    pub fn prepare_update(
        &self,
        ids: &Vec<Id>,
        metadatas: &Option<Vec<Option<Metadata>>>,
        documents: &Option<Vec<Option<Document>>>,
    ) -> (r: EngineResult<Batch>)
        requires
            self.wf(),
        ensures
            prepares_update(self@, ids@, *metadatas, *documents, r),
    {
        match self.validate_update(ids, metadatas, documents) {
            Some(v) => Err(EngineError::Validation(v)),
            None => {
                proof {
                    let names = text::views(ids@);
                    validate::updated_ids_are_live(self@.records, names);
                    assert forall|i: int| 0 <= i < ids@.len() implies self@.records.contains_key(
                        #[trigger] ids@[i]@,
                    ) by {
                        assert(names[i] == ids@[i]@);
                    }
                }
                Ok(Batch { ops: self.update_ops(ids, metadatas, documents), dimension: None })
            },
        }
    }

    /// Takes over the dimension of the first vector that waits for the index,
    /// while the collection has none.
    pub fn infer_dimension(&mut self) -> (r: Option<usize>)
        requires
            old(self).wf(),
        ensures
            final(self).wf(),
            r == (if old(self)@.config.dimension == 0 && old(self)@.buffer.len() > 0 {
                Some((old(self)@.buffer[0].1.embedding->0).len() as usize)
            } else {
                None
            }),
            final(self)@ == with_dimension(old(self)@, r),
    {
        let ghost start = self@;
        if self.config.dimension == 0 && self.buffer.len() > 0 {
            proof {
                assert(start.buffer[0] == (self.buffer@[0].id@, self.buffer@[0]@));
                assert(collection::waiting(start.buffer[0], start.records));
            }
            let d: Option<usize> = match &self.buffer[0].embedding {
                Some(e) => Some(e.len()),
                None => None,
            };
            self.take_dimension(d);
            d
        } else {
            None
        }
    }

    fn take_dimension(&mut self, dimension: Option<usize>)
        requires
            old(self).wf(),
        ensures
            final(self).wf(),
            final(self)@ == with_dimension(old(self)@, dimension),
    {
        let ghost start = self@;
        match dimension {
            Some(d) => {
                self.config.dimension = d;
                self.labels.set_dimension(d);
            },
            None => {},
        }
        proof {
            lemma_with_dimension(start, dimension);
        }
    }

    /// Applies a batch that the log has taken with consecutive sequence numbers
    /// from `first_seq` on. Returns the labels that leave the graph index.
    pub fn commit(&mut self, batch: &Batch, first_seq: u64) -> (dropped: Vec<u64>)
        requires
            old(self).wf(),
            old(self)@.next_offset + batch.ops@.len() <= u32::MAX,
            first_seq + batch.ops@.len() <= u64::MAX,
        ensures
            final(self).wf(),
            history::state_after_all(
                with_dimension(old(self)@, batch.dimension),
                history::numbered(batch.ops@, first_seq),
                final(self)@,
            ),
            dropped@ == history::labels_dropped(
                with_dimension(old(self)@, batch.dimension).labels,
                history::numbered(batch.ops@, first_seq),
            ),
    {
        self.take_dimension(batch.dimension);
        self.write_ops(&batch.ops, first_seq)
    }

    // -----------------------------------------------------------------------
    // Reading
    // -----------------------------------------------------------------------

    /// The definition of the collection.
    pub fn config(&self) -> (c: &CollectionConfig)
        ensures
            c@ == self@.config,
    {
        &self.config
    }

    /// Number of live records.
    pub fn count(&self) -> (n: u64)
        requires
            self.wf(),
        ensures
            n == self@.records.dom().len(),
    {
        assert(self@.records.dom() =~= self.records@.dom());
        self.records.len() as u64
    }

    /// Number of vectors that have reached the graph index.
    pub fn committed_count(&self) -> (n: usize)
        requires
            self.wf(),
        ensures
            n == self@.labels.labels.dom().len(),
    {
        self.labels.len()
    }

    /// Number of vectors in the graph index and in the buffer.
    pub fn indexed_count(&self) -> (n: usize)
        requires
            self.wf(),
            self@.labels.labels.dom().len() + self@.buffer.len() <= usize::MAX,
        ensures
            n == self@.labels.labels.dom().len() + self@.buffer.len(),
    {
        self.labels.len() + self.buffer.len()
    }

    /// Highest sequence number that has reached the graph index.
    pub fn flushed_seq(&self) -> (n: u64)
        ensures
            n == self@.flushed_seq,
    {
        self.flushed_seq
    }

    /// Sequence number of the operation that made a record what it is.
    pub fn seq_of(&self, id: &Id) -> (r: EngineResult<u64>)
        requires
            self.wf(),
        ensures
            match r {
                Ok(n) => self@.records.contains_key(id@) && n == self@.records[id@].seq,
                Err(e) => !self@.records.contains_key(id@) && e@ == EngineErrorView::Validation(
                    InvalidView::UnknownId { id: id@ },
                ),
            },
    {
        assert(self@.records.contains_key(id@) == self.records@.contains_key(id@));
        match self.records.get(id.as_str()) {
            Some(r) => Ok(r.seq),
            None => Err(EngineError::Validation(Invalid::UnknownId { id: id.clone() })),
        }
    }

    fn read(&self, file: Option<Mapped>, id: &str) -> (r: Option<Record>)
        requires
            self.wf(),
        ensures
            match r {
                Some(r) => self@.records.contains_key(id@) && r.id@ == id@ && r@ == query::contents(
                    self@,
                    query::on_file(file),
                )[id@],
                None => !self@.records.contains_key(id@),
            },
    {
        assert(self@.records.contains_key(id@) == self.records@.contains_key(id@));
        match self.records.get(id) {
            Some(r) => {
                assert(self@.records[id@] == r@);
                Some(
                    Record {
                        id: id.to_owned(),
                        embedding: self.load_vector(file, id),
                        metadata: clone_meta(&r.metadata),
                        document: clone_text(&r.document),
                        seq: r.seq,
                    },
                )
            },
            None => None,
        }
    }

    /// The records with the given ids, each with its vector; nothing for an id
    /// that is not live.
    pub fn get(&self, file: Option<Mapped>, ids: &Vec<Id>) -> (r: Vec<Option<Record>>)
        requires
            self.wf(),
        ensures
            r@.len() == ids@.len(),
            forall|i: int|
                0 <= i < ids@.len() ==> match #[trigger] r@[i] {
                    Some(r) => self@.records.contains_key(ids@[i]@) && r.id@ == ids@[i]@ && r@
                        == query::contents(self@, query::on_file(file))[ids@[i]@],
                    None => !self@.records.contains_key(ids@[i]@),
                },
    {
        let mut out: Vec<Option<Record>> = Vec::new();
        let mut i: usize = 0;
        while i < ids.len()
            invariant
                i <= ids.len(),
                self.wf(),
                out@.len() == i,
                forall|j: int|
                    0 <= j < i ==> match #[trigger] out@[j] {
                        Some(r) => self@.records.contains_key(ids@[j]@) && r.id@ == ids@[j]@ && r@
                            == query::contents(self@, query::on_file(file))[ids@[j]@],
                        None => !self@.records.contains_key(ids@[j]@),
                    },
            decreases ids.len() - i,
        {
            out.push(self.read(file, ids[i].as_str()));
            i += 1;
        }
        out
    }

    /// The labels of the graph index, for a saved index.
    pub fn index_meta(&self) -> (r: crate::index::IndexMeta)
        requires
            self.wf(),
        ensures
            crate::index::saved_map(r.labels@) == self@.labels.labels,
            crate::index::consistent(r.labels@, r.next_label),
            r.labels@.len() == self@.labels.labels.dom().len(),
            r.next_label == self@.labels.next_label,
            r.space@ == self@.labels.space.label(),
            r.dimension == self@.labels.dimension,
    {
        self.labels.to_meta()
    }

    // -----------------------------------------------------------------------
    // Snapshots
    // -----------------------------------------------------------------------

    /// All live records with their vectors, in no order.
    pub fn snapshot(&self, file: Option<Mapped>) -> (r: Vec<Record>)
        requires
            self.wf(),
        ensures
            checkpoint::records_by_id(r@) == query::contents(self@, query::on_file(file)),
    {
        let entries: &Vec<(String, Record)> = self.records.entries();
        let ghost all = query::contents(self@, query::on_file(file));
        let mut out: Vec<Record> = Vec::new();
        let mut i: usize = 0;
        while i < entries.len()
            invariant
                i <= entries.len(),
                self.wf(),
                all == query::contents(self@, query::on_file(file)),
                idmap::names_distinct(entries@),
                self.records@ == idmap::map_of(entries@),
                forall|id: Seq<char>|
                    #[trigger] checkpoint::records_by_id(out@).contains_key(id) ==> all.contains_key(id)
                        && checkpoint::records_by_id(out@)[id] == all[id],
                forall|j: int|
                    0 <= j < i ==> checkpoint::records_by_id(out@).contains_key(
                        (#[trigger] entries@[j]).0@,
                    ),
            decreases entries.len() - i,
        {
            proof {
                idmap::lemma_named_entry(entries@, i as int);
                assert(self.records@.contains_key(entries@[i as int].0@));
                assert(self@.records.contains_key(entries@[i as int].0@));
            }
            match self.read(file, entries[i].0.as_str()) {
                Some(r) => {
                    let ghost before = out@;
                    let ghost id = entries@[i as int].0@;
                    assert(all.contains_key(id) && r.id@ == id && r@ == all[id]);
                    out.push(r);
                    proof {
                        assert(out@.drop_last() =~= before);
                        assert(checkpoint::records_by_id(out@) == checkpoint::records_by_id(
                            before,
                        ).insert(id, all[id]));
                    }
                },
                None => {},
            }
            i += 1;
        }
        proof {
            assert(checkpoint::records_by_id(out@) =~= all) by {
                assert forall|id: Seq<char>| all.contains_key(id) implies checkpoint::records_by_id(
                    out@,
                ).contains_key(id) by {
                    assert(self.records@.contains_key(id));
                    assert(idmap::named(entries@, id));
                    let j = idmap::spot(entries@, id);
                    assert(entries@[j].0@ == id);
                }
            }
        }
        out
    }
}

/// The operations that make a record what it was in a snapshot.
pub open spec fn restoring(r: Record) -> Seq<history::Step> {
    match r@.embedding {
        Some(embedding) => seq![
            history::Step {
                seq: r.seq,
                id: r.id@,
                effect: OpKind::Put {
                    embedding,
                    metadata: r@.metadata,
                    document: r@.document,
                },
            },
        ],
        None => seq![
            history::Step { seq: r.seq, id: r.id@, effect: OpKind::Drop },
            history::Step {
                seq: r.seq,
                id: r.id@,
                effect: OpKind::Change { metadata: r@.metadata, document: r@.document },
            },
        ],
    }
}

/// The operations that make records what they were in a snapshot.
pub open spec fn restoring_all(records: Seq<Record>) -> Seq<history::Step>
    decreases records.len(),
{
    if records.len() == 0 {
        Seq::empty()
    } else {
        restoring_all(records.drop_last()) + restoring(records.last())
    }
}

/// The operations that make records what they were in a snapshot.
pub fn restore_ops(records: &Vec<Record>) -> (r: Vec<LoggedOp>)
    ensures
        history::steps(r@) == restoring_all(records@),
{
    let mut out: Vec<LoggedOp> = Vec::new();
    let mut i: usize = 0;
    assert(records@.take(0) =~= Seq::<Record>::empty());
    assert(history::steps(out@) =~= Seq::<history::Step>::empty());
    while i < records.len()
        invariant
            i <= records.len(),
            history::steps(out@) == restoring_all(records@.take(i as int)),
        decreases records.len() - i,
    {
        let ghost before = history::steps(out@);
        let r: &Record = &records[i];
        match &r.embedding {
            Some(e) => {
                out.push(
                    LoggedOp {
                        seq: r.seq,
                        op: Operation::Upsert {
                            id: r.id.clone(),
                            embedding: clone_vector(e),
                            metadata: clone_meta(&r.metadata),
                            document: clone_text(&r.document),
                        },
                    },
                );
            },
            None => {
                out.push(LoggedOp { seq: r.seq, op: Operation::Delete { id: r.id.clone() } });
                out.push(
                    LoggedOp {
                        seq: r.seq,
                        op: Operation::Update {
                            id: r.id.clone(),
                            metadata: clone_meta(&r.metadata),
                            document: clone_text(&r.document),
                        },
                    },
                );
            },
        }
        proof {
            assert(records@.take(i + 1).drop_last() =~= records@.take(i as int));
            assert(records@.take(i + 1).last() == records@[i as int]);
            assert(history::steps(out@) =~= before + restoring(records@[i as int]));
        }
        i += 1;
    }
    assert(records@.take(records@.len() as int) =~= records@);
    out
}

/// A snapshot that is restored gives its records, whatever was there.
pub proof fn restored_records_are_those_of_the_snapshot(
    before: Map<Seq<char>, RecordState>,
    records: Seq<Record>,
    id: Seq<char>,
)
    requires
        checkpoint::records_by_id(records).contains_key(id),
    ensures
        ({
            let after = history::records_after_all(before, restoring_all(records));
            &&& after.contains_key(id)
            &&& after[id] == checkpoint::records_by_id(records)[id]
        }),
    decreases records.len(),
{
    let rest = restoring_all(records.drop_last());
    let last = records.last();
    let own = restoring(last);
    let mid = history::records_after_all(before, rest);
    history::batches_add_up(before, rest, own);
    reveal_with_fuel(history::records_after_all, 3);
    match last@.embedding {
        Some(_) => {
            assert(own.drop_last() =~= Seq::<history::Step>::empty());
        },
        None => {
            assert(own.drop_last().drop_last() =~= Seq::<history::Step>::empty());
            assert(own.drop_last().last() == own[0]);
        },
    }
    if id != last.id@ {
        restored_records_are_those_of_the_snapshot(before, records.drop_last(), id);
        assert forall|i: int| 0 <= i < own.len() implies (#[trigger] own[i]).id != id by {}
        history::other_records_stay(mid, own, id);
    }
}

proof fn lemma_places_add_up(stored: Map<Seq<char>, usize>, a: Seq<history::Step>, b: Seq<history::Step>)
    ensures
        history::stored_after_all(stored, a + b) == history::stored_after_all(
            history::stored_after_all(stored, a),
            b,
        ),
    decreases b.len(),
{
    if b.len() == 0 {
        assert(a + b =~= a);
    } else {
        lemma_places_add_up(stored, a, b.drop_last());
        assert((a + b).drop_last() =~= a + b.drop_last());
        assert((a + b).last() == b.last());
    }
}

/// A record that was restored without a vector has no place in the segment file.
proof fn lemma_restored_without_place(stored: Map<Seq<char>, usize>, records: Seq<Record>, id: Seq<char>)
    requires
        checkpoint::records_by_id(records).contains_key(id),
        checkpoint::records_by_id(records)[id].embedding is None,
    ensures
        !history::stored_after_all(stored, restoring_all(records)).contains_key(id),
    decreases records.len(),
{
    let rest = restoring_all(records.drop_last());
    let last = records.last();
    let own = restoring(last);
    let mid = history::stored_after_all(stored, rest);
    lemma_places_add_up(stored, rest, own);
    reveal_with_fuel(history::stored_after_all, 3);
    match last@.embedding {
        Some(_) => {
            assert(own.drop_last() =~= Seq::<history::Step>::empty());
        },
        None => {
            assert(own.drop_last().drop_last() =~= Seq::<history::Step>::empty());
            assert(own.drop_last().last() == own[0]);
        },
    }
    if id != last.id@ {
        lemma_restored_without_place(stored, records.drop_last(), id);
        assert forall|i: int| 0 <= i < own.len() implies (#[trigger] own[i]).id != id by {}
        lemma_other_places_stay(mid, own, id);
    }
}

/// What one collection holds, another one reads after it took over a snapshot of
/// it, whatever it held before and whatever its own segment file is.
pub proof fn snapshots_carry_records_over(
    leader: CollectionState,
    file: Seq<Seq<u32>>,
    records: Seq<Record>,
    before: CollectionState,
    after: CollectionState,
    own_file: Seq<Seq<u32>>,
    id: Seq<char>,
)
    requires
        checkpoint::records_by_id(records) == query::contents(leader, file),
        history::state_after_all(before, restoring_all(records), after),
        leader.records.contains_key(id),
    ensures
        history::fate(query::contents(after, own_file), id) == Some(query::contents(leader, file)[id]),
{
    restored_records_are_those_of_the_snapshot(before.records, records, id);
    if query::contents(leader, file)[id].embedding is None {
        lemma_restored_without_place(before.stored, records, id);
    }
}

// ---------------------------------------------------------------------------
// Optimizing
// ---------------------------------------------------------------------------

/// What an optimization did.
#[derive(Debug, Clone, Copy, PartialEq, Eq, Structural)]
pub struct OptimizeStats {
    /// Live records.
    pub records: u64,
    /// Vectors in the graph index.
    pub indexed: u64,
    /// Size of the log before.
    pub wal_bytes_before: u64,
    /// Size of the log after.
    pub wal_bytes_after: u64,
}

/// The changes of the graph index that an optimization makes.
#[derive(Debug)]
pub struct Optimized {
    /// Live records.
    pub records: u64,
    /// Vectors in the graph index.
    pub indexed: u64,
    /// The flush that comes first.
    pub flush: Flush,
    /// The rebuild, unless the flush was stopped.
    pub rebuild: Option<Rebuild>,
}

/// What an optimization makes of a collection: its buffer is flushed, and the
/// graph index is rebuilt unless the flush was stopped.
pub open spec fn optimizes(a: CollectionState, file: Seq<Seq<u32>>, r: Optimized, b: CollectionState) -> bool {
    let p = flush::flushing(a.labels, a.buffer);
    &&& r.records == a.records.dom().len()
    &&& flush::changes(r.flush.changes@) == p.changes
    &&& p.misfit is None <==> r.flush.error is None
    &&& p.misfit matches Some(n) ==> r.flush.error == Some(
        IndexError::DimensionMismatch { index: a.labels.dimension, got: n as usize },
    )
    &&& r.indexed == p.labels.labels.dom().len()
    &&& r.flush.error is Some ==> r.rebuild is None && b == flush::flushed(a)
    &&& r.flush.error is None ==> r.rebuild is Some && checkpoint::rebuilt(
        flush::flushed(a),
        file,
        r.rebuild->0,
        b,
    )
}

impl Collection {
    /// Flushes the whole buffer and rebuilds the graph index. The checkpoint
    /// that follows is taken as any other.
    pub fn optimize(&mut self, file: Option<Mapped>) -> (r: Optimized)
        requires
            old(self).wf(),
            old(self)@.labels.next_label + old(self)@.buffer.len() <= u64::MAX,
        ensures
            final(self).wf(),
            optimizes(old(self)@, query::on_file(file), r, final(self)@),
    {
        let records: u64 = self.count();
        let flush: Flush = self.flush_buffer();
        let indexed: u64 = self.labels.len() as u64;
        if flush.error.is_some() {
            return Optimized { records, indexed, flush, rebuild: None };
        }
        let rebuild: Rebuild = self.rebuild_index(file);
        Optimized { records, indexed, flush, rebuild: Some(rebuild) }
    }
}

// ---------------------------------------------------------------------------
// What a read gives back of a write
// ---------------------------------------------------------------------------

/// Operations on other records leave the place of a record alone.
proof fn lemma_other_places_stay(stored: Map<Seq<char>, usize>, steps: Seq<history::Step>, id: Seq<char>)
    requires
        forall|i: int| 0 <= i < steps.len() ==> (#[trigger] steps[i]).id != id,
    ensures
        history::stored_after_all(stored, steps).contains_key(id) == stored.contains_key(id),
        stored.contains_key(id) ==> history::stored_after_all(stored, steps)[id] == stored[id],
    decreases steps.len(),
{
    if steps.len() > 0 {
        let rest = steps.drop_last();
        assert forall|i: int| 0 <= i < rest.len() implies (#[trigger] rest[i]).id != id by {
            assert(rest[i] == steps[i]);
        }
        lemma_other_places_stay(stored, rest, id);
        assert(steps.last() == steps[steps.len() - 1]);
    }
}

/// A run of updates changes neither the vector that a record holds nor its
/// place, and drops no record.
proof fn lemma_updates_keep_vectors(a: CollectionState, steps: Seq<history::Step>, id: Seq<char>)
    requires
        a.records.contains_key(id),
        forall|i: int| 0 <= i < steps.len() ==> (#[trigger] steps[i]).effect is Change,
    ensures
        history::records_after_all(a.records, steps).contains_key(id),
        history::records_after_all(a.records, steps)[id].embedding == a.records[id].embedding,
        history::stored_after_all(a.stored, steps) == a.stored,
    decreases steps.len(),
{
    if steps.len() > 0 {
        let rest = steps.drop_last();
        assert forall|i: int| 0 <= i < rest.len() implies (#[trigger] rest[i]).effect is Change by {
            assert(rest[i] == steps[i]);
        }
        lemma_updates_keep_vectors(a, rest, id);
        assert(steps.last() == steps[steps.len() - 1]);
    }
}

/// A run of operations cut at one of them.
proof fn lemma_cut(steps: Seq<history::Step>, i: int)
    requires
        0 <= i < steps.len(),
    ensures
        steps.take(i).push(steps[i]) + steps.skip(i + 1) == steps,
{
    assert(steps.take(i).push(steps[i]) + steps.skip(i + 1) =~= steps);
}

/// Whether an id comes only once more, at a position, from there to the end of
/// a list.
pub open spec fn comes_last(ids: Seq<Id>, i: int) -> bool {
    &&& 0 <= i < ids.len()
    &&& forall|j: int| i < j < ids.len() ==> (#[trigger] ids[j])@ != ids[i]@
}

/// Whether two states hold the same of every record that a list does not name.
pub open spec fn others_stay(
    a: CollectionState,
    b: CollectionState,
    file: Seq<Seq<u32>>,
    ids: Seq<Id>,
) -> bool {
    forall|id: Seq<char>|
        (forall|i: int| 0 <= i < ids.len() ==> (#[trigger] ids[i])@ != id)
            ==> #[trigger] history::fate(query::contents(b, file), id) == history::fate(
            query::contents(a, file),
            id,
        )
}

/// Operations on the records of a list leave the others alone.
proof fn lemma_others_stay(
    a: CollectionState,
    ids: Seq<Id>,
    batch: Batch,
    first_seq: u64,
    b: CollectionState,
    file: Seq<Seq<u32>>,
)
    requires
        batch.ops@.len() == ids.len(),
        forall|i: int| 0 <= i < ids.len() ==> (#[trigger] batch.ops@[i]).target() == ids[i]@,
        history::state_after_all(
            with_dimension(a, batch.dimension),
            history::numbered(batch.ops@, first_seq),
            b,
        ),
    ensures
        others_stay(a, b, file, ids),
{
    let steps = history::numbered(batch.ops@, first_seq);
    assert forall|id: Seq<char>|
        (forall|i: int| 0 <= i < ids.len() ==> (#[trigger] ids[i])@ != id) implies #[trigger] history::fate(
        query::contents(b, file),
        id,
    ) == history::fate(query::contents(a, file), id) by {
        assert forall|i: int| 0 <= i < steps.len() implies (#[trigger] steps[i]).id != id by {
            assert(batch.ops@[i].target() == ids[i]@);
        }
        history::other_records_stay(a.records, steps, id);
        lemma_other_places_stay(a.stored, steps, id);
    }
}

/// The last operation of a batch on a record decides what is read of it.
proof fn lemma_last_put_is_read(
    a: CollectionState,
    ids: Seq<Id>,
    batch: Batch,
    first_seq: u64,
    b: CollectionState,
    file: Seq<Seq<u32>>,
    i: int,
)
    requires
        comes_last(ids, i),
        batch.ops@.len() == ids.len(),
        forall|j: int| 0 <= j < ids.len() ==> (#[trigger] batch.ops@[j]).target() == ids[j]@,
        history::state_after_all(
            with_dimension(a, batch.dimension),
            history::numbered(batch.ops@, first_seq),
            b,
        ),
    ensures
        query::contents(b, file).contains_key(ids[i]@) <==> !(batch.ops@[i].effect() is Drop),
        batch.ops@[i].effect() matches OpKind::Put { embedding, metadata, document }
            ==> query::contents(b, file)[ids[i]@] == (RecordState {
            embedding: Some(embedding),
            metadata,
            document,
            seq: (first_seq + i) as u64,
        }),
{
    let steps = history::numbered(batch.ops@, first_seq);
    let after = steps.skip(i + 1);
    assert(batch.ops@[i].target() == ids[i]@);
    assert forall|j: int| 0 <= j < after.len() implies (#[trigger] after[j]).id != steps[i].id by {
        assert(after[j] == steps[i + 1 + j]);
        assert(batch.ops@[i + 1 + j].target() == ids[i + 1 + j]@);
    }
    lemma_cut(steps, i);
    history::last_operation_decides(a.records, steps.take(i), steps[i], after);
}

/// Records that were added are read back as they were given, and the rest of
/// the collection is as before.
pub proof fn added_records_are_read_back(
    a: CollectionState,
    ids: Seq<Id>,
    embeddings: Seq<Embedding>,
    metadatas: Option<Vec<Option<Metadata>>>,
    documents: Option<Vec<Option<Document>>>,
    batch: Batch,
    first_seq: u64,
    b: CollectionState,
    file: Seq<Seq<u32>>,
)
    requires
        prepares_add(a, ids, embeddings, metadatas, documents, Ok(batch)),
        history::state_after_all(
            with_dimension(a, batch.dimension),
            history::numbered(batch.ops@, first_seq),
            b,
        ),
    ensures
        forall|i: int|
            0 <= i < ids.len() ==> history::fate(query::contents(b, file), #[trigger] ids[i]@) == Some(
                RecordState {
                    embedding: Some(embeddings[i]@),
                    metadata: (match metadatas {
                        Some(l) => types::meta_opt(l@[i]),
                        None => None,
                    }),
                    document: (match documents {
                        Some(l) => types::text_opt(l@[i]),
                        None => None,
                    }),
                    seq: (first_seq + i) as u64,
                },
            ),
        others_stay(a, b, file, ids),
{
    lemma_others_stay(a, ids, batch, first_seq, b, file);
    let names = text::views(ids);
    validate::accepted_ids_are_new(a.records, names);
    assert forall|i: int| 0 <= i < ids.len() implies history::fate(
        query::contents(b, file),
        #[trigger] ids[i]@,
    ) == Some(
        RecordState {
            embedding: Some(embeddings[i]@),
            metadata: meta_at(metadatas, i),
            document: text_at(documents, i),
            seq: (first_seq + i) as u64,
        },
    ) by {
        assert forall|j: int| i < j < ids.len() implies (#[trigger] ids[j])@ != ids[i]@ by {
            assert(names[i] == ids[i]@ && names[j] == ids[j]@);
        }
        assert(batch.ops@[i].effect() == put_at(embeddings, metadatas, documents, i));
        lemma_last_put_is_read(a, ids, batch, first_seq, b, file, i);
    }
}

/// Records that were upserted are read back as they were given, an id that comes
/// more than once as it was given last, and the rest of the collection is as
/// before.
pub proof fn upserted_records_are_read_back(
    a: CollectionState,
    ids: Seq<Id>,
    embeddings: Seq<Embedding>,
    metadatas: Option<Vec<Option<Metadata>>>,
    documents: Option<Vec<Option<Document>>>,
    batch: Batch,
    first_seq: u64,
    b: CollectionState,
    file: Seq<Seq<u32>>,
)
    requires
        prepares_upsert(a, ids, embeddings, metadatas, documents, Ok(batch)),
        history::state_after_all(
            with_dimension(a, batch.dimension),
            history::numbered(batch.ops@, first_seq),
            b,
        ),
    ensures
        forall|i: int|
            #[trigger] comes_last(ids, i) ==> history::fate(query::contents(b, file), ids[i]@) == Some(
                RecordState {
                    embedding: Some(embeddings[i]@),
                    metadata: (match metadatas {
                        Some(l) => types::meta_opt(l@[i]),
                        None => None,
                    }),
                    document: (match documents {
                        Some(l) => types::text_opt(l@[i]),
                        None => None,
                    }),
                    seq: (first_seq + i) as u64,
                },
            ),
        others_stay(a, b, file, ids),
{
    lemma_others_stay(a, ids, batch, first_seq, b, file);
    assert forall|i: int| #[trigger] comes_last(ids, i) implies history::fate(
        query::contents(b, file),
        ids[i]@,
    ) == Some(
        RecordState {
            embedding: Some(embeddings[i]@),
            metadata: meta_at(metadatas, i),
            document: text_at(documents, i),
            seq: (first_seq + i) as u64,
        },
    ) by {
        assert(batch.ops@[i].effect() == put_at(embeddings, metadatas, documents, i));
        lemma_last_put_is_read(a, ids, batch, first_seq, b, file, i);
    }
}

/// Records that were updated keep their vectors and take the metadata and the
/// documents that were given last; where none were given, they keep theirs. The
/// rest of the collection is as before.
pub proof fn updated_records_keep_their_vectors(
    a: CollectionState,
    ids: Seq<Id>,
    metadatas: Option<Vec<Option<Metadata>>>,
    documents: Option<Vec<Option<Document>>>,
    batch: Batch,
    first_seq: u64,
    b: CollectionState,
    file: Seq<Seq<u32>>,
)
    requires
        prepares_update(a, ids, metadatas, documents, Ok(batch)),
        history::state_after_all(
            with_dimension(a, batch.dimension),
            history::numbered(batch.ops@, first_seq),
            b,
        ),
    ensures
        forall|i: int|
            #[trigger] comes_last(ids, i) ==> history::fate(query::contents(b, file), ids[i]@) == Some(
                RecordState {
                    embedding: query::vector_of(a, file, ids[i]@),
                    metadata: (match metadatas {
                        Some(l) => types::meta_opt(l@[i]),
                        None => a.records[ids[i]@].metadata,
                    }),
                    document: (match documents {
                        Some(l) => types::text_opt(l@[i]),
                        None => a.records[ids[i]@].document,
                    }),
                    seq: (first_seq + i) as u64,
                },
            ),
        others_stay(a, b, file, ids),
{
    lemma_others_stay(a, ids, batch, first_seq, b, file);
    let steps = history::numbered(batch.ops@, first_seq);
    let names = text::views(ids);
    validate::updated_ids_are_live(a.records, names);
    assert forall|j: int| 0 <= j < steps.len() implies (#[trigger] steps[j]).effect is Change by {
        assert(batch.ops@[j] is Update);
    }
    assert forall|i: int| #[trigger] comes_last(ids, i) implies history::fate(
        query::contents(b, file),
        ids[i]@,
    ) == Some(
        RecordState {
            embedding: query::vector_of(a, file, ids[i]@),
            metadata: updated_meta(a, ids, metadatas, i),
            document: updated_text(a, ids, documents, i),
            seq: (first_seq + i) as u64,
        },
    ) by {
        let id = ids[i]@;
        assert(batch.ops@[i].target() == id);
        assert(names[i] == id);
        lemma_updates_keep_vectors(a, steps, id);
        let upto = steps.take(i).push(steps[i]);
        let after = steps.skip(i + 1);
        assert forall|j: int| 0 <= j < after.len() implies (#[trigger] after[j]).id != id by {
            assert(after[j] == steps[i + 1 + j]);
            assert(batch.ops@[i + 1 + j].target() == ids[i + 1 + j]@);
        }
        lemma_cut(steps, i);
        history::batches_add_up(a.records, upto, after);
        history::other_records_stay(history::records_after_all(a.records, upto), after, id);
        assert(upto.last() == steps[i]);
    }
}

/// Records that were deleted are gone, and the rest of the collection is as
/// before.
pub proof fn deleted_records_are_gone(
    a: CollectionState,
    ids: Seq<Id>,
    batch: Batch,
    first_seq: u64,
    b: CollectionState,
    file: Seq<Seq<u32>>,
)
    requires
        batch.ops@.len() == ids.len(),
        forall|i: int|
            0 <= i < ids.len() ==> (#[trigger] batch.ops@[i]).target() == ids[i]@
                && batch.ops@[i].effect() is Drop,
        history::state_after_all(
            with_dimension(a, batch.dimension),
            history::numbered(batch.ops@, first_seq),
            b,
        ),
    ensures
        forall|i: int| 0 <= i < ids.len() ==> history::fate(query::contents(b, file), #[trigger] ids[i]@) is None,
        others_stay(a, b, file, ids),
{
    lemma_others_stay(a, ids, batch, first_seq, b, file);
    assert forall|i: int| 0 <= i < ids.len() implies history::fate(
        query::contents(b, file),
        #[trigger] ids[i]@,
    ) is None by {
        let k = lemma_last_position(ids, i);
        assert(batch.ops@[k].effect() is Drop);
        lemma_last_put_is_read(a, ids, batch, first_seq, b, file, k);
    }
}

/// The last position at which an id comes.
proof fn lemma_last_position(ids: Seq<Id>, i: int) -> (k: int)
    requires
        0 <= i < ids.len(),
    ensures
        comes_last(ids, k),
        ids[k]@ == ids[i]@,
    decreases ids.len() - i,
{
    if comes_last(ids, i) {
        i
    } else {
        let j = choose|j: int| i < j < ids.len() && (#[trigger] ids[j])@ == ids[i]@;
        lemma_last_position(ids, j)
    }
}

/// Optimizing loses no record and keeps nothing back: where it succeeds, the
/// index holds every vector of the collection, under the label of its own
/// record, and nothing waits in the buffer.
pub proof fn optimizing_indexes_everything(
    a: CollectionState,
    file: Seq<Seq<u32>>,
    r: Optimized,
    b: CollectionState,
    id: Seq<char>,
)
    requires
        optimizes(a, file, r, b),
    ensures
        r.records == a.records.dom().len(),
        b.records == a.records,
        b.buffer.len() == 0,
        r.flush.error is Some ==> r.rebuild is None,
        r.flush.error is None ==> (r.rebuild matches Some(done) && (done.error is None ==> {
            &&& b.labels.labels.contains_key(id) <==> query::vector_of(a, file, id) is Some
            &&& query::vector_of(a, file, id) matches Some(v) ==> {
                let label = b.labels.labels[id];
                label < done.changes@.len() && done.changes@[label as int]@ == (flush::ChangeView::Insert {
                    label,
                    vector: v,
                })
            }
        })),
{
    flush::flushing_changes_no_record(a, file);
    let f = flush::flushed(a);
    if let Some(done) = r.rebuild {
        if done.error is None {
            checkpoint::rebuilding_indexes_every_vector(f, file, done, b, id);
            assert(query::vector_of(f, file, id) == query::vector_of(a, file, id));
        }
    }
}

/// A dimension that is taken holds for the collection and its index, and nothing
/// else changes.
pub proof fn taken_dimensions_hold(s: CollectionState, d: usize)
    ensures
        with_dimension(s, Some(d)).config.dimension == d,
        with_dimension(s, Some(d)).labels.dimension == d,
        with_dimension(s, Some(d)).labels.labels == s.labels.labels,
        with_dimension(s, Some(d)).records == s.records,
        with_dimension(s, Some(d)).buffer == s.buffer,
        with_dimension(s, Some(d)).config.space == s.config.space,
        with_dimension(s, None) == s,
{
}

} // verus!
