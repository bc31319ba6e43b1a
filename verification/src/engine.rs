//! The engine: the catalog and the collections of one node.
//!
//! A write goes through two steps. The first checks a request against a
//! collection and gives the operations that it stands for; nothing changes.
//! Once these are in the log, the second applies them.

use vstd::prelude::*;
use vstd::string::*;

use crate::catalog;
use crate::catalog::{CatalogError, CatalogTables, CatalogView, CollectionRecord};
use crate::collection;
use crate::collection::batch;
use crate::collection::batch::{delete_ops, restore_ops, Batch, Optimized};
use crate::collection::checkpoint;
use crate::collection::checkpoint::SegmentPlan;
use crate::collection::flush;
use crate::collection::flush::Flush;
use crate::collection::history;
use crate::collection::history::LoggedOp;
use crate::collection::query;
use crate::collection::query::{QueryOptions, QueryPlan, ScoredPoint};
use crate::collection::{Collection, CollectionState, Record};
use crate::config::{CollectionConfig, ConfigView};
use crate::error::{EngineError, EngineErrorView, EngineResult, InvalidView, Verb};
use crate::ids;
use crate::ids::{render_id, CollectionId};
use crate::index;
use crate::index::IndexError;
use crate::num::F32;
use crate::op::OpKind;
use crate::segment::Mapped;
use crate::table::Table;
use crate::tags::Epoch;
use crate::types::{Document, Embedding, Id, Metadata};

verus! {

/// How an engine writes its logs.
#[derive(Debug, Clone, Copy)]
pub struct EngineConfig {
    /// Whether every append is flushed to stable storage.
    pub wal_fsync: bool,
    /// The fencing token of the logs that the engine creates.
    pub epoch: Epoch,
}

impl Default for EngineConfig {
    fn default() -> (c: EngineConfig)
        ensures
            !c.wal_fsync,
            c.epoch == Epoch(0),
    {
        EngineConfig { wal_fsync: false, epoch: Epoch(0) }
    }
}

/// The catalog and the collections of a node.
pub struct Engine {
    catalog: CatalogTables,
    collections: Table<u128, Collection>,
    config: EngineConfig,
}

/// An engine as a mathematical value.
pub struct EngineState {
    pub catalog: CatalogView,
    pub collections: Map<u128, CollectionState>,
    pub config: EngineConfig,
}

/// Collections as mathematical values.
pub open spec fn states(m: Map<u128, Collection>) -> Map<u128, CollectionState> {
    m.map_values(|c: Collection| c@)
}

impl View for Engine {
    type V = EngineState;

    closed spec fn view(&self) -> EngineState {
        EngineState {
            catalog: self.catalog@,
            collections: states(self.collections@),
            config: self.config,
        }
    }
}

/// Whether an error says that there is no such collection.
pub open spec fn missing<T>(r: EngineResult<T>, id: CollectionId) -> bool {
    r matches Err(e) && e@ == EngineErrorView::CollectionNotFound(ids::id_text(id))
}

/// The engine with another state of one collection.
pub open spec fn with(s: EngineState, id: CollectionId, c: CollectionState) -> EngineState {
    EngineState { collections: s.collections.insert(id, c), ..s }
}

/// The catalog after a collection took over a dimension.
pub open spec fn dimension_kept(c: CatalogView, id: CollectionId, dimension: Option<usize>) -> CatalogView {
    match dimension {
        Some(d) => if c.collections.contains_key(id) {
            CatalogView {
                collections: c.collections.insert(
                    id,
                    catalog::RecordView {
                        config: ConfigView { dimension: d, ..c.collections[id].config },
                        ..c.collections[id]
                    },
                ),
                ..c
            }
        } else {
            c
        },
        None => c,
    }
}

/// The catalog after a collection's log was covered up to a sequence number.
pub open spec fn watermark_kept(c: CatalogView, id: CollectionId, seq: u64) -> CatalogView {
    if c.collections.contains_key(id) && c.collections[id].max_seq_id < seq {
        CatalogView {
            collections: c.collections.insert(
                id,
                catalog::RecordView { max_seq_id: seq, ..c.collections[id] },
            ),
            ..c
        }
    } else {
        c
    }
}

impl Engine {
    /// Whether the catalog and the collections are well-formed, and each
    /// collection is kept under its id.
    pub closed spec fn wf(self) -> bool {
        &&& self.catalog.wf()
        &&& forall|id: u128| #[trigger]
            self.collections@.contains_key(id) ==> self.collections@[id].wf()
                && self.collections@[id]@.config.id == id
    }

    /// An engine over a catalog, before its collections are loaded.
    pub fn new(catalog: CatalogTables, config: EngineConfig) -> (e: Engine)
        requires
            catalog.wf(),
        ensures
            e.wf(),
            e@ == (EngineState { catalog: catalog@, collections: Map::empty(), config }),
    {
        let e = Engine { catalog, collections: Table::new(), config };
        assert(states(e.collections@) =~= Map::empty());
        e
    }

    /// How the engine writes its logs.
    pub fn config(&self) -> (c: EngineConfig)
        ensures
            c == self@.config,
    {
        self.config
    }

    /// The catalog.
    pub fn catalog(&self) -> (c: &CatalogTables)
        requires
            self.wf(),
        ensures
            c.wf(),
            c@ == self@.catalog,
    {
        &self.catalog
    }

    /// Takes a collection that was loaded.
    pub fn hold(&mut self, c: Collection)
        requires
            old(self).wf(),
            c.wf(),
        ensures
            final(self).wf(),
            final(self)@ == with(old(self)@, c@.config.id, c@),
    {
        let id: CollectionId = c.config().id;
        let ghost before = self.collections@;
        let ghost view = c@;
        self.collections.insert(id, c);
        assert(states(self.collections@) =~= states(before).insert(id, view));
    }

    /// Takes a collection out, to be changed and held again.
    fn release(&mut self, id: CollectionId) -> (r: Option<Collection>)
        requires
            old(self).wf(),
        ensures
            final(self).wf(),
            match r {
                Some(c) => old(self)@.collections.contains_key(id) && c.wf() && c@
                    == old(self)@.collections[id] && c@.config.id == id && final(self)@ == (EngineState {
                    collections: old(self)@.collections.remove(id),
                    ..old(self)@
                }),
                None => !old(self)@.collections.contains_key(id) && final(self)@ == old(self)@,
            },
    {
        let ghost before = self.collections@;
        let r: Option<Collection> = self.collections.remove(&id);
        proof {
            assert(states(self.collections@) =~= states(before).remove(id));
            if r is None {
                assert(states(before).remove(id) =~= states(before));
            }
        }
        r
    }

    /// A collection.
    pub fn collection(&self, id: CollectionId) -> (r: EngineResult<&Collection>)
        requires
            self.wf(),
        ensures
            match r {
                Ok(c) => self@.collections.contains_key(id) && c.wf() && c@ == self@.collections[id],
                Err(_) => !self@.collections.contains_key(id) && missing(r, id),
            },
    {
        match self.collections.get(&id) {
            Some(c) => Ok(c),
            None => Err(EngineError::CollectionNotFound(render_id(id))),
        }
    }

    // -----------------------------------------------------------------------
    // Collections
    // -----------------------------------------------------------------------

    /// Creates a collection: an entry in the catalog, and an empty state.
    pub fn create_collection(&mut self, config: &CollectionConfig) -> (r: EngineResult<CollectionRecord>)
        requires
            old(self).wf(),
        ensures
            final(self).wf(),
            config@.name.len() == 0 ==> final(self)@ == old(self)@ && (r matches Err(
                EngineError::Catalog(CatalogError::InvalidArgument(m)),
            ) && m@ == "collection name must not be empty"@),
            config@.name.len() > 0 && old(self)@.catalog.names.contains_key(catalog::name_of(config@))
                ==> final(self)@ == old(self)@ && (r matches Err(EngineError::Catalog(e)) && e
                == CatalogError::AlreadyExists),
            config@.name.len() > 0 && !old(self)@.catalog.names.contains_key(catalog::name_of(config@))
                ==> {
                let record = catalog::RecordView { config: config@, max_seq_id: 0, total_elements: 0 };
                let c = final(self)@.collections[config@.id];
                &&& r matches Ok(x) && x@ == record
                &&& final(self)@ == (EngineState {
                    catalog: CatalogView {
                        collections: old(self)@.catalog.collections.insert(config@.id, record),
                        names: old(self)@.catalog.names.insert(catalog::name_of(config@), config@.id),
                        ..old(self)@.catalog
                    },
                    collections: old(self)@.collections.insert(config@.id, c),
                    ..old(self)@
                })
                &&& c.config == config@
                &&& c.records == Map::<Seq<char>, collection::RecordState>::empty()
                &&& c.buffer.len() == 0
                &&& c.labels.labels == Map::<Seq<char>, u64>::empty()
                &&& c.flushed_seq == 0
                &&& c.last_checkpoint_seq == 0
                &&& c.next_offset == 0
            },
    {
        match self.catalog.create_collection(config) {
            Ok(record) => {
                let c: Collection = Collection::new(config.clone());
                self.hold(c);
                Ok(record)
            },
            Err(e) => Err(EngineError::Catalog(e)),
        }
    }

    /// A collection of a database, by its name.
    pub fn get_collection(&self, tenant: &str, database: &str, name: &str) -> (r: Option<
        &CollectionRecord,
    >)
        ensures
            ({
                let key = (tenant@, database@, name@);
                let c = self@.catalog;
                match r {
                    Some(x) => c.names.contains_key(key) && c.collections.contains_key(c.names[key])
                        && x@ == c.collections[c.names[key]],
                    None => !(c.names.contains_key(key) && c.collections.contains_key(c.names[key])),
                }
            }),
    {
        self.catalog.get_collection(tenant, database, name)
    }

    /// A collection, by its id.
    pub fn get_collection_by_id(&self, id: CollectionId) -> (r: Option<&CollectionRecord>)
        ensures
            match r {
                Some(x) => self@.catalog.collections.contains_key(id) && x@
                    == self@.catalog.collections[id],
                None => !self@.catalog.collections.contains_key(id),
            },
    {
        self.catalog.get_collection_by_id(id)
    }

    /// The collections of a database, in ascending order of their ids.
    pub fn list_collections(&self, tenant: &str, database: &str) -> (r: Vec<CollectionRecord>)
        requires
            self.wf(),
        ensures
            catalog::lists(
                r@,
                self@.catalog.collections,
                catalog::in_scope(Some((tenant@, database@))),
            ),
    {
        self.catalog.list_collections(tenant, database)
    }

    /// Deletes a collection: its entry in the catalog, and its state.
    pub fn delete_collection(&mut self, id: CollectionId) -> (r: EngineResult<()>)
        requires
            old(self).wf(),
        ensures
            final(self).wf(),
            !old(self)@.catalog.collections.contains_key(id) ==> final(self)@ == old(self)@ && (r matches Err(
                EngineError::Catalog(e),
            ) && e == CatalogError::NotFound),
            old(self)@.catalog.collections.contains_key(id) ==> r is Ok && final(self)@ == (
            EngineState {
                catalog: CatalogView {
                    collections: old(self)@.catalog.collections.remove(id),
                    names: old(self)@.catalog.names.remove(
                        catalog::name_of(old(self)@.catalog.collections[id].config),
                    ),
                    ..old(self)@.catalog
                },
                collections: old(self)@.collections.remove(id),
                ..old(self)@
            }),
    {
        match self.catalog.delete_collection(id) {
            Ok(()) => {
                let ghost before = self@;
                let gone: Option<Collection> = self.release(id);
                assert(before.collections.remove(id) =~= self@.collections);
                Ok(())
            },
            Err(e) => Err(EngineError::Catalog(e)),
        }
    }

    // -----------------------------------------------------------------------
    // Writes
    // -----------------------------------------------------------------------

    /// What a request to add records comes to. All of it is refused where any
    /// of it is invalid.
    pub fn add(
        &self,
        id: CollectionId,
        ids: &Vec<Id>,
        embeddings: &Vec<Embedding>,
        metadatas: &Option<Vec<Option<Metadata>>>,
        documents: &Option<Vec<Option<Document>>>,
    ) -> (r: EngineResult<Batch>)
        requires
            self.wf(),
        ensures
            !self@.collections.contains_key(id) ==> missing(r, id),
            self@.collections.contains_key(id) ==> batch::prepares_add(
                self@.collections[id],
                ids@,
                embeddings@,
                *metadatas,
                *documents,
                r,
            ),
    {
        match self.collection(id) {
            Ok(c) => c.prepare_add(ids, embeddings, metadatas, documents),
            Err(e) => Err(e),
        }
    }

    /// What a request to upsert records comes to.
    pub fn upsert(
        &self,
        id: CollectionId,
        ids: &Vec<Id>,
        embeddings: &Vec<Embedding>,
        metadatas: &Option<Vec<Option<Metadata>>>,
        documents: &Option<Vec<Option<Document>>>,
    ) -> (r: EngineResult<Batch>)
        requires
            self.wf(),
        ensures
            !self@.collections.contains_key(id) ==> missing(r, id),
            self@.collections.contains_key(id) ==> batch::prepares_upsert(
                self@.collections[id],
                ids@,
                embeddings@,
                *metadatas,
                *documents,
                r,
            ),
    {
        match self.collection(id) {
            Ok(c) => c.prepare_upsert(ids, embeddings, metadatas, documents),
            Err(e) => Err(e),
        }
    }

    /// What a request to update records comes to.
    pub fn update(
        &self,
        id: CollectionId,
        ids: &Vec<Id>,
        metadatas: &Option<Vec<Option<Metadata>>>,
        documents: &Option<Vec<Option<Document>>>,
    ) -> (r: EngineResult<Batch>)
        requires
            self.wf(),
        ensures
            !self@.collections.contains_key(id) ==> missing(r, id),
            self@.collections.contains_key(id) ==> batch::prepares_update(
                self@.collections[id],
                ids@,
                *metadatas,
                *documents,
                r,
            ),
    {
        match self.collection(id) {
            Ok(c) => c.prepare_update(ids, metadatas, documents),
            Err(e) => Err(e),
        }
    }

    /// What a request to delete records comes to. Ids that are not there are
    /// no error.
    pub fn delete(&self, id: CollectionId, ids: &Vec<Id>) -> (r: EngineResult<Batch>)
        requires
            self.wf(),
        ensures
            !self@.collections.contains_key(id) ==> missing(r, id),
            self@.collections.contains_key(id) ==> (r matches Ok(b) && {
                &&& b.dimension is None
                &&& b.ops@.len() == ids@.len()
                &&& forall|i: int|
                    0 <= i < ids@.len() ==> (#[trigger] b.ops@[i]) is Delete && b.ops@[i].target()
                        == ids@[i]@ && b.ops@[i].effect() == OpKind::Drop
            }),
    {
        match self.collection(id) {
            Ok(_) => Ok(Batch { ops: delete_ops(ids), dimension: None }),
            Err(e) => Err(e),
        }
    }

    /// Applies a batch whose operations are in the log from a sequence number
    /// on. Gives the labels that leave the graph index.
    pub fn commit(&mut self, id: CollectionId, batch: &Batch, first_seq: u64) -> (r: EngineResult<Vec<u64>>)
        requires
            old(self).wf(),
            old(self)@.collections.contains_key(id) ==> old(self)@.collections[id].next_offset
                + batch.ops@.len() <= u32::MAX,
            first_seq + batch.ops@.len() <= u64::MAX,
        ensures
            final(self).wf(),
            !old(self)@.collections.contains_key(id) ==> missing(r, id) && final(self)@ == old(self)@,
            old(self)@.collections.contains_key(id) ==> {
                let before = batch::with_dimension(old(self)@.collections[id], batch.dimension);
                let steps = history::numbered(batch.ops@, first_seq);
                &&& r matches Ok(dropped) && dropped@ == history::labels_dropped(before.labels, steps)
                &&& final(self)@ == (EngineState {
                    catalog: dimension_kept(old(self)@.catalog, id, batch.dimension),
                    ..with(old(self)@, id, final(self)@.collections[id])
                })
                &&& history::state_after_all(before, steps, final(self)@.collections[id])
            },
    {
        let ghost start = self@;
        match self.release(id) {
            Some(c) => {
                let mut c: Collection = c;
                let dropped: Vec<u64> = c.commit(batch, first_seq);
                match batch.dimension {
                    Some(d) => {
                        let kept = self.catalog.update_collection_dimension(id, d);
                        assert(self@.catalog == dimension_kept(start.catalog, id, batch.dimension));
                    },
                    None => {},
                }
                self.hold(c);
                assert(self@.collections =~= start.collections.insert(id, c@));
                Ok(dropped)
            },
            None => Err(EngineError::CollectionNotFound(render_id(id))),
        }
    }

    /// Moves the buffered vectors of a collection to the graph index where
    /// enough of them have come together.
    pub fn flush_if_needed(&mut self, id: CollectionId) -> (r: EngineResult<Flush>)
        requires
            old(self).wf(),
            old(self)@.collections.contains_key(id) ==> old(self)@.collections[id].labels.next_label
                + old(self)@.collections[id].buffer.len() <= u64::MAX,
        ensures
            final(self).wf(),
            !old(self)@.collections.contains_key(id) ==> missing(r, id) && final(self)@ == old(self)@,
            old(self)@.collections.contains_key(id) ==> {
                let c = old(self)@.collections[id];
                let p = flush::flushing(c.labels, c.buffer);
                &&& r matches Ok(f)
                &&& c.buffer.len() < c.config.hnsw.batch_size ==> final(self)@ == old(self)@
                    && f.changes@.len() == 0 && f.error is None
                &&& c.buffer.len() >= c.config.hnsw.batch_size ==> final(self)@ == with(
                    old(self)@,
                    id,
                    flush::flushed(c),
                ) && flush::changes(f.changes@) == p.changes && (p.misfit is None <==> f.error is None)
                    && (p.misfit matches Some(n) ==> f.error == Some(
                    IndexError::DimensionMismatch { index: c.labels.dimension, got: n as usize },
                ))
            },
    {
        let ghost start = self@;
        match self.release(id) {
            Some(c) => {
                let mut c: Collection = c;
                let f: Flush = c.flush_if_needed();
                self.hold(c);
                assert(self@.collections =~= start.collections.insert(id, c@));
                assert(start.collections.insert(id, start.collections[id]) =~= start.collections);
                Ok(f)
            },
            None => Err(EngineError::CollectionNotFound(render_id(id))),
        }
    }

    /// Applies operations of a leader's log. They do not go to this node's log.
    pub fn apply_remote_ops(&mut self, id: CollectionId, ops: &Vec<LoggedOp>) -> (r: EngineResult<Vec<u64>>)
        requires
            old(self).wf(),
            old(self)@.collections.contains_key(id) ==> old(self)@.collections[id].next_offset
                + ops@.len() <= u32::MAX,
        ensures
            final(self).wf(),
            !old(self)@.collections.contains_key(id) ==> missing(r, id) && final(self)@ == old(self)@,
            old(self)@.collections.contains_key(id) ==> {
                let before = old(self)@.collections[id];
                let steps = history::steps(ops@);
                &&& r matches Ok(dropped) && dropped@ == history::labels_dropped(before.labels, steps)
                &&& final(self)@ == with(old(self)@, id, final(self)@.collections[id])
                &&& history::state_after_all(before, steps, final(self)@.collections[id])
            },
    {
        let ghost start = self@;
        match self.release(id) {
            Some(c) => {
                let mut c: Collection = c;
                let dropped: Vec<u64> = c.replay_after(ops);
                self.hold(c);
                assert(self@.collections =~= start.collections.insert(id, c@));
                Ok(dropped)
            },
            None => Err(EngineError::CollectionNotFound(render_id(id))),
        }
    }

    // -----------------------------------------------------------------------
    // Reads
    // -----------------------------------------------------------------------

    /// Number of live records of a collection.
    pub fn count(&self, id: CollectionId) -> (r: EngineResult<u64>)
        requires
            self.wf(),
        ensures
            !self@.collections.contains_key(id) ==> missing(r, id),
            self@.collections.contains_key(id) ==> r == EngineResult::<u64>::Ok(
                self@.collections[id].records.dom().len() as u64,
            ) && self@.collections[id].records.dom().len() <= u64::MAX,
    {
        match self.collection(id) {
            Ok(c) => Ok(c.count()),
            Err(e) => Err(e),
        }
    }

    /// The sequence number of a record.
    pub fn seq_of(&self, id: CollectionId, record: &Id) -> (r: EngineResult<u64>)
        requires
            self.wf(),
        ensures
            !self@.collections.contains_key(id) ==> missing(r, id),
            self@.collections.contains_key(id) ==> match r {
                Ok(n) => self@.collections[id].records.contains_key(record@) && n
                    == self@.collections[id].records[record@].seq,
                Err(e) => !self@.collections[id].records.contains_key(record@) && e@
                    == EngineErrorView::Validation(InvalidView::UnknownId { id: record@ }),
            },
    {
        match self.collection(id) {
            Ok(c) => c.seq_of(record),
            Err(e) => Err(e),
        }
    }

    /// The records of some ids.
    pub fn get(&self, id: CollectionId, file: Option<Mapped>, ids: &Vec<Id>) -> (r: EngineResult<
        Vec<Option<Record>>,
    >)
        requires
            self.wf(),
        ensures
            !self@.collections.contains_key(id) ==> missing(r, id),
            self@.collections.contains_key(id) ==> (r matches Ok(v) && {
                let all = query::contents(self@.collections[id], query::on_file(file));
                &&& v@.len() == ids@.len()
                &&& forall|i: int|
                    0 <= i < ids@.len() ==> match #[trigger] v@[i] {
                        Some(x) => self@.collections[id].records.contains_key(ids@[i]@) && x.id@
                            == ids@[i]@ && x@ == all[ids@[i]@],
                        None => !self@.collections[id].records.contains_key(ids@[i]@),
                    }
            }),
    {
        match self.collection(id) {
            Ok(c) => Ok(c.get(file, ids)),
            Err(e) => Err(e),
        }
    }

    /// Number of vectors of a collection that a query can reach.
    pub fn indexed_count(&self, id: CollectionId) -> (r: EngineResult<usize>)
        requires
            self.wf(),
            self@.collections.contains_key(id) ==> self@.collections[id].labels.labels.dom().len()
                + self@.collections[id].buffer.len() <= usize::MAX,
        ensures
            !self@.collections.contains_key(id) ==> missing(r, id),
            self@.collections.contains_key(id) ==> (r matches Ok(n) && n
                == self@.collections[id].labels.labels.dom().len() + self@.collections[id].buffer.len()),
    {
        match self.collection(id) {
            Ok(c) => Ok(c.indexed_count()),
            Err(e) => Err(e),
        }
    }

    /// Number of vectors of a collection in the graph index.
    pub fn committed_count(&self, id: CollectionId) -> (r: EngineResult<usize>)
        requires
            self.wf(),
        ensures
            !self@.collections.contains_key(id) ==> missing(r, id),
            self@.collections.contains_key(id) ==> (r matches Ok(n) && n
                == self@.collections[id].labels.labels.dom().len()),
    {
        match self.collection(id) {
            Ok(c) => Ok(c.committed_count()),
            Err(e) => Err(e),
        }
    }

    /// The highest sequence number that a collection's graph index covers.
    pub fn flushed_seq(&self, id: CollectionId) -> (r: EngineResult<u64>)
        requires
            self.wf(),
        ensures
            !self@.collections.contains_key(id) ==> missing(r, id),
            self@.collections.contains_key(id) ==> (r matches Ok(n) && n
                == self@.collections[id].flushed_seq),
    {
        match self.collection(id) {
            Ok(c) => Ok(c.flushed_seq()),
            Err(e) => Err(e),
        }
    }

    /// What a query has to compare.
    pub fn query(
        &self,
        id: CollectionId,
        file: Option<Mapped>,
        query_len: usize,
        k: usize,
        options: &QueryOptions,
    ) -> (r: EngineResult<QueryPlan>)
        requires
            self.wf(),
        ensures
            !self@.collections.contains_key(id) ==> missing(r, id),
            self@.collections.contains_key(id) ==> match r {
                Err(e) => query_len != self@.collections[id].config.dimension && e@
                    == EngineErrorView::Validation(
                    InvalidView::Dimension {
                        op: Verb::Query,
                        got: query_len,
                        dimension: self@.collections[id].config.dimension,
                    },
                ),
                Ok(p) => query_len == self@.collections[id].config.dimension && query::plans(
                    p,
                    self@.collections[id],
                    query::on_file(file),
                    query::cond_opt(options.where_filter),
                    k as nat,
                    options.ef as nat,
                    options.oversampling as nat,
                ),
            },
    {
        match self.collection(id) {
            Ok(c) => c.plan_query(file, query_len, k, options),
            Err(e) => Err(e),
        }
    }

    /// The answer to a query, from the distances that were computed.
    pub fn rank(&self, id: CollectionId, plan: &QueryPlan, distances: &Vec<F32>, hits: &Vec<(u64, F32)>) -> (r:
        EngineResult<Vec<ScoredPoint>>)
        requires
            self.wf(),
            plan.scan.wf(),
            distances@.len() == plan.scan.listed().len(),
        ensures
            !self@.collections.contains_key(id) ==> missing(r, id),
            self@.collections.contains_key(id) ==> (r matches Ok(v) && query::nearest(
                v@,
                self@.collections[id],
                query::merged(
                    self@.collections[id],
                    query::members_opt(plan.eligible),
                    query::scanned(plan.scan.listed(), distances@),
                    index::resolved(self@.collections[id].labels.labels, hits@),
                ),
                plan.k as nat,
            )),
    {
        match self.collection(id) {
            Ok(c) => Ok(c.rank(plan, distances, hits)),
            Err(e) => Err(e),
        }
    }

    // -----------------------------------------------------------------------
    // Checkpoints and snapshots
    // -----------------------------------------------------------------------

    /// Takes note that a checkpoint was written: vectors that it holds leave
    /// the memory, and the catalog learns how far the log is covered.
    pub fn finish_checkpoint(&mut self, id: CollectionId, segment: &Option<SegmentPlan>) -> (r:
        EngineResult<()>)
        requires
            old(self).wf(),
            segment matches Some(p) ==> p.index.wf(),
            old(self)@.collections.contains_key(id) ==> old(self)@.catalog.collections.contains_key(id),
        ensures
            final(self).wf(),
            !old(self)@.collections.contains_key(id) ==> missing(r, id) && final(self)@ == old(self)@,
            old(self)@.collections.contains_key(id) ==> {
                let c = old(self)@.collections[id];
                &&& r is Ok
                &&& final(self)@ == (EngineState {
                    catalog: watermark_kept(old(self)@.catalog, id, c.flushed_seq),
                    ..with(
                        old(self)@,
                        id,
                        checkpoint::checkpointed(c, *segment),
                    )
                })
            },
    {
        let ghost start = self@;
        match self.release(id) {
            Some(c) => {
                let mut c: Collection = c;
                c.finish_checkpoint(segment);
                let kept = self.catalog.advance_log_offset(id, c.flushed_seq());
                proof {
                    let w = start.catalog.collections;
                    assert(w.insert(id, w[id]) =~= w);
                    assert(self@.catalog == watermark_kept(start.catalog, id, c@.flushed_seq));
                }
                self.hold(c);
                assert(self@.collections =~= start.collections.insert(id, c@));
                Ok(())
            },
            None => Err(EngineError::CollectionNotFound(render_id(id))),
        }
    }

    /// Flushes a collection's buffer and rebuilds its graph index.
    pub fn optimize(&mut self, id: CollectionId, file: Option<Mapped>) -> (r: EngineResult<Optimized>)
        requires
            old(self).wf(),
            old(self)@.collections.contains_key(id) ==> old(self)@.collections[id].labels.next_label
                + old(self)@.collections[id].buffer.len() <= u64::MAX,
        ensures
            final(self).wf(),
            !old(self)@.collections.contains_key(id) ==> missing(r, id) && final(self)@ == old(self)@,
            old(self)@.collections.contains_key(id) ==> {
                let c = old(self)@.collections[id];
                let after = final(self)@.collections[id];
                &&& final(self)@ == with(old(self)@, id, after)
                &&& r matches Ok(o) && batch::optimizes(c, query::on_file(file), o, after)
            },
    {
        let ghost start = self@;
        match self.release(id) {
            Some(c) => {
                let mut c: Collection = c;
                let o: Optimized = c.optimize(file);
                self.hold(c);
                assert(self@.collections =~= start.collections.insert(id, c@));
                Ok(o)
            },
            None => Err(EngineError::CollectionNotFound(render_id(id))),
        }
    }

    /// The records of a collection, for a snapshot.
    pub fn snapshot(&self, id: CollectionId, file: Option<Mapped>) -> (r: EngineResult<Vec<Record>>)
        requires
            self.wf(),
        ensures
            !self@.collections.contains_key(id) ==> missing(r, id),
            self@.collections.contains_key(id) ==> (r matches Ok(v) && checkpoint::records_by_id(v@)
                == query::contents(self@.collections[id], query::on_file(file))),
    {
        match self.collection(id) {
            Ok(c) => Ok(c.snapshot(file)),
            Err(e) => Err(e),
        }
    }

    /// Takes over the records of a snapshot. Records of a collection that the
    /// engine does not hold are passed over.
    pub fn restore_snapshot(&mut self, id: CollectionId, records: &Vec<Record>) -> (dropped: Vec<u64>)
        requires
            old(self).wf(),
            old(self)@.collections.contains_key(id) ==> old(self)@.collections[id].next_offset
                + batch::restoring_all(records@).len() <= u32::MAX,
        ensures
            final(self).wf(),
            !old(self)@.collections.contains_key(id) ==> final(self)@ == old(self)@ && dropped@.len() == 0,
            old(self)@.collections.contains_key(id) ==> {
                let before = old(self)@.collections[id];
                let steps = batch::restoring_all(records@);
                &&& dropped@ == history::labels_dropped(before.labels, steps)
                &&& final(self)@ == with(old(self)@, id, final(self)@.collections[id])
                &&& history::state_after_all(before, steps, final(self)@.collections[id])
            },
    {
        let ghost start = self@;
        let ops: Vec<LoggedOp> = restore_ops(records);
        assert(history::steps(ops@).len() == ops@.len());
        match self.release(id) {
            Some(c) => {
                let mut c: Collection = c;
                let dropped: Vec<u64> = c.replay_after(&ops);
                self.hold(c);
                assert(self@.collections =~= start.collections.insert(id, c@));
                dropped
            },
            None => Vec::new(),
        }
    }
}

// ---------------------------------------------------------------------------
// Laws
// ---------------------------------------------------------------------------

/// Whether the engine holds exactly the collections of its catalog.
pub open spec fn holds_the_catalog(s: EngineState) -> bool {
    s.collections.dom() == s.catalog.collections.dom()
}

/// A change of one collection leaves all others as they are, and the engine
/// goes on holding the collections of its catalog.
pub proof fn collections_do_not_touch(
    s: EngineState,
    id: CollectionId,
    c: CollectionState,
    dimension: Option<usize>,
    seq: u64,
    other: CollectionId,
)
    requires
        holds_the_catalog(s),
        s.collections.contains_key(id),
        other != id,
    ensures
        with(s, id, c).collections.contains_key(other) == s.collections.contains_key(other),
        with(s, id, c).collections[other] == s.collections[other],
        dimension_kept(s.catalog, id, dimension).collections[other] == s.catalog.collections[other],
        watermark_kept(s.catalog, id, seq).collections[other] == s.catalog.collections[other],
        holds_the_catalog(with(s, id, c)),
        holds_the_catalog(
            (EngineState {
                catalog: dimension_kept(s.catalog, id, dimension),
                ..with(s, id, c)
            }),
        ),
        holds_the_catalog((EngineState { catalog: watermark_kept(s.catalog, id, seq), ..with(s, id, c) })),
{
    assert(with(s, id, c).collections.dom() =~= s.collections.dom());
    assert(dimension_kept(s.catalog, id, dimension).collections.dom() =~= s.catalog.collections.dom());
    assert(watermark_kept(s.catalog, id, seq).collections.dom() =~= s.catalog.collections.dom());
}

/// The watermark that the catalog keeps of a log never goes back.
pub proof fn kept_watermarks_never_go_back(c: CatalogView, id: CollectionId, seq: u64)
    requires
        c.collections.contains_key(id),
    ensures
        watermark_kept(c, id, seq).collections[id].max_seq_id >= c.collections[id].max_seq_id,
        watermark_kept(c, id, seq).collections[id].max_seq_id >= seq,
        watermark_kept(c, id, seq).names == c.names,
{
}

/// A collection that takes over a dimension has it in the catalog, and is else as
/// it was there; nothing happens without a dimension.
pub proof fn taken_dimensions_are_kept(c: CatalogView, id: CollectionId, dimension: Option<usize>)
    requires
        c.collections.contains_key(id),
    ensures
        ({
            let after = dimension_kept(c, id, dimension);
            let (a, b) = (c.collections[id], after.collections[id]);
            &&& dimension is None ==> after == c
            &&& dimension matches Some(d) ==> b.config.dimension == d
            &&& after.collections.contains_key(id)
            &&& b.config.name == a.config.name && b.config.tenant == a.config.tenant && b.config.database
                == a.config.database && b.config.id == a.config.id && b.config.space == a.config.space
                && b.config.hnsw == a.config.hnsw && b.config.metadata == a.config.metadata
            &&& b.max_seq_id == a.max_seq_id && b.total_elements == a.total_elements
            &&& after.names == c.names && after.tenants == c.tenants && after.databases == c.databases
        }),
{
}

/// The watermark of the catalog is the highest that was reached, and nothing else
/// of the record moves with it.
pub proof fn the_highest_watermark_is_kept(c: CatalogView, id: CollectionId, seq: u64)
    requires
        c.collections.contains_key(id),
    ensures
        ({
            let after = watermark_kept(c, id, seq);
            let (a, b) = (c.collections[id], after.collections[id]);
            &&& after.collections.contains_key(id)
            &&& b.max_seq_id == a.max_seq_id || b.max_seq_id == seq
            &&& b.max_seq_id >= a.max_seq_id && b.max_seq_id >= seq
            &&& b.config == a.config && b.total_elements == a.total_elements
            &&& after.names == c.names && after.tenants == c.tenants && after.databases == c.databases
        }),
{
}

/// A collection that is held is the one that was given, and the catalog and the
/// settings stay.
pub proof fn held_collections_are_those_given(s: EngineState, id: CollectionId, c: CollectionState)
    ensures
        with(s, id, c).collections.contains_key(id),
        with(s, id, c).collections[id] == c,
        with(s, id, c).catalog == s.catalog,
        with(s, id, c).config == s.config,
{
}

} // verus!
