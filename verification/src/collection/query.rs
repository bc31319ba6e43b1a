//! Searching a collection: which vectors are compared with the query, and how
//! the results are ranked.

use roaring::RoaringBitmap;

use vstd::prelude::*;
use vstd::string::*;

use crate::bitmap;
use crate::bitmap::ascending;
use crate::collection;
use crate::collection::{clone_vector, Collection, CollectionState, Record, RecordState};
use crate::error::{EngineError, EngineErrorView, EngineResult, Invalid, InvalidView, Verb};
use crate::filter;
use crate::filter::{CondView, WhereFilter};
use crate::idmap;
use crate::idmap::IdMap;
use crate::index;
use crate::num;
use crate::num::F32;
use crate::op::OpKind;
use crate::postings;
use crate::segment::Mapped;
use crate::sort;
use crate::sort::{sorted, Ordered};
use crate::types;
use crate::types::{clone_meta, clone_text, Document, Embedding, Id, Metadata};

verus! {

// ---------------------------------------------------------------------------
// The vector of a record
// ---------------------------------------------------------------------------

/// The vectors of the segment file, none where there is no file.
pub open spec fn on_file(file: Option<Mapped>) -> Seq<Seq<u32>> {
    match file {
        Some(m) => m@,
        None => Seq::empty(),
    }
}

/// The vector of a live record: the one in memory, else the one on file.
pub open spec fn vector_of(s: CollectionState, file: Seq<Seq<u32>>, id: Seq<char>) -> Option<
    Seq<u32>,
> {
    if !s.records.contains_key(id) {
        None
    } else {
        match s.records[id].embedding {
            Some(e) => Some(e),
            None => if s.stored.contains_key(id) && s.stored[id] < file.len() {
                Some(file[s.stored[id] as int])
            } else {
                None
            },
        }
    }
}

/// The live records with their vectors, wherever those are held.
pub open spec fn contents(s: CollectionState, file: Seq<Seq<u32>>) -> Map<Seq<char>, RecordState> {
    Map::new(
        |id: Seq<char>| s.records.contains_key(id),
        |id: Seq<char>| RecordState { embedding: vector_of(s, file, id), ..s.records[id] },
    )
}

/// One operation acts on the records and their vectors as on plain records.
pub proof fn lemma_one_operation(
    a: CollectionState,
    b: CollectionState,
    file: Seq<Seq<u32>>,
    id: Seq<char>,
    effect: OpKind,
    seq: u64,
)
    requires
        forall|k: Seq<char>| #[trigger] a.stored.contains_key(k) ==> a.records.contains_key(k),
        b.records == collection::records_after(a.records, id, effect, seq),
        b.stored == collection::stored_after(a.stored, id, effect),
    ensures
        contents(b, file) == collection::records_after(contents(a, file), id, effect, seq),
{
    let after = collection::records_after(contents(a, file), id, effect, seq);
    assert forall|k: Seq<char>| #[trigger] contents(b, file).contains_key(k) implies contents(b, file)[k]
        == after[k] by {
        if k == id {
            if !a.records.contains_key(id) {
                assert(!a.stored.contains_key(id));
            }
        }
    }
    assert(contents(b, file) =~= after);
}

impl Collection {
    /// The vector of a record: the one in memory, else the one on file.
    pub fn load_vector(&self, file: Option<Mapped>, id: &str) -> (r: Option<Embedding>)
        requires
            self.wf(),
        ensures
            collection::vector_opt(r) == vector_of(self@, on_file(file), id@),
    {
        assert(self@.records.contains_key(id@) == self.records@.contains_key(id@));
        match self.records.get(id) {
            Some(record) => {
                assert(self@.records[id@] == record@);
                match &record.embedding {
                    Some(e) => Some(clone_vector(e)),
                    None => match (self.stored.get(id), file) {
                        (Some(at), Some(m)) => m.get(*at),
                        _ => None,
                    },
                }
            },
            None => None,
        }
    }
}

// ---------------------------------------------------------------------------
// Planning
// ---------------------------------------------------------------------------

/// How a search is to run.
#[derive(Debug)]
pub struct QueryOptions {
    /// Width of the graph walk; 0 takes the collection's setting.
    pub ef: usize,
    /// Which records are eligible; without a filter all are.
    pub where_filter: Option<WhereFilter>,
    /// How many times as many hits as wanted a filtered graph walk fetches.
    pub oversampling: usize,
}

impl Default for QueryOptions {
    fn default() -> (r: Self)
        ensures
            r.ef == 0,
            r.where_filter is None,
            r.oversampling == 4,
    {
        QueryOptions { ef: 0, where_filter: None, oversampling: 4 }
    }
}

impl QueryOptions {
    /// The default options with a filter.
    pub fn with_where(filter: WhereFilter) -> (r: QueryOptions)
        ensures
            r.ef == 0,
            r.where_filter == Some(filter),
            r.oversampling == 4,
    {
        QueryOptions { ef: 0, where_filter: Some(filter), oversampling: 4 }
    }
}

/// A walk of the graph index.
#[derive(Debug, Clone, Copy, PartialEq, Eq, Structural)]
pub struct GraphSearch {
    /// Number of hits to fetch.
    pub fetch: usize,
    /// Width of the walk.
    pub ef: usize,
}

/// What a search has to compute: the distances of some vectors, and maybe a
/// walk of the graph.
pub struct QueryPlan {
    /// Number of results, at least one.
    pub k: usize,
    /// The vectors whose distance from the query is to be computed.
    pub scan: IdMap<Embedding>,
    /// The walk of the graph, where one is to be made.
    pub graph: Option<GraphSearch>,
    /// The offsets of the records that a hit of the walk may be of.
    pub eligible: Option<RoaringBitmap>,
}

/// Whether a record waits for the graph index.
pub open spec fn is_buffered(s: CollectionState, id: Seq<char>) -> bool {
    exists|i: int| 0 <= i < s.buffer.len() && (#[trigger] s.buffer[i]).0 == id
}

/// Whether a record's metadata matches a filter. A record without metadata is
/// matched as one with none set.
pub open spec fn matching(s: CollectionState, c: CondView, id: Seq<char>) -> bool {
    s.records.contains_key(id) && filter::cond_matches(
        c,
        postings::matched_as(s.records[id].metadata),
    )
}

/// Whether the postings find a record for a filter.
pub open spec fn posted(s: CollectionState, c: CondView, id: Seq<char>) -> bool {
    s.offsets.contains_key(id) && postings::cond_hits(s.postings, c, s.offsets[id])
}

/// The offsets that the postings find for a filter.
pub open spec fn found(s: CollectionState, c: CondView) -> Set<u32> {
    Set::new(|o: u32| postings::cond_hits(s.postings, c, o))
}

/// Whether an unfiltered search scans all records.
pub open spec fn scans_all(s: CollectionState) -> bool {
    s.labels.labels.dom().len() + s.buffer.len() <= s.config.hnsw.max_scan
}

/// Whether a filtered search scans all eligible records.
pub open spec fn scans_eligible(s: CollectionState, c: CondView) -> bool {
    found(s, c).len() <= s.config.hnsw.max_scan
}

/// An optional filter as a mathematical value.
pub open spec fn cond_opt(f: Option<WhereFilter>) -> Option<CondView> {
    match f {
        Some(f) => Some(f@),
        None => None,
    }
}

/// Whether a search compares a record's vector with the query. Without a
/// filter, a small collection is scanned and of a large one only the buffer.
/// With a filter, eligible records of the buffer are, and where the postings
/// find few enough, all that they find.
pub open spec fn compared(
    s: CollectionState,
    file: Seq<Seq<u32>>,
    c: Option<CondView>,
    id: Seq<char>,
) -> bool {
    &&& vector_of(s, file, id) is Some
    &&& match c {
        None => scans_all(s) || is_buffered(s, id),
        Some(c) => is_buffered(s, id) && matching(s, c, id) || scans_eligible(s, c) && posted(s, c, id),
    }
}

/// The vectors that a search compares with the query.
pub open spec fn scan_of(s: CollectionState, file: Seq<Seq<u32>>, c: Option<CondView>) -> Map<
    Seq<char>,
    Seq<u32>,
> {
    Map::new(
        |id: Seq<char>| compared(s, file, c, id),
        |id: Seq<char>| vector_of(s, file, id)->0,
    )
}

/// The walk of the graph that a search makes.
pub open spec fn walk_of(s: CollectionState, c: Option<CondView>, k: nat, ef: nat, oversampling: nat) -> Option<
    GraphSearch,
> {
    let ef = if ef == 0 {
        s.config.hnsw.ef_search
    } else {
        ef as usize
    };
    match c {
        None => if scans_all(s) {
            None
        } else {
            Some(GraphSearch { fetch: k as usize, ef })
        },
        Some(c) => if scans_eligible(s, c) {
            None
        } else {
            let times = if oversampling == 0 {
                1
            } else {
                oversampling
            };
            let fetch = if k * times <= usize::MAX {
                (k * times) as usize
            } else {
                usize::MAX
            };
            Some(GraphSearch { fetch, ef })
        },
    }
}

/// The vectors of a map.
pub open spec fn vectors(m: Map<Seq<char>, Embedding>) -> Map<Seq<char>, Seq<u32>> {
    m.map_values(|e: Embedding| e@)
}

/// At least one.
pub open spec fn wanted(k: nat) -> nat {
    if k == 0 {
        1
    } else {
        k
    }
}

/// A plan for a search of a state.
pub open spec fn plans(
    p: QueryPlan,
    s: CollectionState,
    file: Seq<Seq<u32>>,
    c: Option<CondView>,
    k: nat,
    ef: nat,
    oversampling: nat,
) -> bool {
    &&& p.scan.wf()
    &&& p.k == wanted(k)
    &&& vectors(p.scan@) == scan_of(s, file, c)
    &&& p.graph == walk_of(s, c, wanted(k), ef, oversampling)
    &&& p.eligible is Some <==> c is Some
    &&& p.eligible matches Some(b) ==> bitmap::members(b) == found(s, c->0)
}

/// Whether a record's optional metadata matches a filter.
fn filter_matches_opt(filter: &WhereFilter, metadata: &Option<Metadata>) -> (r: bool)
    ensures
        r == filter::cond_matches(filter@, postings::matched_as(types::meta_opt(*metadata))),
{
    match metadata {
        Some(m) => filter.matches(m),
        None => filter.matches(&Metadata::new()),
    }
}

impl Collection {
    /// Adds a record's vector to a scan, if it has one.
    fn note(&self, file: Option<Mapped>, id: &str, scan: &mut IdMap<Embedding>)
        requires
            self.wf(),
            old(scan).wf(),
        ensures
            final(scan).wf(),
            vectors(final(scan)@) == (match vector_of(self@, on_file(file), id@) {
                Some(v) => vectors(old(scan)@).insert(id@, v),
                None => vectors(old(scan)@),
            }),
    {
        let ghost before = scan@;
        match self.load_vector(file, id) {
            Some(e) => {
                let ghost v = e@;
                scan.insert(id.to_owned(), e);
                assert(vectors(scan@) =~= vectors(before).insert(id@, v));
            },
            None => {},
        }
    }

    /// All live records that have a vector.
    fn scan_all(&self, file: Option<Mapped>) -> (scan: IdMap<Embedding>)
        requires
            self.wf(),
        ensures
            scan.wf(),
            forall|id: Seq<char>| #[trigger] vectors(scan@).contains_key(id) <==> vector_of(
                self@,
                on_file(file),
                id,
            ) is Some,
            forall|id: Seq<char>| #[trigger] vectors(scan@).contains_key(id) ==> Some(vectors(scan@)[id])
                == vector_of(self@, on_file(file), id),
    {
        let mut scan: IdMap<Embedding> = IdMap::new();
        let entries: &Vec<(String, Record)> = self.records.entries();
        let mut i: usize = 0;
        while i < entries.len()
            invariant
                i <= entries.len(),
                self.wf(),
                scan.wf(),
                idmap::names_distinct(entries@),
                self.records@ == idmap::map_of(entries@),
                forall|id: Seq<char>| #[trigger] vectors(scan@).contains_key(id) ==> Some(
                    vectors(scan@)[id],
                ) == vector_of(self@, on_file(file), id),
                forall|j: int|
                    0 <= j < i && vector_of(self@, on_file(file), (#[trigger] entries@[j]).0@) is Some
                        ==> vectors(scan@).contains_key(entries@[j].0@),
            decreases entries.len() - i,
        {
            self.note(file, entries[i].0.as_str(), &mut scan);
            i += 1;
        }
        proof {
            assert forall|id: Seq<char>|
                vector_of(self@, on_file(file), id) is Some implies #[trigger] vectors(scan@).contains_key(
                id,
            ) by {
                assert(self.records@.contains_key(id));
                let j = idmap::spot(entries@, id);
                assert(idmap::named(entries@, id));
                assert(entries@[j].0@ == id);
            }
        }
        scan
    }

    /// The records of the buffer, or those that a filter matches.
    fn scan_buffer(&self, file: Option<Mapped>, filter: Option<&WhereFilter>) -> (scan: IdMap<
        Embedding,
    >)
        requires
            self.wf(),
        ensures
            scan.wf(),
            forall|id: Seq<char>| #[trigger] vectors(scan@).contains_key(id) <==> is_buffered(self@, id)
                && (filter matches Some(f) ==> matching(self@, f@, id)),
            forall|id: Seq<char>| #[trigger] vectors(scan@).contains_key(id) ==> Some(vectors(scan@)[id])
                == vector_of(self@, on_file(file), id),
    {
        let mut scan: IdMap<Embedding> = IdMap::new();
        let mut i: usize = 0;
        while i < self.buffer.len()
            invariant
                i <= self.buffer.len(),
                self.wf(),
                scan.wf(),
                forall|id: Seq<char>| #[trigger] vectors(scan@).contains_key(id) ==> Some(
                    vectors(scan@)[id],
                ) == vector_of(self@, on_file(file), id),
                forall|id: Seq<char>|
                    #[trigger] vectors(scan@).contains_key(id) ==> is_buffered(self@, id) && (
                    filter matches Some(f) ==> matching(self@, f@, id)),
                forall|j: int|
                    0 <= j < i && (filter matches Some(f) ==> matching(
                        self@,
                        f@,
                        (#[trigger] self@.buffer[j]).0,
                    )) ==> vectors(scan@).contains_key((#[trigger] self@.buffer[j]).0),
            decreases self.buffer.len() - i,
        {
            let id: &str = self.buffer[i].id.as_str();
            proof {
                self.lemma_sound();
                assert(self@.buffer[i as int].0 == id@);
                assert(collection::waiting(self@.buffer[i as int], self@.records));
                assert(is_buffered(self@, id@));
                assert(self.records@.contains_key(id@));
                assert(self@.records[id@] == self.records@[id@]@);
            }
            let keep: bool = match (filter, self.records.get(id)) {
                (Some(f), Some(record)) => filter_matches_opt(f, &record.metadata),
                (Some(_), None) => false,
                (None, _) => true,
            };
            if keep {
                self.note(file, id, &mut scan);
            }
            i += 1;
        }
        scan
    }

    /// Adds the records at some offsets to a scan.
    fn scan_found(
        &self,
        file: Option<Mapped>,
        candidates: &RoaringBitmap,
        scan: &mut IdMap<Embedding>,
    )
        requires
            self.wf(),
            old(scan).wf(),
            forall|id: Seq<char>| #[trigger] vectors(old(scan)@).contains_key(id) ==> Some(
                vectors(old(scan)@)[id],
            ) == vector_of(self@, on_file(file), id),
        ensures
            final(scan).wf(),
            forall|id: Seq<char>| #[trigger] vectors(final(scan)@).contains_key(id) ==> Some(
                vectors(final(scan)@)[id],
            ) == vector_of(self@, on_file(file), id),
            forall|id: Seq<char>|
                #[trigger] vectors(final(scan)@).contains_key(id) <==> vectors(
                    old(scan)@,
                ).contains_key(id) || (vector_of(self@, on_file(file), id) is Some
                    && self@.offsets.contains_key(id) && bitmap::members(*candidates).contains(
                    self@.offsets[id],
                )),
    {
        let list: Vec<u32> = ascending(candidates);
        let ghost before = vectors(scan@);
        let mut i: usize = 0;
        while i < list.len()
            invariant
                i <= list.len(),
                self.wf(),
                scan.wf(),
                forall|v: u32| bitmap::members(*candidates).contains(v) <==> list@.contains(v),
                forall|id: Seq<char>| #[trigger] vectors(scan@).contains_key(id) ==> Some(
                    vectors(scan@)[id],
                ) == vector_of(self@, on_file(file), id),
                forall|id: Seq<char>| #[trigger] before.contains_key(id) ==> vectors(scan@).contains_key(id),
                forall|id: Seq<char>|
                    #[trigger] vectors(scan@).contains_key(id) ==> before.contains_key(id) || (vector_of(
                        self@,
                        on_file(file),
                        id,
                    ) is Some && self@.offsets.contains_key(id) && bitmap::members(
                        *candidates,
                    ).contains(self@.offsets[id])),
                forall|j: int, id: Seq<char>|
                    0 <= j < i && #[trigger] self@.offsets.contains_key(id) && self@.offsets[id]
                        == #[trigger] list@[j] && vector_of(self@, on_file(file), id) is Some
                        ==> vectors(scan@).contains_key(id),
            decreases list.len() - i,
        {
            let ghost o = list@[i as int];
            assert(list@.contains(o));
            proof {
                self.lemma_sound();
            }
            match self.id_by_offset.get(&list[i]) {
                Some(id) => {
                    proof {
                        assert(self.id_by_offset@.contains_key(o));
                        assert(self.offsets@.contains_key(id@) && self.offsets@[id@] == o);
                    }
                    self.note(file, id.as_str(), scan);
                },
                None => {
                    proof {
                        assert forall|id: Seq<char>| #[trigger] self@.offsets.contains_key(id) implies self@.offsets[id]
                            != o by {
                            assert(self.offsets@.contains_key(id));
                        }
                    }
                },
            }
            i += 1;
        }
        proof {
            assert forall|id: Seq<char>|
                vector_of(self@, on_file(file), id) is Some && self@.offsets.contains_key(id)
                    && bitmap::members(*candidates).contains(self@.offsets[id]) implies #[trigger] vectors(
                scan@,
            ).contains_key(id) by {
                assert(list@.contains(self@.offsets[id]));
                let j = choose|j: int| 0 <= j < list@.len() && list@[j] == self@.offsets[id];
                assert(list@[j] == self@.offsets[id]);
            }
        }
    }

    /// Plans a search for the `k` nearest records to a query of the given
    /// length.
    #[verifier::rlimit(40)]
    pub fn plan_query(
        &self,
        file: Option<Mapped>,
        query_len: usize,
        k: usize,
        options: &QueryOptions,
    ) -> (r: EngineResult<QueryPlan>)
        requires
            self.wf(),
        ensures
            match r {
                Err(e) => query_len != self@.config.dimension && e@ == EngineErrorView::Validation(
                    InvalidView::Dimension {
                        op: Verb::Query,
                        got: query_len,
                        dimension: self@.config.dimension,
                    },
                ),
                Ok(p) => query_len == self@.config.dimension && plans(
                    p,
                    self@,
                    on_file(file),
                    cond_opt(options.where_filter),
                    k as nat,
                    options.ef as nat,
                    options.oversampling as nat,
                ),
            },
    {
        if query_len != self.config.dimension {
            return Err(
                EngineError::Validation(
                    Invalid::Dimension {
                        op: Verb::Query,
                        got: query_len,
                        dimension: self.config.dimension,
                    },
                ),
            );
        }
        let k: usize = if k == 0 {
            1
        } else {
            k
        };
        let ef: usize = if options.ef == 0 {
            self.config.hnsw.ef_search
        } else {
            options.ef
        };
        let max_scan: usize = self.config.hnsw.max_scan;
        let ghost c = cond_opt(options.where_filter);
        let ghost vs = on_file(file);
        proof {
            self.lemma_sound();
            assert forall|id: Seq<char>| is_buffered(self@, id) implies vector_of(self@, vs, id) is Some by {
                let i = choose|i: int| 0 <= i < self@.buffer.len() && (#[trigger] self@.buffer[i]).0 == id;
                assert(collection::waiting(self@.buffer[i], self@.records));
            }
        }
        match &options.where_filter {
            None => {
                let indexed: usize = self.labels.len();
                if indexed <= max_scan && self.buffer.len() <= max_scan - indexed {
                    let scan: IdMap<Embedding> = self.scan_all(file);
                    assert(vectors(scan@) =~= scan_of(self@, vs, c));
                    Ok(QueryPlan { k, scan, graph: None, eligible: None })
                } else {
                    let scan: IdMap<Embedding> = self.scan_buffer(file, None);
                    assert(vectors(scan@) =~= scan_of(self@, vs, c));
                    Ok(
                        QueryPlan {
                            k,
                            scan,
                            graph: Some(GraphSearch { fetch: k, ef }),
                            eligible: None,
                        },
                    )
                }
            },
            Some(filter) => {
                let mut scan: IdMap<Embedding> = self.scan_buffer(file, Some(filter));
                let candidates: RoaringBitmap = self.postings.evaluate(filter);
                assert(bitmap::members(candidates) =~= found(self@, filter@));
                if candidates.len() <= max_scan as u64 {
                    self.scan_found(file, &candidates, &mut scan);
                    assert(vectors(scan@) =~= scan_of(self@, vs, c));
                    Ok(QueryPlan { k, scan, graph: None, eligible: Some(candidates) })
                } else {
                    let times: usize = if options.oversampling == 0 {
                        1
                    } else {
                        options.oversampling
                    };
                    let fetch: usize = match k.checked_mul(times) {
                        Some(n) => n,
                        None => usize::MAX,
                    };
                    assert(vectors(scan@) =~= scan_of(self@, vs, c));
                    Ok(
                        QueryPlan {
                            k,
                            scan,
                            graph: Some(GraphSearch { fetch, ef }),
                            eligible: Some(candidates),
                        },
                    )
                }
            },
        }
    }
}

// ---------------------------------------------------------------------------
// Ranking
// ---------------------------------------------------------------------------

/// A result of a search.
#[derive(Debug)]
pub struct ScoredPoint {
    pub id: Id,
    /// Distance from the query; lower is nearer.
    pub distance: F32,
    /// The metadata that the record has now.
    pub metadata: Option<Metadata>,
    /// The document that the record has now.
    pub document: Option<Document>,
}

impl Ordered for ScoredPoint {
    open spec fn before(self, other: Self) -> bool {
        self.distance.rank() <= other.distance.rank()
    }

    proof fn order_is_total(a: Self, b: Self) {
    }

    proof fn order_is_transitive(a: Self, b: Self, c: Self) {
    }

    fn goes_before(&self, other: &Self) -> (r: bool) {
        self.distance.order_key() <= other.distance.order_key()
    }
}

/// The distances of scanned records, in the order of the scan.
pub open spec fn scanned(entries: Seq<(String, Embedding)>, distances: Seq<F32>) -> Map<
    Seq<char>,
    F32,
> {
    Map::new(
        |id: Seq<char>| idmap::named(entries, id),
        |id: Seq<char>| distances[idmap::spot(entries, id)],
    )
}

/// Whether a hit of the graph may be a result: any may without a filter, with
/// one only a record that the postings find.
pub open spec fn admitted(s: CollectionState, eligible: Option<Set<u32>>, id: Seq<char>) -> bool {
    match eligible {
        None => true,
        Some(e) => s.offsets.contains_key(id) && e.contains(s.offsets[id]),
    }
}

/// The distances with the hits of the graph merged in. What was there wins over
/// a hit, and an earlier hit over a later one.
pub open spec fn merged(
    s: CollectionState,
    eligible: Option<Set<u32>>,
    near: Map<Seq<char>, F32>,
    hits: Seq<(Seq<char>, F32)>,
) -> Map<Seq<char>, F32>
    decreases hits.len(),
{
    if hits.len() == 0 {
        near
    } else {
        let done = merged(s, eligible, near, hits.drop_last());
        let (id, d) = hits.last();
        if done.contains_key(id) || !admitted(s, eligible, id) {
            done
        } else {
            done.insert(id, d)
        }
    }
}

/// Whether a result is of a record at the given distance, with the metadata and
/// document that the record has now.
pub open spec fn scores(p: ScoredPoint, s: CollectionState, near: Map<Seq<char>, F32>) -> bool {
    let id = p.id@;
    &&& near.contains_key(id)
    &&& p.distance == near[id]
    &&& types::meta_opt(p.metadata) == (if s.records.contains_key(id) {
        s.records[id].metadata
    } else {
        None
    })
    &&& types::text_opt(p.document) == (if s.records.contains_key(id) {
        s.records[id].document
    } else {
        None
    })
}

/// Whether results are the `k` nearest of some records: none occurs twice, the
/// nearer come first, and what is left out is no nearer than what is in.
pub open spec fn nearest(
    r: Seq<ScoredPoint>,
    s: CollectionState,
    near: Map<Seq<char>, F32>,
    k: nat,
) -> bool {
    &&& r.len() == (if near.dom().len() < k {
        near.dom().len()
    } else {
        k
    })
    &&& forall|i: int| 0 <= i < r.len() ==> scores(#[trigger] r[i], s, near)
    &&& forall|i: int, j: int| 0 <= i < j < r.len() ==> (#[trigger] r[i]).id@ != (#[trigger] r[j]).id@
    &&& sort::in_order(r)
    &&& forall|id: Seq<char>, i: int|
        #![trigger near.contains_key(id), r[i]]
        near.contains_key(id) && 0 <= i < r.len() && (forall|j: int|
            0 <= j < r.len() ==> (#[trigger] r[j]).id@ != id) ==> r[i].distance.rank()
            <= near[id].rank()
}

/// The numbers of an optional bitmap.
pub open spec fn members_opt(b: Option<RoaringBitmap>) -> Option<Set<u32>> {
    match b {
        Some(b) => Some(bitmap::members(b)),
        None => None,
    }
}

/// Sorting keeps records apart.
proof fn lemma_sorted_apart(a: Seq<ScoredPoint>, b: Seq<ScoredPoint>)
    requires
        a.to_multiset() == b.to_multiset(),
        forall|i: int, j: int| 0 <= i < j < a.len() ==> (#[trigger] a[i]).id@ != (#[trigger] a[j]).id@,
    ensures
        forall|i: int, j: int| 0 <= i < j < b.len() ==> (#[trigger] b[i]).id@ != (#[trigger] b[j]).id@,
        forall|i: int| 0 <= i < b.len() ==> a.contains(#[trigger] b[i]),
        forall|i: int| 0 <= i < a.len() ==> b.contains(#[trigger] a[i]),
{
    assert(a.no_duplicates()) by {
        assert forall|i: int, j: int| 0 <= i < a.len() && 0 <= j < a.len() && i != j implies a[i] != a[j] by {
            if i < j {
                assert(a[i].id@ != a[j].id@);
            } else {
                assert(a[j].id@ != a[i].id@);
            }
        }
    }
    sort::lemma_same_members(a, b);
    assert forall|i: int, j: int| 0 <= i < j < b.len() implies (#[trigger] b[i]).id@ != (
    #[trigger] b[j]).id@ by {
        assert(b[i] != b[j]);
        assert(a.contains(b[i]) && a.contains(b[j]));
        let p = choose|p: int| 0 <= p < a.len() && a[p] == b[i];
        let q = choose|q: int| 0 <= q < a.len() && a[q] == b[j];
        assert(p != q);
        if p < q {
            assert(a[p].id@ != a[q].id@);
        } else {
            assert(a[q].id@ != a[p].id@);
        }
    }
}

impl Collection {
    /// Results for the given distances, in no order.
    fn build_scored(&self, near: &IdMap<F32>) -> (r: Vec<ScoredPoint>)
        requires
            self.wf(),
            near.wf(),
        ensures
            r@.len() == near@.dom().len(),
            forall|i: int| 0 <= i < r@.len() ==> scores(#[trigger] r@[i], self@, near@),
            forall|i: int, j: int|
                0 <= i < j < r@.len() ==> (#[trigger] r@[i]).id@ != (#[trigger] r@[j]).id@,
            forall|id: Seq<char>|
                #[trigger] near@.contains_key(id) ==> exists|i: int|
                    0 <= i < r@.len() && (#[trigger] r@[i]).id@ == id,
    {
        let n: usize = near.len();
        let entries: &Vec<(String, F32)> = near.entries();
        proof {
            idmap::lemma_count(entries@);
        }
        let mut out: Vec<ScoredPoint> = Vec::new();
        let mut i: usize = 0;
        while i < entries.len()
            invariant
                i <= entries.len(),
                self.wf(),
                idmap::names_distinct(entries@),
                near@ == idmap::map_of(entries@),
                out@.len() == i,
                forall|j: int| 0 <= j < i ==> scores(#[trigger] out@[j], self@, near@),
                forall|j: int| 0 <= j < i ==> (#[trigger] out@[j]).id@ == entries@[j].0@,
            decreases entries.len() - i,
        {
            let id: &str = entries[i].0.as_str();
            let distance: F32 = entries[i].1;
            proof {
                idmap::lemma_named_entry(entries@, i as int);
                assert(near@.contains_key(id@) && near@[id@] == distance);
                assert(self@.records.contains_key(id@) == self.records@.contains_key(id@));
            }
            let (metadata, document): (Option<Metadata>, Option<Document>) = match self.records.get(id) {
                Some(record) => {
                    assert(self@.records[id@] == record@);
                    (clone_meta(&record.metadata), clone_text(&record.document))
                },
                None => (None, None),
            };
            out.push(ScoredPoint { id: id.to_owned(), distance, metadata, document });
            i += 1;
        }
        proof {
            assert forall|a: int, b: int| 0 <= a < b < out@.len() implies (#[trigger] out@[a]).id@ != (
            #[trigger] out@[b]).id@ by {
                assert(entries@[a].0@ == out@[a].id@ && entries@[b].0@ == out@[b].id@);
            }
            assert forall|id: Seq<char>| #[trigger] near@.contains_key(id) implies exists|i: int|
                0 <= i < out@.len() && (#[trigger] out@[i]).id@ == id by {
                assert(idmap::named(entries@, id));
                let j = idmap::spot(entries@, id);
                assert(entries@[j].0@ == id);
                assert(out@[j].id@ == id);
            }
        }
        out
    }

    /// Ranks the outcome of a search: the distances of the scanned vectors, in
    /// the order of the scan, and the hits of the graph by label.
    #[verifier::rlimit(40)]
    pub fn rank(&self, plan: &QueryPlan, distances: &Vec<F32>, hits: &Vec<(u64, F32)>) -> (r: Vec<
        ScoredPoint,
    >)
        requires
            self.wf(),
            plan.scan.wf(),
            distances@.len() == plan.scan.listed().len(),
        ensures
            nearest(
                r@,
                self@,
                merged(
                    self@,
                    members_opt(plan.eligible),
                    scanned(plan.scan.listed(), distances@),
                    index::resolved(self@.labels.labels, hits@),
                ),
                plan.k as nat,
            ),
    {
        let ghost eligible = members_opt(plan.eligible);
        let entries: &Vec<(String, Embedding)> = plan.scan.entries();
        let mut near: IdMap<F32> = IdMap::new();
        let mut i: usize = 0;
        assert(near@ =~= scanned(entries@.take(0), distances@));
        while i < entries.len()
            invariant
                i <= entries.len(),
                idmap::names_distinct(entries@),
                distances@.len() == entries@.len(),
                near.wf(),
                near@ == scanned(entries@.take(i as int), distances@),
            decreases entries.len() - i,
        {
            let ghost before = near@;
            near.insert(entries[i].0.clone(), distances[i]);
            proof {
                lemma_scanned_next(entries@, distances@, i as int);
            }
            i += 1;
        }
        assert(entries@.take(entries@.len() as int) =~= entries@);
        let ghost first = near@;
        let owned: Vec<index::IndexHit> = self.labels.resolve(hits);
        let ghost all = index::hit_views(owned@);
        let mut j: usize = 0;
        assert(all.take(0) =~= Seq::<(Seq<char>, F32)>::empty());
        while j < owned.len()
            invariant
                j <= owned.len(),
                self.wf(),
                near.wf(),
                eligible == members_opt(plan.eligible),
                all == index::hit_views(owned@),
                near@ == merged(self@, eligible, first, all.take(j as int)),
            decreases owned.len() - j,
        {
            proof {
                assert(all.take(j + 1).drop_last() =~= all.take(j as int));
                assert(all.take(j + 1).last() == all[j as int]);
            }
            let id: &str = owned[j].id.as_str();
            let may: bool = match &plan.eligible {
                None => true,
                Some(b) => match self.offsets.get(id) {
                    Some(o) => b.contains(*o),
                    None => false,
                },
            };
            if may && !near.contains_key(id) {
                near.insert(id.to_owned(), owned[j].distance);
            }
            j += 1;
        }
        assert(all.take(owned@.len() as int) =~= all);
        let points: Vec<ScoredPoint> = self.build_scored(&near);
        let ghost loose = points@;
        let mut out: Vec<ScoredPoint> = sorted(points);
        let ghost order = out@;
        proof {
            lemma_sorted_apart(loose, order);
        }
        if out.len() > plan.k {
            out.truncate(plan.k);
        }
        proof {
            assert(out@ =~= order.take(out@.len() as int));
            assert forall|i: int| 0 <= i < out@.len() implies scores(#[trigger] out@[i], self@, near@) by {
                assert(out@[i] == order[i]);
                assert(loose.contains(order[i]));
            }
            assert forall|i: int, j: int| 0 <= i < j < out@.len() implies (#[trigger] out@[i]).id@ != (
            #[trigger] out@[j]).id@ by {
                assert(out@[i] == order[i] && out@[j] == order[j]);
            }
            assert forall|i: int, j: int| 0 <= i < j < out@.len() implies (#[trigger] out@[i]).before(
                #[trigger] out@[j],
            ) by {
                assert(out@[i] == order[i] && out@[j] == order[j]);
            }
            assert forall|id: Seq<char>, i: int|
                #![trigger near@.contains_key(id), out@[i]]
                near@.contains_key(id) && 0 <= i < out@.len() && (forall|j: int|
                    0 <= j < out@.len() ==> (#[trigger] out@[j]).id@ != id) implies out@[i].distance.rank()
                <= near@[id].rank() by {
                let a = choose|a: int| 0 <= a < loose.len() && (#[trigger] loose[a]).id@ == id;
                assert(scores(loose[a], self@, near@));
                assert(order.contains(loose[a]));
                let b = choose|b: int| 0 <= b < order.len() && order[b] == loose[a];
                if b < out@.len() {
                    assert(out@[b].id@ == id);
                }
                assert(out@[i] == order[i]);
                assert(order[i].before(order[b]));
            }
        }
        out
    }
}

proof fn lemma_scanned_next(entries: Seq<(String, Embedding)>, distances: Seq<F32>, i: int)
    requires
        0 <= i < entries.len(),
        distances.len() == entries.len(),
        idmap::names_distinct(entries),
    ensures
        scanned(entries.take(i + 1), distances) == scanned(entries.take(i), distances).insert(
            entries[i].0@,
            distances[i],
        ),
{
    let a = entries.take(i);
    let b = entries.take(i + 1);
    assert forall|id: Seq<char>| idmap::named(b, id) == (idmap::named(a, id) || id == entries[i].0@) by {
        if idmap::named(b, id) {
            let j = idmap::spot(b, id);
            if j < i {
                assert(a[j].0@ == id);
            }
        }
        if idmap::named(a, id) {
            let j = idmap::spot(a, id);
            assert(b[j].0@ == id);
        }
        if id == entries[i].0@ {
            assert(b[i].0@ == id);
        }
    }
    let left = scanned(b, distances);
    let right = scanned(a, distances).insert(entries[i].0@, distances[i]);
    assert forall|id: Seq<char>| left.contains_key(id) implies left[id] == right[id] by {
        let j = idmap::spot(b, id);
        assert(b[j].0@ == id && entries[j].0@ == id);
        if id == entries[i].0@ {
            assert(j == i);
        } else {
            let k = idmap::spot(a, id);
            assert(a[k].0@ == id && entries[k].0@ == id);
            assert(j == k);
        }
    }
    assert(left =~= right);
}

// ---------------------------------------------------------------------------
// Laws
// ---------------------------------------------------------------------------

/// The postings find a record for a filter just when it has an offset and its
/// metadata matches.
pub proof fn postings_find_what_matches(s: CollectionState, c: CondView, id: Seq<char>)
    requires
        collection::sound(s),
    ensures
        posted(s, c, id) <==> s.offsets.contains_key(id) && matching(s, c, id),
{
    if s.offsets.contains_key(id) {
        let o = s.offsets[id];
        let store = collection::store_of(s.records, s.offsets);
        assert(s.records.contains_key(id));
        assert(collection::offsets_distinct(s.offsets));
        collection::lemma_at_offset(s.offsets, id);
        assert(store.contains_key(o) && store[o] == s.records[id].metadata);
        postings::evaluation_agrees_with_matching(s.postings, store, c, o);
    }
}

/// A scan that replaces the graph walk is exact: without a filter it compares
/// every record that has a vector, with one every such record that matches.
pub proof fn small_searches_are_exact(
    s: CollectionState,
    file: Seq<Seq<u32>>,
    c: Option<CondView>,
    id: Seq<char>,
)
    requires
        collection::sound(s),
        match c {
            None => scans_all(s),
            Some(c) => scans_eligible(s, c),
        },
    ensures
        scan_of(s, file, c).contains_key(id) <==> vector_of(s, file, id) is Some && (c matches Some(c)
            ==> matching(s, c, id)),
        scan_of(s, file, c).contains_key(id) ==> Some(scan_of(s, file, c)[id]) == vector_of(s, file, id),
        forall|k: nat, ef: nat, oversampling: nat|
            #[trigger] walk_of(s, c, k, ef, oversampling) is None,
{
    match c {
        Some(c) => {
            postings_find_what_matches(s, c, id);
            if vector_of(s, file, id) is Some && !s.offsets.contains_key(id) {
                assert(s.records.contains_key(id));
                assert(false);
            }
        },
        None => {},
    }
}

/// A record that waits for the graph index is compared by every search that it
/// is eligible for: it cannot be missed.
pub proof fn buffered_records_are_compared(
    s: CollectionState,
    file: Seq<Seq<u32>>,
    c: Option<CondView>,
    id: Seq<char>,
)
    requires
        collection::sound(s),
        is_buffered(s, id),
        c matches Some(c) ==> matching(s, c, id),
    ensures
        scan_of(s, file, c).contains_key(id),
{
    let i = choose|i: int| 0 <= i < s.buffer.len() && (#[trigger] s.buffer[i]).0 == id;
    assert(collection::waiting(s.buffer[i], s.records));
}

/// Filters decide which records are eligible: whatever the graph hits are, a
/// filtered search has results of matching records only.
pub proof fn filtered_results_match(
    p: QueryPlan,
    s: CollectionState,
    file: Seq<Seq<u32>>,
    c: CondView,
    k: nat,
    ef: nat,
    oversampling: nat,
    distances: Seq<F32>,
    hits: Seq<(Seq<char>, F32)>,
    id: Seq<char>,
)
    requires
        collection::sound(s),
        plans(p, s, file, Some(c), k, ef, oversampling),
        merged(s, members_opt(p.eligible), scanned(p.scan.listed(), distances), hits).contains_key(id),
    ensures
        matching(s, c, id),
    decreases hits.len(),
{
    postings_find_what_matches(s, c, id);
    if hits.len() == 0 {
        p.scan.lemma_listed();
        assert(p.scan@.contains_key(id));
        assert(vectors(p.scan@).contains_key(id));
        assert(scan_of(s, file, Some(c)).contains_key(id));
    } else {
        let (last, d) = hits.last();
        let done = merged(
            s,
            members_opt(p.eligible),
            scanned(p.scan.listed(), distances),
            hits.drop_last(),
        );
        if done.contains_key(id) {
            filtered_results_match(
                p,
                s,
                file,
                c,
                k,
                ef,
                oversampling,
                distances,
                hits.drop_last(),
                id,
            );
        } else {
            assert(id == last);
            assert(found(s, c).contains(s.offsets[id]));
        }
    }
}

/// A record that is not live is no result of a search.
pub proof fn results_are_live(
    p: QueryPlan,
    s: CollectionState,
    file: Seq<Seq<u32>>,
    c: Option<CondView>,
    k: nat,
    ef: nat,
    oversampling: nat,
    distances: Seq<F32>,
    hits: Seq<(u64, F32)>,
    id: Seq<char>,
)
    requires
        collection::sound(s),
        plans(p, s, file, c, k, ef, oversampling),
        merged(
            s,
            members_opt(p.eligible),
            scanned(p.scan.listed(), distances),
            index::resolved(s.labels.labels, hits),
        ).contains_key(id),
    ensures
        s.records.contains_key(id),
    decreases hits.len(),
{
    let near = scanned(p.scan.listed(), distances);
    let e = members_opt(p.eligible);
    if hits.len() == 0 {
        p.scan.lemma_listed();
        assert(p.scan@.contains_key(id));
        assert(vectors(p.scan@).contains_key(id));
        assert(scan_of(s, file, c).contains_key(id));
    } else {
        let (label, d) = hits.last();
        let done = index::resolved(s.labels.labels, hits.drop_last());
        if merged(s, e, near, done).contains_key(id) {
            results_are_live(
                p,
                s,
                file,
                c,
                k,
                ef,
                oversampling,
                distances,
                hits.drop_last(),
                id,
            );
        } else {
            assert(index::has_owner(s.labels.labels, label));
            let all = done.push((index::owner(s.labels.labels, label), d));
            assert(all.drop_last() =~= done);
            assert(id == index::owner(s.labels.labels, label));
        }
    }
}

/// Whether a distance is a number.
pub open spec fn is_number(d: F32) -> bool {
    d.bits % 0x8000_0000 <= 0x7F80_0000
}

/// The results of a search are the nearest: as many as asked for or as there
/// are, the nearer before the farther by the value of their distances, negative
/// ones first, and no record that is left out is nearer than one that is in.
/// Each has the distance, the metadata and the document of its own record.
pub proof fn nearer_records_come_first(
    r: Seq<ScoredPoint>,
    s: CollectionState,
    near: Map<Seq<char>, F32>,
    k: nat,
)
    requires
        nearest(r, s, near, k),
        forall|id: Seq<char>| #[trigger] near.contains_key(id) ==> is_number(near[id]),
    ensures
        r.len() <= k && r.len() <= near.dom().len(),
        r.len() == k || r.len() == near.dom().len(),
        forall|i: int, j: int|
            0 <= i < j < r.len() ==> num::single_units((#[trigger] r[i]).distance) <= num::single_units(
                (#[trigger] r[j]).distance,
            ) && r[i].id@ != r[j].id@,
        forall|i: int|
            0 <= i < r.len() ==> near.contains_key((#[trigger] r[i]).id@) && r[i].distance
                == near[r[i].id@],
        forall|i: int|
            0 <= i < r.len() && s.records.contains_key((#[trigger] r[i]).id@) ==> types::meta_opt(
                r[i].metadata,
            ) == s.records[r[i].id@].metadata && types::text_opt(r[i].document)
                == s.records[r[i].id@].document,
        forall|id: Seq<char>, i: int|
            #![trigger near.contains_key(id), r[i]]
            near.contains_key(id) && 0 <= i < r.len() && (forall|j: int|
                0 <= j < r.len() ==> (#[trigger] r[j]).id@ != id) ==> num::single_units(r[i].distance)
                <= num::single_units(near[id]),
{
    assert forall|i: int| 0 <= i < r.len() implies near.contains_key((#[trigger] r[i]).id@)
        && r[i].distance == near[r[i].id@] by {
        assert(scores(r[i], s, near));
    }
    assert forall|i: int, j: int| 0 <= i < j < r.len() implies num::single_units(
        (#[trigger] r[i]).distance,
    ) <= num::single_units((#[trigger] r[j]).distance) by {
        assert(r[i].before(r[j]));
        num::singles_rank_by_value(r[j].distance, r[i].distance);
    }
    assert forall|id: Seq<char>, i: int|
        #![trigger near.contains_key(id), r[i]]
        near.contains_key(id) && 0 <= i < r.len() && (forall|j: int|
            0 <= j < r.len() ==> (#[trigger] r[j]).id@ != id) implies num::single_units(r[i].distance)
        <= num::single_units(near[id]) by {
        num::singles_rank_by_value(near[id], r[i].distance);
    }
    assert forall|i: int|
        0 <= i < r.len() && s.records.contains_key((#[trigger] r[i]).id@) implies types::meta_opt(
        r[i].metadata,
    ) == s.records[r[i].id@].metadata && types::text_opt(r[i].document)
        == s.records[r[i].id@].document by {
        assert(scores(r[i], s, near));
    }
}

/// A distance that is no number stands behind every one that is.
pub proof fn numbers_come_first(r: Seq<ScoredPoint>, s: CollectionState, near: Map<Seq<char>, F32>, k: nat)
    requires
        nearest(r, s, near, k),
    ensures
        forall|i: int, j: int|
            0 <= i < j < r.len() && is_number((#[trigger] r[j]).distance) ==> is_number(
                (#[trigger] r[i]).distance,
            ),
{
    assert forall|i: int, j: int| 0 <= i < j < r.len() && is_number((#[trigger] r[j]).distance) implies is_number(
        (#[trigger] r[i]).distance,
    ) by {
        assert(r[i].before(r[j]));
        if !is_number(r[i].distance) {
            num::no_single_ranks_last(r[i].distance, r[j].distance);
        }
    }
}

/// Each record of a scan has the distance that was computed for it.
pub proof fn distances_go_with_their_records(
    entries: Seq<(String, Embedding)>,
    distances: Seq<F32>,
    i: int,
)
    requires
        idmap::names_distinct(entries),
        distances.len() == entries.len(),
        0 <= i < entries.len(),
    ensures
        scanned(entries, distances).contains_key(entries[i].0@),
        scanned(entries, distances)[entries[i].0@] == distances[i],
        forall|id: Seq<char>| #[trigger]
            scanned(entries, distances).contains_key(id) ==> exists|j: int|
                0 <= j < entries.len() && (#[trigger] entries[j]).0@ == id,
{
    let id = entries[i].0@;
    assert(idmap::named(entries, id));
    let j = idmap::spot(entries, id);
    assert(entries[j].0@ == id);
}

/// The distance that was computed for a record wins over that of a hit of the
/// graph; of the hits an earlier one wins; and all admitted hits count.
pub proof fn merging_keeps_what_was_computed(
    s: CollectionState,
    eligible: Option<Set<u32>>,
    near: Map<Seq<char>, F32>,
    hits: Seq<(Seq<char>, F32)>,
    id: Seq<char>,
)
    ensures
        ({
            let all = merged(s, eligible, near, hits);
            &&& near.contains_key(id) ==> all.contains_key(id) && all[id] == near[id]
            &&& all.contains_key(id) && !near.contains_key(id) ==> exists|i: int|
                0 <= i < hits.len() && (#[trigger] hits[i]) == (id, all[id]) && forall|j: int|
                    0 <= j < i ==> (#[trigger] hits[j]).0 != id
            &&& forall|i: int|
                0 <= i < hits.len() && (#[trigger] hits[i]).0 == id && (eligible is None || (
                s.offsets.contains_key(id) && eligible->0.contains(s.offsets[id]))) ==> all.contains_key(id)
            &&& all.contains_key(id) && !near.contains_key(id) && eligible is Some ==> s.offsets.contains_key(
                id,
            ) && eligible->0.contains(s.offsets[id])
        }),
    decreases hits.len(),
{
    if hits.len() > 0 {
        let rest = hits.drop_last();
        merging_keeps_what_was_computed(s, eligible, near, rest, id);
        let done = merged(s, eligible, near, rest);
        let all = merged(s, eligible, near, hits);
        let last = hits.len() - 1;
        assert forall|j: int| 0 <= j < rest.len() implies #[trigger] rest[j] == hits[j] by {}
        if all.contains_key(id) && !near.contains_key(id) {
            if done.contains_key(id) {
                let i = choose|i: int|
                    0 <= i < rest.len() && (#[trigger] rest[i]) == (id, done[id]) && forall|j: int|
                        0 <= j < i ==> (#[trigger] rest[j]).0 != id;
                assert(hits[i] == (id, all[id]));
                assert forall|j: int| 0 <= j < i implies (#[trigger] hits[j]).0 != id by {
                    assert(rest[j].0 != id);
                }
            } else {
                assert(hits[last] == (id, all[id]));
                assert forall|j: int| 0 <= j < last implies (#[trigger] hits[j]).0 != id by {
                    assert(rest[j] == hits[j]);
                }
            }
        }
        assert forall|i: int|
            0 <= i < hits.len() && (#[trigger] hits[i]).0 == id && (eligible is None || (
            s.offsets.contains_key(id) && eligible->0.contains(s.offsets[id]))) implies all.contains_key(id) by {
            if i < last {
                assert(rest[i].0 == id);
            }
        }
    }
}

/// A search fetches at least as many hits as it wants, with a filter as many
/// times as many as it is told; it walks as wide as it is told, and by the
/// collection's setting where it is told nothing.
pub proof fn walks_fetch_enough(s: CollectionState, c: Option<CondView>, k: nat, ef: nat, oversampling: nat)
    requires
        1 <= k <= usize::MAX,
        ef <= usize::MAX,
    ensures
        walk_of(s, c, k, ef, oversampling) matches Some(g) ==> {
            &&& g.fetch >= k
            &&& c is None ==> g.fetch == k
            &&& c is Some && oversampling > 0 && k * oversampling <= usize::MAX ==> g.fetch == k
                * oversampling
            &&& ef > 0 ==> g.ef == ef
            &&& ef == 0 ==> g.ef == s.config.hnsw.ef_search
        },
        walk_of(s, None, k, ef, oversampling) is None <==> s.labels.labels.dom().len() + s.buffer.len()
            <= s.config.hnsw.max_scan,
{
    if oversampling > 0 {
        assert(k * oversampling >= k) by (nonlinear_arith)
            requires
                k >= 1,
                oversampling >= 1,
        ;
    }
}

/// A search for no records is one for the nearest.
pub proof fn one_record_at_least(k: nat)
    ensures
        wanted(k) >= 1,
        k >= 1 ==> wanted(k) == k,
        wanted(0) == 1,
{
}

/// The vector in memory counts before the one on file, and a record that is not
/// live has none.
pub proof fn memory_counts_before_the_file(s: CollectionState, file: Seq<Seq<u32>>, id: Seq<char>)
    ensures
        s.records.contains_key(id) && s.records[id].embedding is Some ==> vector_of(s, file, id)
            == s.records[id].embedding,
        !s.records.contains_key(id) ==> vector_of(s, file, id) is None,
        vector_of(s, file, id) is Some && s.records[id].embedding is None ==> s.stored.contains_key(id)
            && s.stored[id] < file.len() && vector_of(s, file, id) == Some(file[s.stored[id] as int]),
        s.records.contains_key(id) && s.stored.contains_key(id) && s.stored[id] < file.len() ==> vector_of(
            s,
            file,
            id,
        ) is Some,
{
    if vector_of(s, file, id) is Some && s.records[id].embedding is None {
        assert(file[s.stored[id] as int] == vector_of(s, file, id)->0);
    }
}

/// A search with a filter compares and admits what matches it: a live record
/// without metadata as one that has no names.
pub proof fn eligibility_is_matching(s: CollectionState, c: CondView, id: Seq<char>)
    ensures
        matching(s, c, id) ==> s.records.contains_key(id),
        s.records.contains_key(id) && s.records[id].metadata is Some ==> (matching(s, c, id)
            <==> filter::cond_matches(c, s.records[id].metadata->0)),
        s.records.contains_key(id) && s.records[id].metadata is None ==> (matching(s, c, id)
            <==> filter::cond_matches(c, Map::empty())),
{
}

} // verus!
