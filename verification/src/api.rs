//! Requests and responses of the HTTP interface: limits, checks, and the shape
//! of results.

use vstd::prelude::*;
use vstd::string::*;
use vstd::utf8::*;

use subtle::ConstantTimeEq;

use crate::collection::query::ScoredPoint;
use crate::collection::validate;
use crate::collection::{clone_vector, Record};
use crate::config::CollectionConfig;
use crate::error::{EngineError, EngineErrorView, EngineResult, Invalid, InvalidView, Part};
use crate::filter::WhereFilter;
use crate::ids;
use crate::ids::{read_id, CollectionId};
use crate::num::{F32, INFINITY_32};
use crate::text;
use crate::text::same_text;
use crate::types;
use crate::types::{clone_meta, clone_text, Distance, Document, Embedding, Id, MetaView, Metadata};

verus! {

/// Most records of one write.
pub const MAX_BATCH_SIZE: usize = 10_000;

/// Most query vectors of one search.
pub const MAX_QUERY_EMBEDDINGS: usize = 100;

/// Most results per query vector.
pub const MAX_N_RESULTS: usize = 1_000;

/// Longest id, in bytes.
pub const MAX_ID_LENGTH: usize = 512;

/// Longest collection name, in bytes.
pub const MAX_NAME_LENGTH: usize = 512;

/// Most components of a vector.
pub const MAX_DIMENSION: usize = 65_536;

// ---------------------------------------------------------------------------
// Requests and responses
// ---------------------------------------------------------------------------

/// A request for a new collection.
#[derive(Debug)]
pub struct CreateCollectionRequest {
    pub name: String,
    pub dimension: usize,
    pub distance: Distance,
}

/// A collection as it is shown.
#[derive(Debug, PartialEq)]
pub struct CollectionResponse {
    pub id: CollectionId,
    pub name: String,
    pub dimension: usize,
    pub distance: Distance,
    pub count: u64,
}

/// A request to add records.
#[derive(Debug)]
pub struct AddRequest {
    pub ids: Vec<Id>,
    pub embeddings: Vec<Embedding>,
    pub metadatas: Option<Vec<Option<Metadata>>>,
    pub documents: Option<Vec<Option<Document>>>,
}

/// A request to change the metadata and documents of records.
#[derive(Debug)]
pub struct UpdateRequest {
    pub ids: Vec<Id>,
    pub metadatas: Option<Vec<Option<Metadata>>>,
    pub documents: Option<Vec<Option<Document>>>,
}

/// A request to insert or replace records.
#[derive(Debug)]
pub struct UpsertRequest {
    pub ids: Vec<Id>,
    pub embeddings: Vec<Embedding>,
    pub metadatas: Option<Vec<Option<Metadata>>>,
    pub documents: Option<Vec<Option<Document>>>,
}

/// A request to delete records.
#[derive(Debug)]
pub struct DeleteRequest {
    pub ids: Vec<Id>,
}

/// A request for the nearest records to some vectors.
#[derive(Debug)]
pub struct QueryRequest {
    pub query_embeddings: Vec<Embedding>,
    pub n_results: usize,
    pub where_filter: Option<WhereFilter>,
    pub included: Vec<String>,
}

/// The results of a search, one list per query vector.
#[derive(Debug)]
pub struct QueryResponse {
    pub ids: Vec<Vec<String>>,
    pub distances: Option<Vec<Vec<F32>>>,
    pub metadatas: Option<Vec<Vec<Option<Metadata>>>>,
    pub documents: Option<Vec<Vec<Option<String>>>>,
}

/// A request for records by id.
#[derive(Debug)]
pub struct GetRequest {
    pub ids: Option<Vec<Id>>,
    pub where_filter: Option<WhereFilter>,
    pub included: Vec<String>,
}

/// Records by id.
#[derive(Debug)]
pub struct GetResponse {
    pub ids: Vec<String>,
    pub embeddings: Option<Vec<Embedding>>,
    pub metadatas: Option<Vec<Option<Metadata>>>,
    pub documents: Option<Vec<Option<String>>>,
}

/// The number of records of a collection.
#[derive(Debug, Clone, Copy, PartialEq, Eq, Structural)]
pub struct CountResponse {
    pub count: u64,
}

/// The distance space of a collection that names none.
pub fn default_distance() -> (d: Distance)
    ensures
        d == Distance::L2,
{
    Distance::L2
}

/// The number of results of a search that names none.
pub fn default_k() -> (k: usize)
    ensures
        k == 10,
{
    10
}

/// A collection as it is shown.
pub fn collection_response(config: &CollectionConfig, count: u64) -> (r: CollectionResponse)
    ensures
        r.id == config@.id,
        r.name@ == config@.name,
        r.dimension == config@.dimension,
        r.distance == config@.space,
        r.count == count,
{
    CollectionResponse {
        id: config.id,
        name: config.name.clone(),
        dimension: config.dimension,
        distance: config.space,
        count,
    }
}

// ---------------------------------------------------------------------------
// Checks
// ---------------------------------------------------------------------------

/// Whether a check ended as it should: in order, or with the given refusal.
pub open spec fn checked(r: EngineResult<()>, verdict: Option<InvalidView>) -> bool {
    match verdict {
        None => r is Ok,
        Some(v) => r matches Err(e) && e@ == EngineErrorView::Validation(v),
    }
}

fn refuse(v: Invalid) -> (r: EngineResult<()>)
    ensures
        checked(r, Some(v@)),
{
    Err(EngineError::Validation(v))
}

/// The length of a text in bytes.
pub open spec fn byte_len(s: Seq<char>) -> usize {
    encode_utf8(s).len() as usize
}

/// What is wrong with a collection name, if anything is.
pub open spec fn name_verdict(name: Seq<char>) -> Option<InvalidView> {
    if name.len() == 0 {
        Some(InvalidView::EmptyName)
    } else if byte_len(name) > MAX_NAME_LENGTH {
        Some(InvalidView::NameTooLong)
    } else {
        None
    }
}

/// Checks a collection name.
pub fn validate_name(name: &str) -> (r: EngineResult<()>)
    ensures
        checked(r, name_verdict(name@)),
{
    if name.is_empty() {
        return refuse(Invalid::EmptyName);
    }
    if name.len() > MAX_NAME_LENGTH {
        return refuse(Invalid::NameTooLong);
    }
    Ok(())
}

/// What is wrong with a request for a new collection, if anything is.
pub open spec fn create_verdict(name: Seq<char>, dimension: usize) -> Option<InvalidView> {
    if name_verdict(name) is Some {
        name_verdict(name)
    } else if dimension > MAX_DIMENSION {
        Some(InvalidView::DimensionTooLarge { dimension })
    } else {
        None
    }
}

/// Checks the name and dimension of a new collection.
pub fn validate_create(name: &str, dimension: usize) -> (r: EngineResult<()>)
    ensures
        checked(r, create_verdict(name@, dimension)),
{
    let n: EngineResult<()> = validate_name(name);
    if n.is_err() {
        return n;
    }
    if dimension > MAX_DIMENSION {
        return refuse(Invalid::DimensionTooLarge { dimension });
    }
    Ok(())
}

/// What is wrong with one id, if anything is.
pub open spec fn id_verdict(id: Seq<char>) -> Option<InvalidView> {
    if id.len() == 0 {
        Some(InvalidView::EmptyId)
    } else if byte_len(id) > MAX_ID_LENGTH {
        Some(InvalidView::IdTooLong { id })
    } else {
        None
    }
}

/// The first thing that is wrong with some ids.
pub open spec fn first_bad_id(ids: Seq<Seq<char>>) -> Option<InvalidView>
    decreases ids.len(),
{
    if ids.len() == 0 {
        None
    } else {
        match first_bad_id(ids.drop_last()) {
            Some(v) => Some(v),
            None => id_verdict(ids.last()),
        }
    }
}

/// What is wrong with the ids of a request, if anything is.
pub open spec fn ids_verdict(ids: Seq<Seq<char>>) -> Option<InvalidView> {
    if ids.len() == 0 {
        Some(InvalidView::EmptyIds)
    } else if ids.len() > MAX_BATCH_SIZE {
        Some(InvalidView::BatchTooLarge { len: ids.len() as usize })
    } else {
        first_bad_id(ids)
    }
}

proof fn lemma_bad_id_stays(ids: Seq<Seq<char>>, n: int)
    requires
        0 <= n <= ids.len(),
        first_bad_id(ids.take(n)) is Some,
    ensures
        first_bad_id(ids) == first_bad_id(ids.take(n)),
    decreases ids.len(),
{
    if n == ids.len() {
        assert(ids.take(n) =~= ids);
    } else {
        assert(ids.drop_last().take(n) =~= ids.take(n));
        lemma_bad_id_stays(ids.drop_last(), n);
    }
}

/// Checks the ids of a request.
#[verifier::loop_isolation(false)]
pub fn validate_ids(ids: &Vec<Id>) -> (r: EngineResult<()>)
    ensures
        checked(r, ids_verdict(text::views(ids@))),
{
    if ids.len() == 0 {
        return refuse(Invalid::EmptyIds);
    }
    if ids.len() > MAX_BATCH_SIZE {
        return refuse(Invalid::BatchTooLarge { len: ids.len() });
    }
    let ghost all = text::views(ids@);
    let mut i: usize = 0;
    while i < ids.len()
        invariant
            i <= ids.len(),
            first_bad_id(all.take(i as int)) is None,
        decreases ids.len() - i,
    {
        proof {
            assert(all.take(i + 1).drop_last() =~= all.take(i as int));
            assert(all.take(i + 1).last() == all[i as int]);
            if id_verdict(all[i as int]) is Some {
                lemma_bad_id_stays(all, i + 1);
            }
        }
        let id: &str = ids[i].as_str();
        if id.is_empty() {
            return refuse(Invalid::EmptyId);
        }
        if id.len() > MAX_ID_LENGTH {
            return refuse(Invalid::IdTooLong { id: ids[i].clone() });
        }
        i += 1;
    }
    assert(all.take(ids@.len() as int) =~= all);
    Ok(())
}

/// The first thing that is wrong with the lengths of some vectors.
pub open spec fn first_bad_length(
    lengths: Seq<nat>,
    empty: InvalidView,
    long: spec_fn(usize) -> InvalidView,
) -> Option<InvalidView>
    decreases lengths.len(),
{
    if lengths.len() == 0 {
        None
    } else {
        match first_bad_length(lengths.drop_last(), empty, long) {
            Some(v) => Some(v),
            None => if lengths.last() == 0 {
                Some(empty)
            } else if lengths.last() > MAX_DIMENSION {
                Some(long(lengths.last() as usize))
            } else {
                None
            },
        }
    }
}

/// The refusal of a vector that is too long.
pub open spec fn too_long() -> spec_fn(usize) -> InvalidView {
    |len: usize| InvalidView::EmbeddingTooLong { len }
}

/// The refusal of a query vector that is too long.
pub open spec fn query_too_long() -> spec_fn(usize) -> InvalidView {
    |len: usize| InvalidView::QueryTooLong { len }
}

proof fn lemma_bad_length_stays(
    lengths: Seq<nat>,
    n: int,
    empty: InvalidView,
    long: spec_fn(usize) -> InvalidView,
)
    requires
        0 <= n <= lengths.len(),
        first_bad_length(lengths.take(n), empty, long) is Some,
    ensures
        first_bad_length(lengths, empty, long) == first_bad_length(lengths.take(n), empty, long),
    decreases lengths.len(),
{
    if n == lengths.len() {
        assert(lengths.take(n) =~= lengths);
    } else {
        assert(lengths.drop_last().take(n) =~= lengths.take(n));
        lemma_bad_length_stays(lengths.drop_last(), n, empty, long);
    }
}

/// What is wrong with the vectors of a write, if anything is.
pub open spec fn embeddings_verdict(lengths: Seq<nat>) -> Option<InvalidView> {
    if lengths.len() == 0 {
        Some(InvalidView::EmptyEmbeddings)
    } else {
        first_bad_length(lengths, InvalidView::EmptyEmbedding, too_long())
    }
}

/// Checks the vectors of a write.
#[verifier::loop_isolation(false)]
pub fn validate_embeddings(embeddings: &Vec<Embedding>) -> (r: EngineResult<()>)
    ensures
        checked(r, embeddings_verdict(validate::lengths(embeddings@))),
{
    if embeddings.len() == 0 {
        return refuse(Invalid::EmptyEmbeddings);
    }
    let ghost all = validate::lengths(embeddings@);
    let ghost empty = InvalidView::EmptyEmbedding;
    let ghost long = too_long();
    let mut i: usize = 0;
    while i < embeddings.len()
        invariant
            i <= embeddings.len(),
            first_bad_length(all.take(i as int), empty, long) is None,
        decreases embeddings.len() - i,
    {
        proof {
            assert(all.take(i + 1).drop_last() =~= all.take(i as int));
            assert(all.take(i + 1).last() == all[i as int]);
            if all[i as int] == 0 || all[i as int] > MAX_DIMENSION {
                lemma_bad_length_stays(all, i + 1, empty, long);
            }
        }
        if embeddings[i].len() == 0 {
            return refuse(Invalid::EmptyEmbedding);
        }
        if embeddings[i].len() > MAX_DIMENSION {
            return refuse(Invalid::EmbeddingTooLong { len: embeddings[i].len() });
        }
        i += 1;
    }
    assert(all.take(embeddings@.len() as int) =~= all);
    Ok(())
}

/// What is wrong with the number of metadata or documents, if anything is.
pub open spec fn part_verdict(what: Part, list: Option<nat>, ids: nat) -> Option<InvalidView> {
    match list {
        Some(n) if n != ids => Some(
            InvalidView::PartIds { what, len: n as usize, ids: ids as usize },
        ),
        _ => None,
    }
}

fn check_part<T>(what: Part, list: &Option<Vec<T>>, ids: usize) -> (r: EngineResult<()>)
    ensures
        checked(r, part_verdict(what, validate::count_of(*list), ids as nat)),
{
    match list {
        Some(l) => {
            if l.len() != ids {
                refuse(Invalid::PartIds { what, len: l.len(), ids })
            } else {
                Ok(())
            }
        },
        None => Ok(()),
    }
}

/// What is wrong with the metadata and documents of a request, if anything is.
pub open spec fn parts_verdict(metadatas: Option<nat>, documents: Option<nat>, ids: nat) -> Option<
    InvalidView,
> {
    if part_verdict(Part::Metadatas, metadatas, ids) is Some {
        part_verdict(Part::Metadatas, metadatas, ids)
    } else {
        part_verdict(Part::Documents, documents, ids)
    }
}

/// Checks the number of metadata and documents of a request.
pub fn validate_parts<M, D>(
    metadatas: &Option<Vec<M>>,
    documents: &Option<Vec<D>>,
    ids: usize,
) -> (r: EngineResult<()>)
    ensures
        checked(
            r,
            parts_verdict(validate::count_of(*metadatas), validate::count_of(*documents), ids as nat),
        ),
{
    let m: EngineResult<()> = check_part(Part::Metadatas, metadatas, ids);
    if m.is_err() {
        return m;
    }
    check_part(Part::Documents, documents, ids)
}

/// What is wrong with a write of records with vectors, if anything is.
pub open spec fn write_verdict(
    ids: Seq<Seq<char>>,
    embeddings: Seq<nat>,
    metadatas: Option<nat>,
    documents: Option<nat>,
) -> Option<InvalidView> {
    if ids_verdict(ids) is Some {
        ids_verdict(ids)
    } else if embeddings_verdict(embeddings) is Some {
        embeddings_verdict(embeddings)
    } else if ids.len() != embeddings.len() {
        Some(
            InvalidView::IdsEmbeddings {
                ids: ids.len() as usize,
                embeddings: embeddings.len() as usize,
            },
        )
    } else {
        parts_verdict(metadatas, documents, ids.len())
    }
}

fn validate_write(
    ids: &Vec<Id>,
    embeddings: &Vec<Embedding>,
    metadatas: &Option<Vec<Option<Metadata>>>,
    documents: &Option<Vec<Option<Document>>>,
) -> (r: EngineResult<()>)
    ensures
        checked(
            r,
            write_verdict(
                text::views(ids@),
                validate::lengths(embeddings@),
                validate::count_of(*metadatas),
                validate::count_of(*documents),
            ),
        ),
{
    let a: EngineResult<()> = validate_ids(ids);
    if a.is_err() {
        return a;
    }
    let b: EngineResult<()> = validate_embeddings(embeddings);
    if b.is_err() {
        return b;
    }
    if ids.len() != embeddings.len() {
        return refuse(Invalid::IdsEmbeddings { ids: ids.len(), embeddings: embeddings.len() });
    }
    validate_parts(metadatas, documents, ids.len())
}

/// Checks a request to add records.
pub fn validate_add_request(req: &AddRequest) -> (r: EngineResult<()>)
    ensures
        checked(
            r,
            write_verdict(
                text::views(req.ids@),
                validate::lengths(req.embeddings@),
                validate::count_of(req.metadatas),
                validate::count_of(req.documents),
            ),
        ),
{
    validate_write(&req.ids, &req.embeddings, &req.metadatas, &req.documents)
}

/// Checks a request to insert or replace records.
pub fn validate_upsert_request(req: &UpsertRequest) -> (r: EngineResult<()>)
    ensures
        checked(
            r,
            write_verdict(
                text::views(req.ids@),
                validate::lengths(req.embeddings@),
                validate::count_of(req.metadatas),
                validate::count_of(req.documents),
            ),
        ),
{
    validate_write(&req.ids, &req.embeddings, &req.metadatas, &req.documents)
}

/// What is wrong with a search, if anything is.
pub open spec fn query_verdict(queries: Seq<nat>, n_results: usize) -> Option<InvalidView> {
    if queries.len() == 0 {
        Some(InvalidView::EmptyQueries)
    } else if queries.len() > MAX_QUERY_EMBEDDINGS {
        Some(InvalidView::TooManyQueries { len: queries.len() as usize })
    } else if n_results == 0 {
        Some(InvalidView::NoResults)
    } else if n_results > MAX_N_RESULTS {
        Some(InvalidView::TooManyResults { n: n_results })
    } else {
        first_bad_length(queries, InvalidView::EmptyQuery, query_too_long())
    }
}

/// Checks a search.
#[verifier::loop_isolation(false)]
pub fn validate_query_request(req: &QueryRequest) -> (r: EngineResult<()>)
    ensures
        checked(r, query_verdict(validate::lengths(req.query_embeddings@), req.n_results)),
{
    let queries: &Vec<Embedding> = &req.query_embeddings;
    if queries.len() == 0 {
        return refuse(Invalid::EmptyQueries);
    }
    if queries.len() > MAX_QUERY_EMBEDDINGS {
        return refuse(Invalid::TooManyQueries { len: queries.len() });
    }
    if req.n_results == 0 {
        return refuse(Invalid::NoResults);
    }
    if req.n_results > MAX_N_RESULTS {
        return refuse(Invalid::TooManyResults { n: req.n_results });
    }
    let ghost all = validate::lengths(queries@);
    let ghost empty = InvalidView::EmptyQuery;
    let ghost long = query_too_long();
    let mut i: usize = 0;
    while i < queries.len()
        invariant
            i <= queries.len(),
            first_bad_length(all.take(i as int), empty, long) is None,
        decreases queries.len() - i,
    {
        proof {
            assert(all.take(i + 1).drop_last() =~= all.take(i as int));
            assert(all.take(i + 1).last() == all[i as int]);
            if all[i as int] == 0 || all[i as int] > MAX_DIMENSION {
                lemma_bad_length_stays(all, i + 1, empty, long);
            }
        }
        if queries[i].len() == 0 {
            return refuse(Invalid::EmptyQuery);
        }
        if queries[i].len() > MAX_DIMENSION {
            return refuse(Invalid::QueryTooLong { len: queries[i].len() });
        }
        i += 1;
    }
    assert(all.take(queries@.len() as int) =~= all);
    Ok(())
}

/// Checks a request to delete records.
pub fn validate_delete_request(req: &DeleteRequest) -> (r: EngineResult<()>)
    ensures
        checked(r, ids_verdict(text::views(req.ids@))),
{
    validate_ids(&req.ids)
}

/// What is wrong with a request to change records, if anything is.
pub open spec fn update_verdict(
    ids: Seq<Seq<char>>,
    metadatas: Option<nat>,
    documents: Option<nat>,
) -> Option<InvalidView> {
    if ids_verdict(ids) is Some {
        ids_verdict(ids)
    } else {
        parts_verdict(metadatas, documents, ids.len())
    }
}

/// Checks a request to change records.
pub fn validate_update_request(req: &UpdateRequest) -> (r: EngineResult<()>)
    ensures
        checked(
            r,
            update_verdict(
                text::views(req.ids@),
                validate::count_of(req.metadatas),
                validate::count_of(req.documents),
            ),
        ),
{
    let a: EngineResult<()> = validate_ids(&req.ids);
    if a.is_err() {
        return a;
    }
    validate_parts(&req.metadatas, &req.documents, req.ids.len())
}

// ---------------------------------------------------------------------------
// The shape of results
// ---------------------------------------------------------------------------

/// Whether a request asks for a part of the results.
pub fn asks_for(included: &Vec<String>, part: &str) -> (r: bool)
    ensures
        r == text::views(included@).contains(part@),
{
    let ghost all = text::views(included@);
    let mut i: usize = 0;
    while i < included.len()
        invariant
            i <= included.len(),
            all == text::views(included@),
            forall|j: int| 0 <= j < i ==> #[trigger] all[j] != part@,
        decreases included.len() - i,
    {
        if same_text(included[i].as_str(), part) {
            assert(all[i as int] == part@);
            return true;
        }
        i += 1;
    }
    false
}

/// The length of a list of results that is filled up to a length.
pub open spec fn row_len(n: nat, k: nat) -> nat {
    if n < k {
        k
    } else {
        n
    }
}

/// The ids of results, filled up with empty texts.
pub open spec fn ids_row(row: Seq<String>, results: Seq<ScoredPoint>, k: nat) -> bool {
    &&& row.len() == row_len(results.len(), k)
    &&& forall|i: int|
        0 <= i < row.len() ==> (#[trigger] row[i])@ == (if i < results.len() {
            results[i].id@
        } else {
            Seq::<char>::empty()
        })
}

/// The ids of one query's results.
pub(crate) fn make_ids_row(results: &Vec<ScoredPoint>, k: usize) -> (row: Vec<String>)
    ensures
        ids_row(row@, results@, k as nat),
{
    let mut row: Vec<String> = Vec::new();
    let mut i: usize = 0;
    while i < results.len()
        invariant
            i <= results.len(),
            row@.len() == i,
            forall|j: int| 0 <= j < i ==> (#[trigger] row@[j])@ == results@[j].id@,
        decreases results.len() - i,
    {
        row.push(results[i].id.clone());
        i += 1;
    }
    while i < k
        invariant
            results@.len() <= i,
            i <= row_len(results@.len(), k as nat),
            row@.len() == i,
            forall|j: int|
                0 <= j < i ==> (#[trigger] row@[j])@ == (if j < results@.len() {
                    results@[j].id@
                } else {
                    Seq::<char>::empty()
                }),
        decreases k - i,
    {
        row.push(String::new());
        i += 1;
    }
    row
}

/// The distances of results, filled up with infinity.
pub open spec fn distances_row(row: Seq<F32>, results: Seq<ScoredPoint>, k: nat) -> bool {
    &&& row.len() == row_len(results.len(), k)
    &&& forall|i: int|
        0 <= i < row.len() ==> (#[trigger] row[i]) == (if i < results.len() {
            results[i].distance
        } else {
            (F32 { bits: INFINITY_32 })
        })
}

/// The distances of one query's results.
pub(crate) fn make_distances_row(results: &Vec<ScoredPoint>, k: usize) -> (row: Vec<F32>)
    ensures
        distances_row(row@, results@, k as nat),
{
    let mut row: Vec<F32> = Vec::new();
    let mut i: usize = 0;
    while i < results.len()
        invariant
            i <= results.len(),
            row@.len() == i,
            forall|j: int| 0 <= j < i ==> (#[trigger] row@[j]) == results@[j].distance,
        decreases results.len() - i,
    {
        row.push(results[i].distance);
        i += 1;
    }
    while i < k
        invariant
            results@.len() <= i,
            i <= row_len(results@.len(), k as nat),
            row@.len() == i,
            forall|j: int|
                0 <= j < i ==> (#[trigger] row@[j]) == (if j < results@.len() {
                    results@[j].distance
                } else {
                    (F32 { bits: INFINITY_32 })
                }),
        decreases k - i,
    {
        row.push(F32 { bits: INFINITY_32 });
        i += 1;
    }
    row
}

/// The metadata of results, filled up with none.
pub open spec fn metadatas_row(row: Seq<Option<Metadata>>, results: Seq<ScoredPoint>, k: nat) -> bool {
    &&& row.len() == row_len(results.len(), k)
    &&& forall|i: int|
        0 <= i < row.len() ==> types::meta_opt(#[trigger] row[i]) == (if i < results.len() {
            types::meta_opt(results[i].metadata)
        } else {
            None
        })
}

fn make_metadatas_row(results: &Vec<ScoredPoint>, k: usize) -> (row: Vec<Option<Metadata>>)
    ensures
        metadatas_row(row@, results@, k as nat),
{
    let mut row: Vec<Option<Metadata>> = Vec::new();
    let mut i: usize = 0;
    while i < results.len()
        invariant
            i <= results.len(),
            row@.len() == i,
            forall|j: int| 0 <= j < i ==> types::meta_opt(#[trigger] row@[j]) == types::meta_opt(results@[j].metadata),
        decreases results.len() - i,
    {
        row.push(clone_meta(&results[i].metadata));
        i += 1;
    }
    while i < k
        invariant
            results@.len() <= i,
            i <= row_len(results@.len(), k as nat),
            row@.len() == i,
            forall|j: int|
                0 <= j < i ==> types::meta_opt(#[trigger] row@[j]) == (if j < results@.len() {
                    types::meta_opt(results@[j].metadata)
                } else {
                    None
                }),
        decreases k - i,
    {
        row.push(None);
        i += 1;
    }
    row
}

/// The documents of results, filled up with none.
pub open spec fn documents_row(row: Seq<Option<String>>, results: Seq<ScoredPoint>, k: nat) -> bool {
    &&& row.len() == row_len(results.len(), k)
    &&& forall|i: int|
        0 <= i < row.len() ==> types::text_opt(#[trigger] row[i]) == (if i < results.len() {
            types::text_opt(results[i].document)
        } else {
            None
        })
}

/// The documents of one query's results.
pub(crate) fn make_documents_row(results: &Vec<ScoredPoint>, k: usize) -> (row: Vec<Option<String>>)
    ensures
        documents_row(row@, results@, k as nat),
{
    let mut row: Vec<Option<String>> = Vec::new();
    let mut i: usize = 0;
    while i < results.len()
        invariant
            i <= results.len(),
            row@.len() == i,
            forall|j: int| 0 <= j < i ==> types::text_opt(#[trigger] row@[j]) == types::text_opt(results@[j].document),
        decreases results.len() - i,
    {
        row.push(clone_text(&results[i].document));
        i += 1;
    }
    while i < k
        invariant
            results@.len() <= i,
            i <= row_len(results@.len(), k as nat),
            row@.len() == i,
            forall|j: int|
                0 <= j < i ==> types::text_opt(#[trigger] row@[j]) == (if j < results@.len() {
                    types::text_opt(results@[j].document)
                } else {
                    None
                }),
        decreases k - i,
    {
        row.push(None);
        i += 1;
    }
    row
}

/// The number of results for the first query vector, up to which the others are
/// filled.
pub open spec fn common_len(all: Seq<Vec<ScoredPoint>>) -> nat {
    if all.len() == 0 {
        0
    } else {
        all[0]@.len()
    }
}

/// The response to a search: a list per query vector, filled up to the length
/// of the first; distances, metadata and documents only where asked for.
pub fn shape_query(all: &Vec<Vec<ScoredPoint>>, included: &Vec<String>) -> (r: QueryResponse)
    ensures
        r.ids@.len() == all@.len(),
        forall|q: int|
            0 <= q < all@.len() ==> ids_row((#[trigger] r.ids@[q])@, all@[q]@, common_len(all@)),
        r.distances is Some <==> text::views(included@).contains("distances"@),
        r.distances matches Some(d) ==> d@.len() == all@.len() && forall|q: int|
            0 <= q < all@.len() ==> distances_row((#[trigger] d@[q])@, all@[q]@, common_len(all@)),
        r.metadatas is Some <==> text::views(included@).contains("metadatas"@),
        r.metadatas matches Some(m) ==> m@.len() == all@.len() && forall|q: int|
            0 <= q < all@.len() ==> metadatas_row((#[trigger] m@[q])@, all@[q]@, common_len(all@)),
        r.documents is Some <==> text::views(included@).contains("documents"@),
        r.documents matches Some(d) ==> d@.len() == all@.len() && forall|q: int|
            0 <= q < all@.len() ==> documents_row((#[trigger] d@[q])@, all@[q]@, common_len(all@)),
{
    let want_distances: bool = asks_for(included, "distances");
    let want_metadatas: bool = asks_for(included, "metadatas");
    let want_documents: bool = asks_for(included, "documents");
    let k: usize = if all.len() == 0 {
        0
    } else {
        all[0].len()
    };
    let mut ids: Vec<Vec<String>> = Vec::new();
    let mut distances: Vec<Vec<F32>> = Vec::new();
    let mut metadatas: Vec<Vec<Option<Metadata>>> = Vec::new();
    let mut documents: Vec<Vec<Option<String>>> = Vec::new();
    let mut q: usize = 0;
    while q < all.len()
        invariant
            q <= all.len(),
            k == common_len(all@),
            ids@.len() == q,
            distances@.len() == q,
            metadatas@.len() == q,
            documents@.len() == q,
            forall|j: int| 0 <= j < q ==> ids_row((#[trigger] ids@[j])@, all@[j]@, k as nat),
            want_distances ==> forall|j: int|
                0 <= j < q ==> distances_row((#[trigger] distances@[j])@, all@[j]@, k as nat),
            want_metadatas ==> forall|j: int|
                0 <= j < q ==> metadatas_row((#[trigger] metadatas@[j])@, all@[j]@, k as nat),
            want_documents ==> forall|j: int|
                0 <= j < q ==> documents_row((#[trigger] documents@[j])@, all@[j]@, k as nat),
        decreases all.len() - q,
    {
        ids.push(make_ids_row(&all[q], k));
        distances.push(
            if want_distances {
                make_distances_row(&all[q], k)
            } else {
                Vec::new()
            },
        );
        metadatas.push(
            if want_metadatas {
                make_metadatas_row(&all[q], k)
            } else {
                Vec::new()
            },
        );
        documents.push(
            if want_documents {
                make_documents_row(&all[q], k)
            } else {
                Vec::new()
            },
        );
        q += 1;
    }
    QueryResponse {
        ids,
        distances: if want_distances {
            Some(distances)
        } else {
            None
        },
        metadatas: if want_metadatas {
            Some(metadatas)
        } else {
            None
        },
        documents: if want_documents {
            Some(documents)
        } else {
            None
        },
    }
}

/// The ids of the records that were found, in order.
pub open spec fn found_ids(records: Seq<Option<Record>>) -> Seq<Seq<char>>
    decreases records.len(),
{
    if records.len() == 0 {
        Seq::empty()
    } else {
        let rest = found_ids(records.drop_last());
        match records.last() {
            Some(r) => rest.push(r.id@),
            None => rest,
        }
    }
}

/// The vectors of the records that were found and have one, in order.
pub open spec fn found_vectors(records: Seq<Option<Record>>) -> Seq<Seq<u32>>
    decreases records.len(),
{
    if records.len() == 0 {
        Seq::empty()
    } else {
        let rest = found_vectors(records.drop_last());
        match records.last() {
            Some(r) => match r.embedding {
                Some(e) => rest.push(e@),
                None => rest,
            },
            None => rest,
        }
    }
}

/// Vectors as mathematical values.
pub open spec fn vector_views(v: Seq<Embedding>) -> Seq<Seq<u32>> {
    Seq::new(v.len(), |i: int| v[i]@)
}

/// The metadata of a record, if it was found.
pub open spec fn found_meta(r: Option<Record>) -> Option<Map<Seq<char>, MetaView>> {
    match r {
        Some(r) => types::meta_opt(r.metadata),
        None => None,
    }
}

/// The document of a record, if it was found.
pub open spec fn found_text(r: Option<Record>) -> Option<Seq<char>> {
    match r {
        Some(r) => types::text_opt(r.document),
        None => None,
    }
}

fn ids_found(records: &Vec<Option<Record>>) -> (r: Vec<String>)
    ensures
        text::views(r@) == found_ids(records@),
{
    let mut out: Vec<String> = Vec::new();
    let mut i: usize = 0;
    assert(records@.take(0) =~= Seq::<Option<Record>>::empty());
    assert(text::views(out@) =~= Seq::<Seq<char>>::empty());
    while i < records.len()
        invariant
            i <= records.len(),
            text::views(out@) == found_ids(records@.take(i as int)),
        decreases records.len() - i,
    {
        let ghost before = text::views(out@);
        proof {
            assert(records@.take(i + 1).drop_last() =~= records@.take(i as int));
            assert(records@.take(i + 1).last() == records@[i as int]);
        }
        match &records[i] {
            Some(r) => {
                out.push(r.id.clone());
                assert(text::views(out@) =~= before.push(r.id@));
            },
            None => {},
        }
        i += 1;
    }
    assert(records@.take(records@.len() as int) =~= records@);
    out
}

fn vectors_found(records: &Vec<Option<Record>>) -> (r: Vec<Embedding>)
    ensures
        vector_views(r@) == found_vectors(records@),
{
    let mut out: Vec<Embedding> = Vec::new();
    let mut i: usize = 0;
    assert(records@.take(0) =~= Seq::<Option<Record>>::empty());
    assert(vector_views(out@) =~= Seq::<Seq<u32>>::empty());
    while i < records.len()
        invariant
            i <= records.len(),
            vector_views(out@) == found_vectors(records@.take(i as int)),
        decreases records.len() - i,
    {
        let ghost before = vector_views(out@);
        proof {
            assert(records@.take(i + 1).drop_last() =~= records@.take(i as int));
            assert(records@.take(i + 1).last() == records@[i as int]);
        }
        match &records[i] {
            Some(r) => match &r.embedding {
                Some(e) => {
                    out.push(clone_vector(e));
                    assert(vector_views(out@) =~= before.push(e@));
                },
                None => {},
            },
            None => {},
        }
        i += 1;
    }
    assert(records@.take(records@.len() as int) =~= records@);
    out
}

/// The response to a request for records: the ids, and on demand the vectors,
/// of those that were found; metadata and documents for every id that was asked
/// for.
pub fn shape_records(records: &Vec<Option<Record>>, included: &Vec<String>) -> (r: GetResponse)
    ensures
        text::views(r.ids@) == found_ids(records@),
        r.embeddings is Some <==> text::views(included@).contains("embeddings"@),
        r.embeddings matches Some(e) ==> vector_views(e@) == found_vectors(records@),
        r.metadatas matches Some(m) && m@.len() == records@.len() && forall|i: int|
            0 <= i < records@.len() ==> types::meta_opt(#[trigger] m@[i]) == found_meta(records@[i]),
        r.documents matches Some(d) && d@.len() == records@.len() && forall|i: int|
            0 <= i < records@.len() ==> types::text_opt(#[trigger] d@[i]) == found_text(records@[i]),
{
    let embeddings: Option<Vec<Embedding>> = if asks_for(included, "embeddings") {
        Some(vectors_found(records))
    } else {
        None
    };
    let mut metadatas: Vec<Option<Metadata>> = Vec::new();
    let mut documents: Vec<Option<String>> = Vec::new();
    let mut i: usize = 0;
    while i < records.len()
        invariant
            i <= records.len(),
            metadatas@.len() == i,
            documents@.len() == i,
            forall|j: int|
                0 <= j < i ==> types::meta_opt(#[trigger] metadatas@[j]) == found_meta(records@[j]),
            forall|j: int|
                0 <= j < i ==> types::text_opt(#[trigger] documents@[j]) == found_text(records@[j]),
        decreases records.len() - i,
    {
        match &records[i] {
            Some(r) => {
                metadatas.push(clone_meta(&r.metadata));
                documents.push(clone_text(&r.document));
            },
            None => {
                metadatas.push(None);
                documents.push(None);
            },
        }
        i += 1;
    }
    GetResponse {
        ids: ids_found(records),
        embeddings,
        metadatas: Some(metadatas),
        documents: Some(documents),
    }
}

// ---------------------------------------------------------------------------
// Access and lookup
// ---------------------------------------------------------------------------

/// A header of a request.
#[derive(Debug, PartialEq)]
pub enum Header {
    Absent,
    /// The header is there but is no visible ASCII text.
    Unreadable,
    Text(String),
}

/// The token that a request shows: that of `x-chroma-token`, or of `x-api-key`
/// where the first is absent.
pub open spec fn shown_token(chroma: Header, api: Header) -> Option<Seq<char>> {
    match chroma {
        Header::Text(t) => Some(t@),
        Header::Unreadable => None,
        Header::Absent => match api {
            Header::Text(t) => Some(t@),
            _ => None,
        },
    }
}

/// `ConstantTimeEq::ct_eq` on byte slices says whether the slices are equal, in
/// time that does not depend on where they differ. The slices are the UTF-8
/// forms of the texts, so it says whether the texts are equal.
#[verifier::external_body]
fn same_token(a: &str, b: &str) -> (r: bool)
    ensures
        r == (a@ == b@),
{
    a.as_bytes().ct_eq(b.as_bytes()).into()
}

/// Whether a request may pass: always where no key is set, else only with the
/// key as its token.
pub fn authorized(expected: &Option<String>, chroma: &Header, api: &Header) -> (r: bool)
    ensures
        r <==> (expected matches Some(key) ==> shown_token(*chroma, *api) == Some(key@)),
{
    match expected {
        Some(key) => {
            let token: Option<&String> = match chroma {
                Header::Text(t) => Some(t),
                Header::Unreadable => None,
                Header::Absent => match api {
                    Header::Text(t) => Some(t),
                    _ => None,
                },
            };
            match token {
                Some(t) => same_token(t.as_str(), key.as_str()),
                None => false,
            }
        },
        None => true,
    }
}

/// How a collection is to be looked up.
#[derive(Debug, Clone, Copy, PartialEq, Eq, Structural)]
pub enum Lookup {
    ById(CollectionId),
    ByName,
}

/// How a collection is looked up by what a path says: a UUID is an id, anything
/// else a name.
pub fn lookup_for(name_or_id: &str) -> (r: Lookup)
    ensures
        r == lookup_of(ids::id_reading(name_or_id@)),
{
    lookup_from(read_id(name_or_id))
}

/// How a collection is looked up, by what its name was read as.
pub open spec fn lookup_of(read: Option<CollectionId>) -> Lookup {
    match read {
        Some(id) => Lookup::ById(id),
        None => Lookup::ByName,
    }
}

/// How a collection is looked up, by what its name was read as.
pub fn lookup_from(read: Option<CollectionId>) -> (r: Lookup)
    ensures
        r == lookup_of(read),
{
    match read {
        Some(id) => Lookup::ById(id),
        None => Lookup::ByName,
    }
}

/// The collection that a lookup found, or the error that names what was looked
/// for.
pub fn resolve_collection(name_or_id: &str, found: Option<CollectionId>) -> (r: EngineResult<
    CollectionId,
>)
    ensures
        match found {
            Some(id) => r == EngineResult::<CollectionId>::Ok(id),
            None => r matches Err(e) && e@ == EngineErrorView::CollectionNotFound(name_or_id@),
        },
{
    match found {
        Some(id) => Ok(id),
        None => Err(EngineError::CollectionNotFound(name_or_id.to_owned())),
    }
}

/// Whether a number stands in a list.
fn is_listed(list: &Vec<u64>, n: u64) -> (r: bool)
    ensures
        r == list@.contains(n),
{
    let mut i: usize = 0;
    while i < list.len()
        invariant
            i <= list.len(),
            forall|j: int| 0 <= j < i ==> #[trigger] list@[j] != n,
        decreases list.len() - i,
    {
        if list[i] == n {
            return true;
        }
        i += 1;
    }
    false
}

/// Adds the members of a list, without one, that are not there yet.
fn add_members(out: &mut Vec<u64>, list: &Vec<u64>, gone: u64)
    requires
        old(out)@.no_duplicates(),
        !old(out)@.contains(gone),
    ensures
        final(out)@.no_duplicates(),
        forall|n: u64|
            #[trigger] final(out)@.contains(n) <==> old(out)@.contains(n) || (list@.contains(n) && n != gone),
{
    let mut i: usize = 0;
    while i < list.len()
        invariant
            i <= list.len(),
            out@.no_duplicates(),
            !old(out)@.contains(gone),
            forall|n: u64|
                #[trigger] out@.contains(n) <==> old(out)@.contains(n) || (list@.take(
                    i as int,
                ).contains(n) && n != gone),
        decreases list.len() - i,
    {
        let n: u64 = list[i];
        let ghost before = out@;
        if n != gone && !is_listed(out, n) {
            out.push(n);
            proof {
                assert forall|m: u64| #[trigger] out@.contains(m) <==> before.contains(m) || m == n by {
                    if before.contains(m) {
                        let j = choose|j: int| 0 <= j < before.len() && before[j] == m;
                        assert(out@[j] == m);
                    }
                    if m == n {
                        assert(out@[before.len() as int] == n);
                    }
                }
            }
        }
        proof {
            let now = list@.take(i + 1);
            let earlier = list@.take(i as int);
            assert(now =~= earlier.push(n));
            assert forall|m: u64| now.contains(m) <==> earlier.contains(m) || m == n by {
                if earlier.contains(m) {
                    let j = choose|j: int| 0 <= j < earlier.len() && earlier[j] == m;
                    assert(now[j] == m);
                }
                if m == n {
                    assert(now[i as int] == n);
                }
            }
        }
        i += 1;
    }
    assert(list@.take(list@.len() as int) =~= list@);
}

/// The members of a cluster without one of them, voters and learners alike.
/// The last member cannot be removed.
pub fn members_without(voters: &Vec<u64>, learners: &Vec<u64>, node: u64) -> (r: Option<Vec<u64>>)
    ensures
        match r {
            Some(m) => m@.len() > 0 && m@.no_duplicates() && forall|n: u64|
                #[trigger] m@.contains(n) <==> (voters@.contains(n) || learners@.contains(n)) && n != node,
            None => forall|n: u64|
                #[trigger] voters@.contains(n) || learners@.contains(n) ==> n == node,
        },
{
    let mut out: Vec<u64> = Vec::new();
    add_members(&mut out, voters, node);
    add_members(&mut out, learners, node);
    if out.len() == 0 {
        proof {
            assert forall|n: u64| #[trigger] voters@.contains(n) || learners@.contains(n) implies n == node by {
                if n != node {
                    assert(out@.contains(n));
                }
            }
        }
        None
    } else {
        Some(out)
    }
}

// ---------------------------------------------------------------------------
// What is accepted, and what is shown
// ---------------------------------------------------------------------------

/// A collection is accepted with a name of 1 to 512 bytes and a dimension of up
/// to 65536, and with nothing else.
pub proof fn collections_within_bounds_are_accepted(name: Seq<char>, dimension: usize)
    ensures
        create_verdict(name, dimension) is None <==> name.len() > 0 && byte_len(name) <= 512 && dimension
            <= 65536,
        name.len() == 0 ==> create_verdict(name, dimension) == Some(InvalidView::EmptyName),
{
}

proof fn lemma_good_ids(ids: Seq<Seq<char>>)
    ensures
        first_bad_id(ids) is None <==> forall|i: int|
            0 <= i < ids.len() ==> (#[trigger] ids[i]).len() > 0 && byte_len(ids[i]) <= 512,
    decreases ids.len(),
{
    if ids.len() > 0 {
        let rest = ids.drop_last();
        lemma_good_ids(rest);
        assert(ids[ids.len() - 1] == ids.last());
        assert forall|i: int| 0 <= i < rest.len() implies #[trigger] rest[i] == ids[i] by {}
        if first_bad_id(ids) is None {
            assert forall|i: int| 0 <= i < ids.len() implies (#[trigger] ids[i]).len() > 0 && byte_len(
                ids[i],
            ) <= 512 by {
                if i < rest.len() {
                    assert(rest[i] == ids[i]);
                }
            }
        }
        if forall|i: int| 0 <= i < ids.len() ==> (#[trigger] ids[i]).len() > 0 && byte_len(ids[i]) <= 512 {
            assert forall|i: int| 0 <= i < rest.len() implies (#[trigger] rest[i]).len() > 0 && byte_len(
                rest[i],
            ) <= 512 by {
                assert(rest[i] == ids[i]);
            }
        }
    }
}

/// Ids are accepted when there are 1 to 10000 of them, each of 1 to 512 bytes,
/// and only then.
pub proof fn ids_within_bounds_are_accepted(ids: Seq<Seq<char>>)
    ensures
        ids_verdict(ids) is None <==> 1 <= ids.len() <= 10000 && forall|i: int|
            0 <= i < ids.len() ==> (#[trigger] ids[i]).len() > 0 && byte_len(ids[i]) <= 512,
{
    lemma_good_ids(ids);
}

proof fn lemma_good_lengths(lengths: Seq<nat>, empty: InvalidView, long: spec_fn(usize) -> InvalidView)
    ensures
        first_bad_length(lengths, empty, long) is None <==> forall|i: int|
            0 <= i < lengths.len() ==> 1 <= #[trigger] lengths[i] <= 65536,
    decreases lengths.len(),
{
    if lengths.len() > 0 {
        let rest = lengths.drop_last();
        lemma_good_lengths(rest, empty, long);
        assert(lengths[lengths.len() - 1] == lengths.last());
        assert forall|i: int| 0 <= i < rest.len() implies #[trigger] rest[i] == lengths[i] by {}
        if first_bad_length(lengths, empty, long) is None {
            assert forall|i: int| 0 <= i < lengths.len() implies 1 <= #[trigger] lengths[i] <= 65536 by {
                if i < rest.len() {
                    assert(rest[i] == lengths[i]);
                }
            }
        }
        if forall|i: int| 0 <= i < lengths.len() ==> 1 <= #[trigger] lengths[i] <= 65536 {
            assert forall|i: int| 0 <= i < rest.len() implies 1 <= #[trigger] rest[i] <= 65536 by {
                assert(rest[i] == lengths[i]);
            }
        }
    }
}

/// A write is accepted when its ids and vectors are within bounds and its lists
/// go together, and only then.
pub proof fn writes_within_bounds_are_accepted(
    ids: Seq<Seq<char>>,
    embeddings: Seq<nat>,
    metadatas: Option<nat>,
    documents: Option<nat>,
)
    ensures
        write_verdict(ids, embeddings, metadatas, documents) is None <==> {
            &&& ids_verdict(ids) is None
            &&& embeddings.len() == ids.len()
            &&& forall|i: int| 0 <= i < embeddings.len() ==> 1 <= #[trigger] embeddings[i] <= 65536
            &&& metadatas matches Some(n) ==> n == ids.len()
            &&& documents matches Some(n) ==> n == ids.len()
        },
        update_verdict(ids, metadatas, documents) is None <==> {
            &&& ids_verdict(ids) is None
            &&& metadatas matches Some(n) ==> n == ids.len()
            &&& documents matches Some(n) ==> n == ids.len()
        },
{
    lemma_good_lengths(embeddings, InvalidView::EmptyEmbedding, too_long());
    ids_within_bounds_are_accepted(ids);
}

/// A search is accepted with 1 to 100 query vectors of up to 65536 components
/// and 1 to 1000 results, and with nothing else.
pub proof fn searches_within_bounds_are_accepted(queries: Seq<nat>, n_results: usize)
    ensures
        query_verdict(queries, n_results) is None <==> 1 <= queries.len() <= 100 && 1 <= n_results <= 1000
            && forall|i: int| 0 <= i < queries.len() ==> 1 <= #[trigger] queries[i] <= 65536,
{
    lemma_good_lengths(queries, InvalidView::EmptyQuery, query_too_long());
}

/// The lists of an answer go together: what stands at a place of each is of the
/// result at that place, and behind the results the lists are filled up.
pub proof fn rows_go_together(
    results: Seq<ScoredPoint>,
    k: nat,
    ids: Seq<String>,
    distances: Seq<F32>,
    metadatas: Seq<Option<Metadata>>,
    documents: Seq<Option<String>>,
)
    requires
        ids_row(ids, results, k),
        distances_row(distances, results, k),
        metadatas_row(metadatas, results, k),
        documents_row(documents, results, k),
    ensures
        ids.len() >= results.len() && ids.len() >= k && (ids.len() == k || ids.len() == results.len()),
        distances.len() == ids.len() && metadatas.len() == ids.len() && documents.len() == ids.len(),
        forall|i: int|
            #![trigger ids[i]]
            0 <= i < results.len() ==> ids[i]@ == results[i].id@ && distances[i] == results[i].distance
                && types::meta_opt(metadatas[i]) == types::meta_opt(results[i].metadata)
                && types::text_opt(documents[i]) == types::text_opt(results[i].document),
        forall|i: int|
            #![trigger ids[i]]
            results.len() <= i < ids.len() ==> ids[i]@.len() == 0 && types::meta_opt(metadatas[i]) is None
                && types::text_opt(documents[i]) is None && distances[i].bits == 0x7F80_0000,
{
    assert forall|i: int|
        #![trigger ids[i]]
        0 <= i < results.len() implies ids[i]@ == results[i].id@ && distances[i] == results[i].distance
        && types::meta_opt(metadatas[i]) == types::meta_opt(results[i].metadata) && types::text_opt(
        documents[i],
    ) == types::text_opt(results[i].document) by {
        assert(distances[i] == distances[i] && metadatas[i] == metadatas[i] && documents[i]
            == documents[i]);
    }
    assert forall|i: int|
        #![trigger ids[i]]
        results.len() <= i < ids.len() implies ids[i]@.len() == 0 && types::meta_opt(metadatas[i]) is None
        && types::text_opt(documents[i]) is None && distances[i].bits == 0x7F80_0000 by {
        assert(distances[i] == distances[i] && metadatas[i] == metadatas[i] && documents[i]
            == documents[i]);
    }
}

/// The answers of one search are as long as that of its first query vector, or
/// longer where they have more results.
pub proof fn answers_are_filled_to_the_first(all: Seq<Vec<ScoredPoint>>)
    ensures
        all.len() > 0 ==> common_len(all) == all[0]@.len(),
        all.len() == 0 ==> common_len(all) == 0,
{
}

/// The ids of an answer are those of the records that were found, in their
/// order: finding more records adds to the answer, and missing ones adds nothing.
pub proof fn found_records_are_listed(records: Seq<Option<Record>>, next: Option<Record>)
    ensures
        found_ids(Seq::<Option<Record>>::empty()).len() == 0,
        next matches Some(r) ==> found_ids(records.push(next)) == found_ids(records).push(r.id@),
        next is None ==> found_ids(records.push(next)) == found_ids(records),
        found_vectors(Seq::<Option<Record>>::empty()).len() == 0,
        next matches Some(r) ==> found_vectors(records.push(next)) == (match r.embedding {
            Some(e) => found_vectors(records).push(e@),
            None => found_vectors(records),
        }),
        next is None ==> found_vectors(records.push(next)) == found_vectors(records),
        next matches Some(r) ==> found_meta(next) == types::meta_opt(r.metadata) && found_text(next)
            == types::text_opt(r.document),
        next is None ==> found_meta(next) is None && found_text(next) is None,
{
    assert(records.push(next).drop_last() =~= records);
}

/// The token of `x-chroma-token` counts; that of `x-api-key` only where the first
/// header is absent.
pub proof fn the_first_header_counts(chroma: Header, api: Header, key: Seq<char>)
    ensures
        chroma matches Header::Text(t) ==> (shown_token(chroma, api) == Some(key) <==> t@ == key),
        chroma is Unreadable ==> shown_token(chroma, api) is None,
        chroma is Absent ==> match api {
            Header::Text(t) => shown_token(chroma, api) == Some(key) <==> t@ == key,
            _ => shown_token(chroma, api) is None,
        },
{
}

/// What reads as an id is looked up by that id, and all else by name.
pub proof fn ids_are_looked_up_as_ids(read: Option<CollectionId>)
    ensures
        match lookup_of(read) {
            Lookup::ById(id) => read == Some(id),
            Lookup::ByName => read is None,
        },
{
}

/// A request that is refused is told what is wrong with it: what is checked
/// first counts, and of several ids or lengths the first bad one.
pub proof fn refusals_say_what_is_wrong(
    name: Seq<char>,
    dimension: usize,
    ids: Seq<Seq<char>>,
    queries: Seq<nat>,
    n_results: usize,
    i: int,
)
    ensures
        name.len() > 0 && byte_len(name) > 512 ==> create_verdict(name, dimension) == Some(InvalidView::NameTooLong),
        name.len() > 0 && byte_len(name) <= 512 && dimension > 65536 ==> create_verdict(name, dimension) == Some(
            InvalidView::DimensionTooLarge { dimension },
        ),
        ids.len() == 0 ==> ids_verdict(ids) == Some(InvalidView::EmptyIds),
        10000 < ids.len() <= usize::MAX ==> ids_verdict(ids) == Some(InvalidView::BatchTooLarge { len: ids.len() as usize }),
        0 <= i < ids.len() <= 10000 && (forall|k: int|
            0 <= k < i ==> (#[trigger] ids[k]).len() > 0 && byte_len(ids[k]) <= 512) ==> {
            &&& ids[i].len() == 0 ==> ids_verdict(ids) == Some(InvalidView::EmptyId)
            &&& ids[i].len() > 0 && byte_len(ids[i]) > 512 ==> ids_verdict(ids) == Some(
                InvalidView::IdTooLong { id: ids[i] },
            )
        },
        queries.len() == 0 ==> query_verdict(queries, n_results) == Some(InvalidView::EmptyQueries),
        1 <= queries.len() <= 100 && n_results == 0 ==> query_verdict(queries, n_results) == Some(
            InvalidView::NoResults,
        ),
        1 <= queries.len() <= 100 && n_results > 1000 ==> query_verdict(queries, n_results) == Some(
            InvalidView::TooManyResults { n: n_results },
        ),
        100 < queries.len() <= usize::MAX ==> query_verdict(queries, n_results) == Some(
            InvalidView::TooManyQueries { len: queries.len() as usize },
        ),
{
    if 0 <= i < ids.len() {
        lemma_first_bad(ids, i);
    }
}

proof fn lemma_first_bad(ids: Seq<Seq<char>>, i: int)
    requires
        0 <= i < ids.len(),
    ensures
        (forall|k: int| 0 <= k < i ==> (#[trigger] ids[k]).len() > 0 && byte_len(ids[k]) <= 512) && id_verdict(
            ids[i],
        ) is Some ==> first_bad_id(ids) == id_verdict(ids[i]),
    decreases ids.len(),
{
    let rest = ids.drop_last();
    assert(ids.last() == ids[ids.len() - 1]);
    if i < rest.len() {
        lemma_first_bad(rest, i);
        assert forall|k: int| 0 <= k < rest.len() implies #[trigger] rest[k] == ids[k] by {}
    } else if forall|k: int| 0 <= k < i ==> (#[trigger] ids[k]).len() > 0 && byte_len(ids[k]) <= 512 {
        lemma_none_bad(rest);
    }
}

proof fn lemma_none_bad(ids: Seq<Seq<char>>)
    requires
        forall|k: int| 0 <= k < ids.len() ==> (#[trigger] ids[k]).len() > 0 && byte_len(ids[k]) <= 512,
    ensures
        first_bad_id(ids) is None,
    decreases ids.len(),
{
    if ids.len() > 0 {
        assert(ids.last() == ids[ids.len() - 1]);
        let rest = ids.drop_last();
        assert forall|k: int| 0 <= k < rest.len() implies (#[trigger] rest[k]).len() > 0 && byte_len(rest[k])
            <= 512 by {
            assert(rest[k] == ids[k]);
        }
        lemma_none_bad(rest);
    }
}

/// A part of a write that has another length than the ids is refused by its
/// name, with both lengths.
pub proof fn parts_of_other_lengths_are_named(
    ids: Seq<Seq<char>>,
    embeddings: Seq<nat>,
    metadatas: Option<nat>,
    documents: Option<nat>,
)
    requires
        ids_verdict(ids) is None,
        embeddings.len() <= usize::MAX,
        metadatas matches Some(n) ==> n <= usize::MAX,
        documents matches Some(n) ==> n <= usize::MAX,
    ensures
        embeddings.len() == 0 ==> write_verdict(ids, embeddings, metadatas, documents) == Some(
            InvalidView::EmptyEmbeddings,
        ),
        embeddings_verdict(embeddings) is None && embeddings.len() != ids.len() ==> write_verdict(
            ids,
            embeddings,
            metadatas,
            documents,
        ) == Some(
            InvalidView::IdsEmbeddings { ids: ids.len() as usize, embeddings: embeddings.len() as usize },
        ),
        metadatas matches Some(n) ==> (n != ids.len() ==> update_verdict(ids, metadatas, documents) == Some(
            InvalidView::PartIds { what: Part::Metadatas, len: n as usize, ids: ids.len() as usize },
        )),
        documents matches Some(n) ==> (n != ids.len() && metadatas is None ==> update_verdict(
            ids,
            metadatas,
            documents,
        ) == Some(InvalidView::PartIds { what: Part::Documents, len: n as usize, ids: ids.len() as usize })),
{
}

} // verus!
