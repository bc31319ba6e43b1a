//! The Chroma-compatible part of the HTTP interface.

use vstd::prelude::*;
use vstd::string::*;

use crate::api;
use crate::api::{asks_for, validate_create, validate_parts};
use crate::api::{MAX_BATCH_SIZE, MAX_DIMENSION, MAX_ID_LENGTH, MAX_N_RESULTS, MAX_QUERY_EMBEDDINGS};
use crate::collection::query::ScoredPoint;
use crate::collection::validate;
use crate::collection::Record;
use crate::config::CollectionConfig;
use crate::error::{EngineError, EngineErrorView, EngineResult, Invalid, InvalidView};
use crate::filter;
use crate::filter::{WhereErrorView, WhereFilter};
use crate::ids;
use crate::ids::render_id;
use crate::json;
use crate::json::{Json, JsonView};
use crate::num::{F32, F64};
use crate::text;
use crate::types;
use crate::types::{Distance, Embedding, MetaView, Metadata, MetadataValue};

verus! {

/// The answer to a heartbeat.
#[derive(Debug, Clone, Copy, PartialEq, Eq, Structural)]
pub struct HeartbeatResponse {
    pub nanosecond_heartbeat: u64,
}

/// What a client may rely on.
#[derive(Debug, Clone, Copy, PartialEq, Eq, Structural)]
pub struct PreFlightResponse {
    pub max_batch_size: usize,
    pub supports_base64_encoding: bool,
}

/// The answer to a request for what a client may rely on.
pub fn pre_flight_checks() -> (r: PreFlightResponse)
    ensures
        r.max_batch_size == 1000,
        !r.supports_base64_encoding,
{
    PreFlightResponse { max_batch_size: 1000, supports_base64_encoding: false }
}

/// A metadata value as a client sends it.
#[derive(Debug, PartialEq)]
pub enum ChromaMetadataValue {
    Str(String),
    Bool(bool),
    Int(i64),
    Float(F64),
}

/// Metadata as a client sends it: each name with its value.
pub type ChromaMetadata = Vec<(String, ChromaMetadataValue)>;

impl View for ChromaMetadataValue {
    type V = MetaView;

    open spec fn view(&self) -> MetaView {
        match self {
            ChromaMetadataValue::Str(s) => MetaView::Str(s@),
            ChromaMetadataValue::Bool(b) => MetaView::Bool(*b),
            ChromaMetadataValue::Int(i) => MetaView::Int(*i),
            ChromaMetadataValue::Float(f) => MetaView::Float(*f),
        }
    }
}

/// A collection as a client sees it.
#[derive(Debug, PartialEq)]
pub struct ChromaCollectionResponse {
    pub id: String,
    pub name: String,
    pub collection_type: String,
    pub dimension: Option<usize>,
    pub metadata: Option<Json>,
    pub tenant: String,
    pub database: String,
    pub configuration_json: Option<Json>,
}

/// The results of a search as a client sees them.
#[derive(Debug)]
pub struct ChromaQueryResponse {
    pub ids: Vec<Vec<String>>,
    pub distances: Option<Vec<Vec<F32>>>,
    pub metadatas: Option<Vec<Vec<Option<Json>>>>,
    pub documents: Option<Vec<Vec<Option<String>>>>,
}

/// Records as a client sees them.
#[derive(Debug)]
pub struct ChromaGetResponse {
    pub ids: Vec<String>,
    pub embeddings: Option<Vec<Embedding>>,
    pub metadatas: Option<Vec<Option<Json>>>,
    pub documents: Option<Vec<Option<String>>>,
}

/// A client's request for a collection.
#[derive(Debug)]
pub struct ChromaCreateCollectionRequest {
    pub name: String,
    pub metadata: Option<ChromaMetadata>,
    pub dimension: Option<usize>,
    pub get_or_create: bool,
}

/// A client's request to write records.
#[derive(Debug)]
pub struct ChromaAddRequest {
    pub ids: Vec<String>,
    pub embeddings: Vec<Embedding>,
    pub metadatas: Option<Vec<Option<ChromaMetadata>>>,
    pub documents: Option<Vec<Option<String>>>,
}

/// A client's search.
#[derive(Debug)]
pub struct ChromaQueryRequest {
    pub query_embeddings: Vec<Embedding>,
    pub n_results: usize,
    pub where_filter: Option<WhereFilter>,
    pub included: Vec<String>,
}

/// A client's request for records.
#[derive(Debug)]
pub struct ChromaGetRequest {
    pub ids: Option<Vec<String>>,
    pub where_filter: Option<WhereFilter>,
    pub included: Vec<String>,
}

/// A client's request to delete records.
#[derive(Debug)]
pub struct ChromaDeleteRequest {
    pub ids: Vec<String>,
}

/// The number of results of a search that names none.
pub fn default_n_results() -> (n: usize)
    ensures
        n == 10,
{
    10
}

// ---------------------------------------------------------------------------
// Metadata
// ---------------------------------------------------------------------------

/// The metadata that names with values stand for; of several values of one name
/// the last counts.
pub open spec fn meta_map(m: Seq<(String, ChromaMetadataValue)>) -> Map<Seq<char>, MetaView>
    decreases m.len(),
{
    if m.len() == 0 {
        Map::empty()
    } else {
        meta_map(m.drop_last()).insert(m.last().0@, m.last().1@)
    }
}

/// Optional metadata of a client as a mathematical value.
pub open spec fn meta_map_opt(m: Option<ChromaMetadata>) -> Option<Map<Seq<char>, MetaView>> {
    match m {
        Some(m) => Some(meta_map(m@)),
        None => None,
    }
}

fn convert_value(v: &ChromaMetadataValue) -> (r: MetadataValue)
    ensures
        r@ == v@,
{
    match v {
        ChromaMetadataValue::Str(s) => MetadataValue::Str(s.clone()),
        ChromaMetadataValue::Bool(b) => MetadataValue::Bool(*b),
        ChromaMetadataValue::Int(i) => MetadataValue::Int(*i),
        ChromaMetadataValue::Float(f) => MetadataValue::Float(*f),
    }
}

/// Takes over the metadata of a client.
pub fn convert_metadata(m: &Option<ChromaMetadata>) -> (r: Option<Metadata>)
    ensures
        types::meta_opt(r) == meta_map_opt(*m),
{
    match m {
        Some(m) => {
            let mut out: Metadata = Metadata::new();
            let mut i: usize = 0;
            assert(m@.take(0) =~= Seq::<(String, ChromaMetadataValue)>::empty());
            while i < m.len()
                invariant
                    i <= m.len(),
                    out@ == meta_map(m@.take(i as int)),
                decreases m.len() - i,
            {
                proof {
                    assert(m@.take(i + 1).drop_last() =~= m@.take(i as int));
                    assert(m@.take(i + 1).last() == m@[i as int]);
                }
                out.insert(m[i].0.clone(), convert_value(&m[i].1));
                i += 1;
            }
            assert(m@.take(m@.len() as int) =~= m@);
            Some(out)
        },
        None => None,
    }
}

/// Takes over the metadata of each record of a request.
pub fn convert_metadatas(list: &Option<Vec<Option<ChromaMetadata>>>) -> (r: Option<
    Vec<Option<Metadata>>,
>)
    ensures
        r is Some <==> list is Some,
        r matches Some(out) ==> out@.len() == list->0@.len() && forall|i: int|
            0 <= i < out@.len() ==> types::meta_opt(#[trigger] out@[i]) == meta_map_opt(list->0@[i]),
{
    match list {
        Some(l) => {
            let mut out: Vec<Option<Metadata>> = Vec::new();
            let mut i: usize = 0;
            while i < l.len()
                invariant
                    i <= l.len(),
                    out@.len() == i,
                    forall|j: int|
                        0 <= j < i ==> types::meta_opt(#[trigger] out@[j]) == meta_map_opt(l@[j]),
                decreases l.len() - i,
            {
                out.push(convert_metadata(&l[i]));
                i += 1;
            }
            Some(out)
        },
        None => None,
    }
}

/// The JSON form of a metadata value.
pub open spec fn flat_value(v: MetaView) -> JsonView {
    match v {
        MetaView::Str(s) => JsonView::Text(s),
        MetaView::Bool(b) => JsonView::Bool(b),
        MetaView::Int(i) => JsonView::of_int(i),
        MetaView::Float(f) => JsonView::of_double(f),
    }
}

/// Whether a JSON value is the object of some metadata: a member for each name,
/// with the JSON form of its value.
pub open spec fn flattens(j: JsonView, m: Map<Seq<char>, MetaView>) -> bool {
    &&& j is Object
    &&& forall|i: int|
        #![trigger j->Object_0[i]]
        0 <= i < j->Object_0.len() ==> m.contains_key(j->Object_0[i].0) && j->Object_0[i].1 == flat_value(
            m[j->Object_0[i].0],
        )
    &&& forall|i: int, k: int|
        0 <= i < k < j->Object_0.len() ==> (#[trigger] j->Object_0[i]).0 != (#[trigger] j->Object_0[k]).0
    &&& forall|name: Seq<char>|
        #[trigger] m.contains_key(name) ==> exists|i: int|
            0 <= i < j->Object_0.len() && (#[trigger] j->Object_0[i]).0 == name
}

/// Whether optional JSON is the object of optional metadata.
pub open spec fn flattens_opt(j: Option<Json>, m: Option<Map<Seq<char>, MetaView>>) -> bool {
    match (j, m) {
        (Some(j), Some(m)) => flattens(j@, m),
        (None, None) => true,
        _ => false,
    }
}

fn flatten_value(v: &MetadataValue) -> (r: Json)
    ensures
        r@ == flat_value(v@),
{
    match v {
        MetadataValue::Str(s) => Json::Text(s.clone()),
        MetadataValue::Bool(b) => Json::Bool(*b),
        MetadataValue::Int(i) => Json::from_i64(*i),
        MetadataValue::Float(f) => Json::from_f64(*f),
    }
}

/// The metadata of a record as a client sees it.
pub fn flatten_metadata(meta: &Option<Metadata>) -> (r: Option<Json>)
    ensures
        flattens_opt(r, types::meta_opt(*meta)),
{
    match meta {
        Some(m) => {
            let entries: &Vec<(String, MetadataValue)> = m.entries();
            let mut members: Vec<(String, Json)> = Vec::new();
            let mut i: usize = 0;
            while i < entries.len()
                invariant
                    i <= entries.len(),
                    members@.len() == i,
                    forall|k: int|
                        0 <= k < i ==> (#[trigger] members@[k]).0@ == entries@[k].0@ && members@[k].1@
                            == flat_value(entries@[k].1@),
                decreases entries.len() - i,
            {
                members.push((entries[i].0.clone(), flatten_value(&entries[i].1)));
                i += 1;
            }
            proof {
                json::lemma_object_view(members);
                let o = json::members_view(members@);
                assert forall|i: int|
                    #![trigger o[i]]
                    0 <= i < o.len() implies m@.contains_key(o[i].0) && o[i].1 == flat_value(m@[o[i].0]) by {
                    assert(members@[i].0@ == entries@[i].0@);
                    types::lemma_entry(entries@, i);
                }
                assert forall|i: int, k: int| 0 <= i < k < o.len() implies (#[trigger] o[i]).0 != (
                #[trigger] o[k]).0 by {
                    assert(members@[i].0@ == entries@[i].0@ && members@[k].0@ == entries@[k].0@);
                }
                assert forall|name: Seq<char>| #[trigger] m@.contains_key(name) implies exists|i: int|
                    0 <= i < o.len() && (#[trigger] o[i]).0 == name by {
                    assert(types::has_key(entries@, name));
                    let k = types::place_of(entries@, name);
                    assert(entries@[k].0@ == name);
                    assert(members@[k].0@ == name);
                    assert(o[k].0 == name);
                }
            }
            Some(Json::Object(members))
        },
        None => None,
    }
}

/// A collection as a client sees it. A dimension that is not known yet is not
/// shown.
pub fn chroma_response(config: &CollectionConfig) -> (r: ChromaCollectionResponse)
    ensures
        r.id@ == ids::id_text(config@.id),
        r.name@ == config@.name,
        r.collection_type@ == "collection"@,
        r.dimension == (if config@.dimension == 0 {
            None
        } else {
            Some(config@.dimension)
        }),
        flattens_opt(r.metadata, config@.metadata),
        r.tenant@ == config@.tenant,
        r.database@ == config@.database,
        r.configuration_json matches Some(j) && j@ == JsonView::Object(Seq::empty()),
{
    let none: Vec<(String, Json)> = Vec::new();
    proof {
        json::lemma_object_view(none);
        assert(json::members_view(none@) =~= Seq::<(Seq<char>, JsonView)>::empty());
    }
    ChromaCollectionResponse {
        id: render_id(config.id),
        name: config.name.clone(),
        collection_type: "collection".to_owned(),
        dimension: if config.dimension == 0 {
            None
        } else {
            Some(config.dimension)
        },
        metadata: flatten_metadata(&config.metadata),
        tenant: config.tenant.clone(),
        database: config.database.clone(),
        configuration_json: Some(Json::Object(none)),
    }
}

// ---------------------------------------------------------------------------
// Checks
// ---------------------------------------------------------------------------

fn refuse(v: Invalid) -> (r: EngineResult<()>)
    ensures
        api::checked(r, Some(v@)),
{
    Err(EngineError::Validation(v))
}

/// What a request for a collection is to do.
#[derive(Debug)]
pub enum Creation {
    /// Answer with the collection of that name that is there.
    Existing,
    /// Create this one.
    New(CollectionConfig),
}

/// Decides what a client's request for a collection is to do: the name and
/// dimension are checked, and one that is there is taken where the request
/// allows it. Whether one is there is told by `existing`.
pub fn create_collection(
    req: &ChromaCreateCollectionRequest,
    tenant: &str,
    database: &str,
    existing: bool,
) -> (r: EngineResult<Creation>)
    ensures
        ({
            let dimension = match req.dimension {
                Some(d) => d,
                None => 0,
            };
            let verdict = api::create_verdict(req.name@, dimension);
            match r {
                Err(e) => verdict matches Some(v) && e@ == EngineErrorView::Validation(v),
                Ok(Creation::Existing) => verdict is None && req.get_or_create && existing,
                Ok(Creation::New(c)) => {
                    &&& verdict is None
                    &&& !(req.get_or_create && existing)
                    &&& c@.name == req.name@
                    &&& c@.dimension == dimension
                    &&& c@.space == Distance::L2
                    &&& c@.tenant == tenant@
                    &&& c@.database == database@
                    &&& c@.metadata == meta_map_opt(req.metadata)
                },
            }
        }),
{
    let dimension: usize = match req.dimension {
        Some(d) => d,
        None => 0,
    };
    match validate_create(req.name.as_str(), dimension) {
        Err(e) => Err(e),
        Ok(()) => {
            if req.get_or_create && existing {
                return Ok(Creation::Existing);
            }
            let mut config: CollectionConfig = CollectionConfig::new(
                req.name.clone(),
                dimension,
                Distance::L2,
            );
            config.tenant = tenant.to_owned();
            config.database = database.to_owned();
            config.metadata = convert_metadata(&req.metadata);
            Ok(Creation::New(config))
        },
    }
}

/// What is wrong with the number of ids of a request, if anything is.
pub open spec fn batch_verdict(ids: nat) -> Option<InvalidView> {
    if ids == 0 {
        Some(InvalidView::EmptyIds)
    } else if ids > MAX_BATCH_SIZE {
        Some(InvalidView::BatchTooLarge { len: ids as usize })
    } else {
        None
    }
}

/// Checks the number of ids of a request.
pub fn validate_batch(ids: usize) -> (r: EngineResult<()>)
    ensures
        api::checked(r, batch_verdict(ids as nat)),
{
    if ids == 0 {
        return refuse(Invalid::EmptyIds);
    }
    if ids > MAX_BATCH_SIZE {
        return refuse(Invalid::BatchTooLarge { len: ids });
    }
    Ok(())
}

/// The first id that is empty or too long.
pub open spec fn first_bad_id(ids: Seq<Seq<char>>) -> Option<InvalidView>
    decreases ids.len(),
{
    if ids.len() == 0 {
        None
    } else {
        match first_bad_id(ids.drop_last()) {
            Some(v) => Some(v),
            None => if ids.last().len() == 0 || api::byte_len(ids.last()) > MAX_ID_LENGTH {
                Some(InvalidView::InvalidIdLength { id: ids.last() })
            } else {
                None
            },
        }
    }
}

/// The first vector that is empty or too long.
pub open spec fn first_bad_vector(lengths: Seq<nat>) -> Option<InvalidView>
    decreases lengths.len(),
{
    if lengths.len() == 0 {
        None
    } else {
        match first_bad_vector(lengths.drop_last()) {
            Some(v) => Some(v),
            None => if lengths.last() == 0 || lengths.last() > MAX_DIMENSION {
                Some(InvalidView::InvalidEmbedding { len: lengths.last() as usize })
            } else {
                None
            },
        }
    }
}

proof fn lemma_bad_id_stays(ids: Seq<Seq<char>>, n: int)
    requires
        0 <= n <= ids.len(),
        first_bad_id(ids.take(n)) is Some,
    ensures
        first_bad_id(ids) == first_bad_id(ids.take(n)),
    decreases ids.len(),
{
    if n == ids.len() {
        assert(ids.take(n) =~= ids);
    } else {
        assert(ids.drop_last().take(n) =~= ids.take(n));
        lemma_bad_id_stays(ids.drop_last(), n);
    }
}

proof fn lemma_bad_vector_stays(lengths: Seq<nat>, n: int)
    requires
        0 <= n <= lengths.len(),
        first_bad_vector(lengths.take(n)) is Some,
    ensures
        first_bad_vector(lengths) == first_bad_vector(lengths.take(n)),
    decreases lengths.len(),
{
    if n == lengths.len() {
        assert(lengths.take(n) =~= lengths);
    } else {
        assert(lengths.drop_last().take(n) =~= lengths.take(n));
        lemma_bad_vector_stays(lengths.drop_last(), n);
    }
}

fn check_ids(ids: &Vec<String>) -> (r: EngineResult<()>)
    ensures
        api::checked(r, first_bad_id(text::views(ids@))),
{
    let ghost all = text::views(ids@);
    let mut i: usize = 0;
    while i < ids.len()
        invariant
            i <= ids.len(),
            all == text::views(ids@),
            first_bad_id(all.take(i as int)) is None,
        decreases ids.len() - i,
    {
        proof {
            assert(all.take(i + 1).drop_last() =~= all.take(i as int));
            assert(all.take(i + 1).last() == all[i as int]);
        }
        let id: &str = ids[i].as_str();
        if id.is_empty() || id.len() > MAX_ID_LENGTH {
            proof {
                lemma_bad_id_stays(all, i + 1);
            }
            return refuse(Invalid::InvalidIdLength { id: ids[i].clone() });
        }
        i += 1;
    }
    assert(all.take(ids@.len() as int) =~= all);
    Ok(())
}

fn check_vectors(embeddings: &Vec<Embedding>) -> (r: EngineResult<()>)
    ensures
        api::checked(r, first_bad_vector(validate::lengths(embeddings@))),
{
    let ghost all = validate::lengths(embeddings@);
    let mut i: usize = 0;
    while i < embeddings.len()
        invariant
            i <= embeddings.len(),
            all == validate::lengths(embeddings@),
            first_bad_vector(all.take(i as int)) is None,
        decreases embeddings.len() - i,
    {
        proof {
            assert(all.take(i + 1).drop_last() =~= all.take(i as int));
            assert(all.take(i + 1).last() == all[i as int]);
        }
        let len: usize = embeddings[i].len();
        if len == 0 || len > MAX_DIMENSION {
            proof {
                lemma_bad_vector_stays(all, i + 1);
            }
            return refuse(Invalid::InvalidEmbedding { len });
        }
        i += 1;
    }
    assert(all.take(embeddings@.len() as int) =~= all);
    Ok(())
}

/// What is wrong with a client's request to write records, if anything is.
pub open spec fn add_verdict(
    ids: Seq<Seq<char>>,
    embeddings: Seq<nat>,
    metadatas: Option<nat>,
    documents: Option<nat>,
) -> Option<InvalidView> {
    if batch_verdict(ids.len()) is Some {
        batch_verdict(ids.len())
    } else if ids.len() != embeddings.len() {
        Some(
            InvalidView::IdsEmbeddings {
                ids: ids.len() as usize,
                embeddings: embeddings.len() as usize,
            },
        )
    } else if first_bad_id(ids) is Some {
        first_bad_id(ids)
    } else if first_bad_vector(embeddings) is Some {
        first_bad_vector(embeddings)
    } else {
        api::parts_verdict(metadatas, documents, ids.len())
    }
}

/// Checks a client's request to write records.
pub fn validate_chroma_add(req: &ChromaAddRequest) -> (r: EngineResult<()>)
    ensures
        api::checked(
            r,
            add_verdict(
                text::views(req.ids@),
                validate::lengths(req.embeddings@),
                validate::count_of(req.metadatas),
                validate::count_of(req.documents),
            ),
        ),
{
    let a: EngineResult<()> = validate_batch(req.ids.len());
    if a.is_err() {
        return a;
    }
    if req.ids.len() != req.embeddings.len() {
        return refuse(
            Invalid::IdsEmbeddings { ids: req.ids.len(), embeddings: req.embeddings.len() },
        );
    }
    let b: EngineResult<()> = check_ids(&req.ids);
    if b.is_err() {
        return b;
    }
    let c: EngineResult<()> = check_vectors(&req.embeddings);
    if c.is_err() {
        return c;
    }
    validate_parts(&req.metadatas, &req.documents, req.ids.len())
}

/// What is wrong with a client's search, if anything is.
pub open spec fn query_verdict(queries: nat, n_results: usize) -> Option<InvalidView> {
    if queries == 0 {
        Some(InvalidView::EmptyQueries)
    } else if queries > MAX_QUERY_EMBEDDINGS {
        Some(InvalidView::TooManyQueries { len: queries as usize })
    } else if n_results == 0 || n_results > MAX_N_RESULTS {
        Some(InvalidView::ResultsOutOfRange { n: n_results })
    } else {
        None
    }
}

/// Checks a client's search.
pub fn validate_chroma_query(req: &ChromaQueryRequest) -> (r: EngineResult<()>)
    ensures
        api::checked(r, query_verdict(req.query_embeddings@.len(), req.n_results)),
{
    if req.query_embeddings.len() == 0 {
        return refuse(Invalid::EmptyQueries);
    }
    if req.query_embeddings.len() > MAX_QUERY_EMBEDDINGS {
        return refuse(Invalid::TooManyQueries { len: req.query_embeddings.len() });
    }
    if req.n_results == 0 || req.n_results > MAX_N_RESULTS {
        return refuse(Invalid::ResultsOutOfRange { n: req.n_results });
    }
    Ok(())
}

// ---------------------------------------------------------------------------
// The shape of results
// ---------------------------------------------------------------------------

/// The metadata of results as a client sees it.
pub open spec fn flat_row(row: Seq<Option<Json>>, results: Seq<ScoredPoint>) -> bool {
    &&& row.len() == results.len()
    &&& forall|i: int|
        0 <= i < row.len() ==> flattens_opt(#[trigger] row[i], types::meta_opt(results[i].metadata))
}

fn make_flat_row(results: &Vec<ScoredPoint>) -> (row: Vec<Option<Json>>)
    ensures
        flat_row(row@, results@),
{
    let mut row: Vec<Option<Json>> = Vec::new();
    let mut i: usize = 0;
    while i < results.len()
        invariant
            i <= results.len(),
            row@.len() == i,
            forall|j: int|
                0 <= j < i ==> flattens_opt(#[trigger] row@[j], types::meta_opt(results@[j].metadata)),
        decreases results.len() - i,
    {
        row.push(flatten_metadata(&results[i].metadata));
        i += 1;
    }
    row
}

/// The results of a search as a client sees them: a list per query vector, as
/// long as its results; distances, metadata and documents only where asked for.
pub fn shape_query(all: &Vec<Vec<ScoredPoint>>, included: &Vec<String>) -> (r: ChromaQueryResponse)
    ensures
        r.ids@.len() == all@.len(),
        forall|q: int| 0 <= q < all@.len() ==> api::ids_row((#[trigger] r.ids@[q])@, all@[q]@, 0),
        r.distances is Some <==> text::views(included@).contains("distances"@),
        r.distances matches Some(d) ==> d@.len() == all@.len() && forall|q: int|
            0 <= q < all@.len() ==> api::distances_row((#[trigger] d@[q])@, all@[q]@, 0),
        r.metadatas is Some <==> text::views(included@).contains("metadatas"@),
        r.metadatas matches Some(m) ==> m@.len() == all@.len() && forall|q: int|
            0 <= q < all@.len() ==> flat_row((#[trigger] m@[q])@, all@[q]@),
        r.documents is Some <==> text::views(included@).contains("documents"@),
        r.documents matches Some(d) ==> d@.len() == all@.len() && forall|q: int|
            0 <= q < all@.len() ==> api::documents_row((#[trigger] d@[q])@, all@[q]@, 0),
{
    let want_distances: bool = asks_for(included, "distances");
    let want_metadatas: bool = asks_for(included, "metadatas");
    let want_documents: bool = asks_for(included, "documents");
    let mut ids: Vec<Vec<String>> = Vec::new();
    let mut distances: Vec<Vec<F32>> = Vec::new();
    let mut metadatas: Vec<Vec<Option<Json>>> = Vec::new();
    let mut documents: Vec<Vec<Option<String>>> = Vec::new();
    let mut q: usize = 0;
    while q < all.len()
        invariant
            q <= all.len(),
            ids@.len() == q,
            distances@.len() == q,
            metadatas@.len() == q,
            documents@.len() == q,
            forall|j: int| 0 <= j < q ==> api::ids_row((#[trigger] ids@[j])@, all@[j]@, 0),
            want_distances ==> forall|j: int|
                0 <= j < q ==> api::distances_row((#[trigger] distances@[j])@, all@[j]@, 0),
            want_metadatas ==> forall|j: int|
                0 <= j < q ==> flat_row((#[trigger] metadatas@[j])@, all@[j]@),
            want_documents ==> forall|j: int|
                0 <= j < q ==> api::documents_row((#[trigger] documents@[j])@, all@[j]@, 0),
        decreases all.len() - q,
    {
        ids.push(api::make_ids_row(&all[q], 0));
        distances.push(
            if want_distances {
                api::make_distances_row(&all[q], 0)
            } else {
                Vec::new()
            },
        );
        metadatas.push(
            if want_metadatas {
                make_flat_row(&all[q])
            } else {
                Vec::new()
            },
        );
        documents.push(
            if want_documents {
                api::make_documents_row(&all[q], 0)
            } else {
                Vec::new()
            },
        );
        q += 1;
    }
    ChromaQueryResponse {
        ids,
        distances: if want_distances {
            Some(distances)
        } else {
            None
        },
        metadatas: if want_metadatas {
            Some(metadatas)
        } else {
            None
        },
        documents: if want_documents {
            Some(documents)
        } else {
            None
        },
    }
}

/// Records as a client sees them: the ids, and on demand the vectors, of those
/// that were found; metadata and documents for every id that was asked for.
pub fn shape_records(records: &Vec<Option<Record>>, included: &Vec<String>) -> (r: ChromaGetResponse)
    ensures
        text::views(r.ids@) == api::found_ids(records@),
        r.embeddings is Some <==> text::views(included@).contains("embeddings"@),
        r.embeddings matches Some(e) ==> api::vector_views(e@) == api::found_vectors(records@),
        r.metadatas matches Some(m) && m@.len() == records@.len() && forall|i: int|
            0 <= i < records@.len() ==> flattens_opt(#[trigger] m@[i], api::found_meta(records@[i])),
        r.documents matches Some(d) && d@.len() == records@.len() && forall|i: int|
            0 <= i < records@.len() ==> types::text_opt(#[trigger] d@[i]) == api::found_text(records@[i]),
{
    let plain: api::GetResponse = api::shape_records(records, included);
    let mut metadatas: Vec<Option<Json>> = Vec::new();
    let mut i: usize = 0;
    while i < records.len()
        invariant
            i <= records.len(),
            metadatas@.len() == i,
            forall|j: int|
                0 <= j < i ==> flattens_opt(#[trigger] metadatas@[j], api::found_meta(records@[j])),
        decreases records.len() - i,
    {
        match &records[i] {
            Some(r) => {
                metadatas.push(flatten_metadata(&r.metadata));
            },
            None => {
                metadatas.push(None);
            },
        }
        i += 1;
    }
    ChromaGetResponse {
        ids: plain.ids,
        embeddings: plain.embeddings,
        metadatas: Some(metadatas),
        documents: plain.documents,
    }
}

/// The JSON form of a metadata value stands for that value: read as filters read
/// JSON, it gives the value back. A double that is not finite has no JSON form
/// and is null.
pub proof fn flat_values_are_read_back(v: MetaView)
    ensures
        !(v is Float) ==> filter::meta_of(flat_value(v)) == Result::<MetaView, WhereErrorView>::Ok(v),
        v matches MetaView::Float(f) ==> if f.bits % 0x8000_0000_0000_0000 < 0x7FF0_0000_0000_0000 {
            filter::meta_of(flat_value(v)) == Result::<MetaView, WhereErrorView>::Ok(v)
        } else {
            flat_value(v) is Null
        },
        v matches MetaView::Str(s) ==> flat_value(v) == JsonView::Text(s),
        v matches MetaView::Bool(b) ==> flat_value(v) == JsonView::Bool(b),
{
}

/// Different values have different JSON forms, unless both are doubles that are
/// not finite.
pub proof fn flat_values_are_told_apart(v: MetaView, w: MetaView)
    requires
        flat_value(v) == flat_value(w),
    ensures
        v == w || (flat_value(v) is Null && v is Float && w is Float),
{
    flat_values_are_read_back(v);
    flat_values_are_read_back(w);
}

/// What a client sees of metadata tells what was stored: two records whose JSON
/// objects are the same have the same names, and under each the same value
/// unless it is a double that is not finite.
pub proof fn flat_metadata_is_faithful(
    j: JsonView,
    a: Map<Seq<char>, MetaView>,
    b: Map<Seq<char>, MetaView>,
    name: Seq<char>,
)
    requires
        flattens(j, a),
        flattens(j, b),
    ensures
        a.contains_key(name) == b.contains_key(name),
        a.contains_key(name) ==> flat_value(a[name]) == flat_value(b[name]),
        a.contains_key(name) && !(a[name] is Float) ==> a[name] == b[name],
{
    let o = j->Object_0;
    if a.contains_key(name) {
        let i = choose|i: int| 0 <= i < o.len() && (#[trigger] o[i]).0 == name;
        assert(b.contains_key(o[i].0));
        flat_values_are_told_apart(a[name], b[name]);
    }
    if b.contains_key(name) {
        let i = choose|i: int| 0 <= i < o.len() && (#[trigger] o[i]).0 == name;
        assert(a.contains_key(o[i].0));
    }
}

/// What a client sends is what it sees: metadata that was taken over from a
/// client has the last value of each name.
pub proof fn sent_metadata_is_stored(m: Seq<(String, ChromaMetadataValue)>, i: int)
    requires
        0 <= i < m.len(),
        forall|j: int| i < j < m.len() ==> (#[trigger] m[j]).0@ != m[i].0@,
    ensures
        meta_map(m).contains_key(m[i].0@),
        meta_map(m)[m[i].0@] == m[i].1@,
    decreases m.len(),
{
    if i < m.len() - 1 {
        let rest = m.drop_last();
        assert forall|j: int| i < j < rest.len() implies (#[trigger] rest[j]).0@ != rest[i].0@ by {
            assert(rest[j] == m[j]);
        }
        sent_metadata_is_stored(rest, i);
        assert(m[m.len() - 1].0@ != m[i].0@);
    }
}

/// No name comes into metadata that a client did not send.
pub proof fn only_sent_metadata_is_stored(m: Seq<(String, ChromaMetadataValue)>, name: Seq<char>)
    requires
        meta_map(m).contains_key(name),
    ensures
        exists|i: int| 0 <= i < m.len() && (#[trigger] m[i]).0@ == name,
    decreases m.len(),
{
    if m.last().0@ == name {
        assert(m[m.len() - 1].0@ == name);
    } else {
        let rest = m.drop_last();
        only_sent_metadata_is_stored(rest, name);
        let i = choose|i: int| 0 <= i < rest.len() && (#[trigger] rest[i]).0@ == name;
        assert(m[i].0@ == name);
    }
}

proof fn lemma_good_ids(ids: Seq<Seq<char>>)
    ensures
        first_bad_id(ids) is None <==> forall|i: int|
            0 <= i < ids.len() ==> (#[trigger] ids[i]).len() > 0 && api::byte_len(ids[i]) <= 512,
    decreases ids.len(),
{
    if ids.len() > 0 {
        let rest = ids.drop_last();
        lemma_good_ids(rest);
        assert(ids[ids.len() - 1] == ids.last());
        assert forall|i: int| 0 <= i < rest.len() implies #[trigger] rest[i] == ids[i] by {}
        if first_bad_id(ids) is None {
            assert forall|i: int| 0 <= i < ids.len() implies (#[trigger] ids[i]).len() > 0 && api::byte_len(
                ids[i],
            ) <= 512 by {
                if i < rest.len() {
                    assert(rest[i] == ids[i]);
                }
            }
        }
        if forall|i: int|
            0 <= i < ids.len() ==> (#[trigger] ids[i]).len() > 0 && api::byte_len(ids[i]) <= 512 {
            assert forall|i: int| 0 <= i < rest.len() implies (#[trigger] rest[i]).len() > 0
                && api::byte_len(rest[i]) <= 512 by {
                assert(rest[i] == ids[i]);
            }
        }
    }
}

proof fn lemma_good_vectors(lengths: Seq<nat>)
    ensures
        first_bad_vector(lengths) is None <==> forall|i: int|
            0 <= i < lengths.len() ==> 1 <= #[trigger] lengths[i] <= 65536,
    decreases lengths.len(),
{
    if lengths.len() > 0 {
        let rest = lengths.drop_last();
        lemma_good_vectors(rest);
        assert(lengths[lengths.len() - 1] == lengths.last());
        assert forall|i: int| 0 <= i < rest.len() implies #[trigger] rest[i] == lengths[i] by {}
        if first_bad_vector(lengths) is None {
            assert forall|i: int| 0 <= i < lengths.len() implies 1 <= #[trigger] lengths[i] <= 65536 by {
                if i < rest.len() {
                    assert(rest[i] == lengths[i]);
                }
            }
        }
        if forall|i: int| 0 <= i < lengths.len() ==> 1 <= #[trigger] lengths[i] <= 65536 {
            assert forall|i: int| 0 <= i < rest.len() implies 1 <= #[trigger] rest[i] <= 65536 by {
                assert(rest[i] == lengths[i]);
            }
        }
    }
}

/// A client's write is accepted with 1 to 10000 ids of 1 to 512 bytes, as many
/// vectors of 1 to 65536 components, and metadata and documents that go with
/// them, and with nothing else.
pub proof fn writes_within_bounds_are_accepted(
    ids: Seq<Seq<char>>,
    embeddings: Seq<nat>,
    metadatas: Option<nat>,
    documents: Option<nat>,
)
    ensures
        add_verdict(ids, embeddings, metadatas, documents) is None <==> {
            &&& 1 <= ids.len() <= 10000
            &&& embeddings.len() == ids.len()
            &&& forall|i: int|
                0 <= i < ids.len() ==> (#[trigger] ids[i]).len() > 0 && api::byte_len(ids[i]) <= 512
            &&& forall|i: int| 0 <= i < embeddings.len() ==> 1 <= #[trigger] embeddings[i] <= 65536
            &&& metadatas matches Some(n) ==> n == ids.len()
            &&& documents matches Some(n) ==> n == ids.len()
        },
        batch_verdict(ids.len()) is None <==> 1 <= ids.len() <= 10000,
{
    lemma_good_ids(ids);
    lemma_good_vectors(embeddings);
}

/// A client's search is accepted with 1 to 100 query vectors and 1 to 1000
/// results, and with nothing else.
pub proof fn searches_within_bounds_are_accepted(queries: nat, n_results: usize)
    ensures
        query_verdict(queries, n_results) is None <==> 1 <= queries <= 100 && 1 <= n_results <= 1000,
{
}

/// A value that a client sends is stored as it is, and two values that are
/// stored alike were sent alike.
pub proof fn sent_values_are_kept(v: ChromaMetadataValue, stored: MetadataValue)
    requires
        stored@ == v@,
    ensures
        v matches ChromaMetadataValue::Str(s) ==> (stored matches MetadataValue::Str(t) && t@ == s@),
        v matches ChromaMetadataValue::Bool(b) ==> (stored matches MetadataValue::Bool(c) && c == b),
        v matches ChromaMetadataValue::Int(i) ==> (stored matches MetadataValue::Int(k) && k == i),
        v matches ChromaMetadataValue::Float(f) ==> (stored matches MetadataValue::Float(g) && g == f),
{
}

/// Metadata that is not sent is not stored, and what is sent is.
pub proof fn missing_metadata_stays_missing(m: ChromaMetadata)
    ensures
        meta_map_opt(Some(m)) == Some(meta_map(m@)),
        meta_map_opt(None) is None,
{
}

/// A search shows the metadata of each record in the record's place: nothing
/// where it has none, else its entries and no others, each under its name as the
/// value that it is.
pub proof fn shown_metadata_is_the_records_own(
    row: Seq<Option<Json>>,
    results: Seq<ScoredPoint>,
    i: int,
    name: Seq<char>,
)
    requires
        flat_row(row, results),
        0 <= i < results.len(),
    ensures
        row.len() == results.len(),
        row[i] is Some <==> results[i].metadata is Some,
        row[i] matches Some(j) ==> {
            let m = results[i].metadata->0@;
            &&& m.contains_key(name) <==> j@.member(name) is Some
            &&& j@.member(name) matches Some(v) ==> v == flat_value(m[name])
        },
{
    assert(flattens_opt(row[i], types::meta_opt(results[i].metadata)));
    if let Some(j) = row[i] {
        let m = results[i].metadata->0@;
        lemma_flat_member(j@, m, name);
    }
}

proof fn lemma_flat_member(j: JsonView, m: Map<Seq<char>, MetaView>, name: Seq<char>)
    requires
        flattens(j, m),
    ensures
        m.contains_key(name) <==> j.member(name) is Some,
        j.member(name) matches Some(v) ==> v == flat_value(m[name]),
{
    let members = j->Object_0;
    if m.contains_key(name) {
        let k = choose|k: int| 0 <= k < members.len() && (#[trigger] members[k]).0 == name;
        assert forall|x: int| 0 <= x < k implies (#[trigger] members[x]).0 != name by {
            assert(members[x].0 != members[k].0);
        }
        json::members_are_found_by_name(j, name, k);
    } else {
        assert forall|x: int| 0 <= x < members.len() implies (#[trigger] members[x]).0 != name by {
            assert(m.contains_key(members[x].0));
        }
        json::members_are_found_by_name(j, name, 0);
    }
}

/// A record that is read shows its own metadata, and one without any nothing.
pub proof fn read_metadata_is_the_records_own(
    shown: Option<Json>,
    m: Option<Map<Seq<char>, MetaView>>,
    name: Seq<char>,
)
    requires
        flattens_opt(shown, m),
    ensures
        shown is Some <==> m is Some,
        shown matches Some(j) ==> (m->0.contains_key(name) <==> j@.member(name) is Some) && (j@.member(name) matches Some(
            v,
        ) ==> v == flat_value(m->0[name])),
{
    if let Some(j) = shown {
        lemma_flat_member(j@, m->0, name);
    }
}

} // verus!
