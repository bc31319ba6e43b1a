//! Errors of the engine and their messages.

use vstd::prelude::*;
use vstd::string::*;

use crate::catalog::CatalogError;
use crate::index::IndexError;
use crate::segment::SegmentError;
use crate::storage::StorageError;
use crate::text;
use crate::text::{decimal, glue};
use crate::wal::WalError;

verus! {

/// The operation that a batch was meant for.
#[derive(Debug, Clone, Copy, PartialEq, Eq, Structural)]
pub enum Verb {
    Add,
    Upsert,
    Update,
    Query,
}

/// The list of a batch that does not fit its ids.
#[derive(Debug, Clone, Copy, PartialEq, Eq, Structural)]
pub enum Part {
    Embeddings,
    Metadatas,
    Documents,
}

impl Verb {
    pub open spec fn label(self) -> Seq<char> {
        match self {
            Verb::Add => "add"@,
            Verb::Upsert => "upsert"@,
            Verb::Update => "update"@,
            Verb::Query => "query"@,
        }
    }

    fn name(&self) -> (r: &'static str)
        ensures
            r@ == self.label(),
    {
        match self {
            Verb::Add => "add",
            Verb::Upsert => "upsert",
            Verb::Update => "update",
            Verb::Query => "query",
        }
    }
}

impl Part {
    pub open spec fn label(self) -> Seq<char> {
        match self {
            Part::Embeddings => "embeddings"@,
            Part::Metadatas => "metadatas"@,
            Part::Documents => "documents"@,
        }
    }

    fn name(&self) -> (r: &'static str)
        ensures
            r@ == self.label(),
    {
        match self {
            Part::Embeddings => "embeddings",
            Part::Metadatas => "metadatas",
            Part::Documents => "documents",
        }
    }
}

/// Why a request is refused. Nothing of a refused request is written.
#[derive(Debug, PartialEq)]
pub enum Invalid {
    /// The lists of a batch differ in length.
    Counts { op: Verb, ids: usize, other: usize, what: Part },
    /// A vector has another dimension than the collection.
    Dimension { op: Verb, got: usize, dimension: usize },
    /// An added id already exists.
    AlreadyExists { id: String },
    /// An added id occurs twice in the batch.
    DuplicateInBatch { id: String },
    /// An updated id does not exist.
    UpdateNotFound { id: String },
    /// An id does not exist.
    UnknownId { id: String },
    /// A collection name is empty.
    EmptyName,
    /// A collection name is too long.
    NameTooLong,
    /// A batch has no ids.
    EmptyIds,
    /// A batch has too many ids.
    BatchTooLarge { len: usize },
    /// An id is empty.
    EmptyId,
    /// An id is too long.
    IdTooLong { id: String },
    /// A batch has no vectors.
    EmptyEmbeddings,
    /// A vector has no components.
    EmptyEmbedding,
    /// A vector has too many components.
    EmbeddingTooLong { len: usize },
    /// Ids and vectors differ in number.
    IdsEmbeddings { ids: usize, embeddings: usize },
    /// Ids and another list differ in number.
    PartIds { what: Part, len: usize, ids: usize },
    /// A search has no query vectors.
    EmptyQueries,
    /// A search has too many query vectors.
    TooManyQueries { len: usize },
    /// A search asks for no results.
    NoResults,
    /// A search asks for too many results.
    TooManyResults { n: usize },
    /// A query vector has no components.
    EmptyQuery,
    /// A query vector has too many components.
    QueryTooLong { len: usize },
    /// A collection's dimension is too large.
    DimensionTooLarge { dimension: usize },
    /// An id is empty or too long.
    InvalidIdLength { id: String },
    /// A vector has no components or too many.
    InvalidEmbedding { len: usize },
    /// A search asks for a number of results out of range.
    ResultsOutOfRange { n: usize },
    /// The cluster did not take up a new collection.
    CreationNotReplicated { cause: String },
    /// The cluster did not take up a deletion.
    DeletionNotReplicated { cause: String },
}

/// A refusal as a mathematical value.
pub enum InvalidView {
    Counts { op: Verb, ids: usize, other: usize, what: Part },
    Dimension { op: Verb, got: usize, dimension: usize },
    AlreadyExists { id: Seq<char> },
    DuplicateInBatch { id: Seq<char> },
    UpdateNotFound { id: Seq<char> },
    UnknownId { id: Seq<char> },
    EmptyName,
    NameTooLong,
    EmptyIds,
    BatchTooLarge { len: usize },
    EmptyId,
    IdTooLong { id: Seq<char> },
    EmptyEmbeddings,
    EmptyEmbedding,
    EmbeddingTooLong { len: usize },
    IdsEmbeddings { ids: usize, embeddings: usize },
    PartIds { what: Part, len: usize, ids: usize },
    EmptyQueries,
    TooManyQueries { len: usize },
    NoResults,
    TooManyResults { n: usize },
    EmptyQuery,
    QueryTooLong { len: usize },
    DimensionTooLarge { dimension: usize },
    InvalidIdLength { id: Seq<char> },
    InvalidEmbedding { len: usize },
    ResultsOutOfRange { n: usize },
    CreationNotReplicated { cause: Seq<char> },
    DeletionNotReplicated { cause: Seq<char> },
}

impl View for Invalid {
    type V = InvalidView;

    open spec fn view(&self) -> InvalidView {
        match self {
            Invalid::Counts { op, ids, other, what } => InvalidView::Counts { op: *op, ids: *ids, other: *other, what: *what },
            Invalid::Dimension { op, got, dimension } => InvalidView::Dimension { op: *op, got: *got, dimension: *dimension },
            Invalid::AlreadyExists { id } => InvalidView::AlreadyExists { id: id@ },
            Invalid::DuplicateInBatch { id } => InvalidView::DuplicateInBatch { id: id@ },
            Invalid::UpdateNotFound { id } => InvalidView::UpdateNotFound { id: id@ },
            Invalid::UnknownId { id } => InvalidView::UnknownId { id: id@ },
            Invalid::EmptyName => InvalidView::EmptyName,
            Invalid::NameTooLong => InvalidView::NameTooLong,
            Invalid::EmptyIds => InvalidView::EmptyIds,
            Invalid::BatchTooLarge { len } => InvalidView::BatchTooLarge { len: *len },
            Invalid::EmptyId => InvalidView::EmptyId,
            Invalid::IdTooLong { id } => InvalidView::IdTooLong { id: id@ },
            Invalid::EmptyEmbeddings => InvalidView::EmptyEmbeddings,
            Invalid::EmptyEmbedding => InvalidView::EmptyEmbedding,
            Invalid::EmbeddingTooLong { len } => InvalidView::EmbeddingTooLong { len: *len },
            Invalid::IdsEmbeddings { ids, embeddings } => InvalidView::IdsEmbeddings { ids: *ids, embeddings: *embeddings },
            Invalid::PartIds { what, len, ids } => InvalidView::PartIds { what: *what, len: *len, ids: *ids },
            Invalid::EmptyQueries => InvalidView::EmptyQueries,
            Invalid::TooManyQueries { len } => InvalidView::TooManyQueries { len: *len },
            Invalid::NoResults => InvalidView::NoResults,
            Invalid::TooManyResults { n } => InvalidView::TooManyResults { n: *n },
            Invalid::EmptyQuery => InvalidView::EmptyQuery,
            Invalid::QueryTooLong { len } => InvalidView::QueryTooLong { len: *len },
            Invalid::DimensionTooLarge { dimension } => InvalidView::DimensionTooLarge { dimension: *dimension },
            Invalid::InvalidIdLength { id } => InvalidView::InvalidIdLength { id: id@ },
            Invalid::InvalidEmbedding { len } => InvalidView::InvalidEmbedding { len: *len },
            Invalid::ResultsOutOfRange { n } => InvalidView::ResultsOutOfRange { n: *n },
            Invalid::CreationNotReplicated { cause } => InvalidView::CreationNotReplicated { cause: cause@ },
            Invalid::DeletionNotReplicated { cause } => InvalidView::DeletionNotReplicated { cause: cause@ },
        }
    }
}

impl InvalidView {
    /// The message that describes the refusal.
    pub open spec fn text(self) -> Seq<char> {
        match self {
            InvalidView::Counts { op, ids, other, what } => op.label() + ": "@ + text::decimal_text(ids as nat) + " ids but "@ + text::decimal_text(other as nat) + " "@ + what.label(),
            InvalidView::Dimension { op, got, dimension } => op.label() + ": embedding dimension "@ + text::decimal_text(got as nat) + " != collection dimension "@ + text::decimal_text(dimension as nat),
            InvalidView::AlreadyExists { id } => "add: id `"@ + id + "` already exists"@,
            InvalidView::DuplicateInBatch { id } => "add: duplicate id `"@ + id + "` within the batch"@,
            InvalidView::UpdateNotFound { id } => "update: id `"@ + id + "` not found"@,
            InvalidView::UnknownId { id } => "id `"@ + id + "` not found"@,
            InvalidView::EmptyName => "name must not be empty"@,
            InvalidView::NameTooLong => "name exceeds max length 512"@,
            InvalidView::EmptyIds => "ids must not be empty"@,
            InvalidView::BatchTooLarge { len } => "batch size "@ + text::decimal_text(len as nat) + " exceeds max 10000"@,
            InvalidView::EmptyId => "id must not be empty"@,
            InvalidView::IdTooLong { id } => "id exceeds max length 512: "@ + id,
            InvalidView::EmptyEmbeddings => "embeddings must not be empty"@,
            InvalidView::EmptyEmbedding => "embedding must not be empty"@,
            InvalidView::EmbeddingTooLong { len } => "embedding dimension "@ + text::decimal_text(len as nat) + " exceeds max 65536"@,
            InvalidView::IdsEmbeddings { ids, embeddings } => "ids len "@ + text::decimal_text(ids as nat) + " != embeddings len "@ + text::decimal_text(embeddings as nat),
            InvalidView::PartIds { what, len, ids } => what.label() + " len "@ + text::decimal_text(len as nat) + " != ids len "@ + text::decimal_text(ids as nat),
            InvalidView::EmptyQueries => "query_embeddings must not be empty"@,
            InvalidView::TooManyQueries { len } => "query_embeddings len "@ + text::decimal_text(len as nat) + " exceeds max 100"@,
            InvalidView::NoResults => "n_results must be >= 1"@,
            InvalidView::TooManyResults { n } => "n_results "@ + text::decimal_text(n as nat) + " exceeds max 1000"@,
            InvalidView::EmptyQuery => "query embedding must not be empty"@,
            InvalidView::QueryTooLong { len } => "query embedding dimension "@ + text::decimal_text(len as nat) + " exceeds max 65536"@,
            InvalidView::DimensionTooLarge { dimension } => "dimension "@ + text::decimal_text(dimension as nat) + " exceeds max 65536"@,
            InvalidView::InvalidIdLength { id } => "invalid id length: "@ + id,
            InvalidView::InvalidEmbedding { len } => "embedding dimension "@ + text::decimal_text(len as nat) + " invalid (max 65536)"@,
            InvalidView::ResultsOutOfRange { n } => "n_results "@ + text::decimal_text(n as nat) + " out of range 1..=1000"@,
            InvalidView::CreationNotReplicated { cause } => "failed to replicate collection creation: "@ + cause,
            InvalidView::DeletionNotReplicated { cause } => "failed to replicate collection deletion: "@ + cause,
        }
    }
}

impl Invalid {
    /// The message that describes the refusal.
    pub fn message(&self) -> (r: String)
        ensures
            r@ == self@.text(),
    {
        match self {
            Invalid::Counts { op, ids, other, what } => {
                let mut s: String = op.name().to_owned();
                s.append(": ");
                s.append(decimal(*ids as u64).as_str());
                s.append(" ids but ");
                s.append(decimal(*other as u64).as_str());
                s.append(" ");
                s.append(what.name());
                s
            },
            Invalid::Dimension { op, got, dimension } => {
                let mut s: String = op.name().to_owned();
                s.append(": embedding dimension ");
                s.append(decimal(*got as u64).as_str());
                s.append(" != collection dimension ");
                s.append(decimal(*dimension as u64).as_str());
                s
            },
            Invalid::AlreadyExists { id } => {
                let mut s: String = "add: id `".to_owned();
                s.append(id.as_str());
                s.append("` already exists");
                s
            },
            Invalid::DuplicateInBatch { id } => {
                let mut s: String = "add: duplicate id `".to_owned();
                s.append(id.as_str());
                s.append("` within the batch");
                s
            },
            Invalid::UpdateNotFound { id } => {
                let mut s: String = "update: id `".to_owned();
                s.append(id.as_str());
                s.append("` not found");
                s
            },
            Invalid::UnknownId { id } => {
                let mut s: String = "id `".to_owned();
                s.append(id.as_str());
                s.append("` not found");
                s
            },
            Invalid::EmptyName => "name must not be empty".to_owned(),
            Invalid::NameTooLong => "name exceeds max length 512".to_owned(),
            Invalid::EmptyIds => "ids must not be empty".to_owned(),
            Invalid::BatchTooLarge { len } => {
                let mut s: String = "batch size ".to_owned();
                s.append(decimal(*len as u64).as_str());
                s.append(" exceeds max 10000");
                s
            },
            Invalid::EmptyId => "id must not be empty".to_owned(),
            Invalid::IdTooLong { id } => {
                let mut s: String = "id exceeds max length 512: ".to_owned();
                s.append(id.as_str());
                s
            },
            Invalid::EmptyEmbeddings => "embeddings must not be empty".to_owned(),
            Invalid::EmptyEmbedding => "embedding must not be empty".to_owned(),
            Invalid::EmbeddingTooLong { len } => {
                let mut s: String = "embedding dimension ".to_owned();
                s.append(decimal(*len as u64).as_str());
                s.append(" exceeds max 65536");
                s
            },
            Invalid::IdsEmbeddings { ids, embeddings } => {
                let mut s: String = "ids len ".to_owned();
                s.append(decimal(*ids as u64).as_str());
                s.append(" != embeddings len ");
                s.append(decimal(*embeddings as u64).as_str());
                s
            },
            Invalid::PartIds { what, len, ids } => {
                let mut s: String = what.name().to_owned();
                s.append(" len ");
                s.append(decimal(*len as u64).as_str());
                s.append(" != ids len ");
                s.append(decimal(*ids as u64).as_str());
                s
            },
            Invalid::EmptyQueries => "query_embeddings must not be empty".to_owned(),
            Invalid::TooManyQueries { len } => {
                let mut s: String = "query_embeddings len ".to_owned();
                s.append(decimal(*len as u64).as_str());
                s.append(" exceeds max 100");
                s
            },
            Invalid::NoResults => "n_results must be >= 1".to_owned(),
            Invalid::TooManyResults { n } => {
                let mut s: String = "n_results ".to_owned();
                s.append(decimal(*n as u64).as_str());
                s.append(" exceeds max 1000");
                s
            },
            Invalid::EmptyQuery => "query embedding must not be empty".to_owned(),
            Invalid::QueryTooLong { len } => {
                let mut s: String = "query embedding dimension ".to_owned();
                s.append(decimal(*len as u64).as_str());
                s.append(" exceeds max 65536");
                s
            },
            Invalid::DimensionTooLarge { dimension } => {
                let mut s: String = "dimension ".to_owned();
                s.append(decimal(*dimension as u64).as_str());
                s.append(" exceeds max 65536");
                s
            },
            Invalid::InvalidIdLength { id } => {
                let mut s: String = "invalid id length: ".to_owned();
                s.append(id.as_str());
                s
            },
            Invalid::InvalidEmbedding { len } => {
                let mut s: String = "embedding dimension ".to_owned();
                s.append(decimal(*len as u64).as_str());
                s.append(" invalid (max 65536)");
                s
            },
            Invalid::ResultsOutOfRange { n } => {
                let mut s: String = "n_results ".to_owned();
                s.append(decimal(*n as u64).as_str());
                s.append(" out of range 1..=1000");
                s
            },
            Invalid::CreationNotReplicated { cause } => {
                let mut s: String = "failed to replicate collection creation: ".to_owned();
                s.append(cause.as_str());
                s
            },
            Invalid::DeletionNotReplicated { cause } => {
                let mut s: String = "failed to replicate collection deletion: ".to_owned();
                s.append(cause.as_str());
                s
            },
        }
    }
}

/// Errors of the engine.
#[derive(Debug, PartialEq)]
pub enum EngineError {
    /// The catalog failed.
    Catalog(CatalogError),
    /// The log failed.
    Wal(WalError),
    /// The index failed.
    Index(IndexError),
    /// A segment file is damaged.
    Segment(SegmentError),
    /// A file could not be read or written, with this message.
    Io(String),
    /// The object store failed.
    Storage(StorageError),
    /// State could not be written or read, with this message.
    Serialization(String),
    /// The engine holds no such collection.
    CollectionNotFound(String),
    /// The request is refused.
    Validation(Invalid),
}

/// An engine error as a mathematical value.
pub enum EngineErrorView {
    Catalog(CatalogError),
    Wal(WalError),
    Index(IndexError),
    Segment(SegmentError),
    Io(Seq<char>),
    Storage(StorageError),
    Serialization(Seq<char>),
    CollectionNotFound(Seq<char>),
    Validation(InvalidView),
}

impl View for EngineError {
    type V = EngineErrorView;

    open spec fn view(&self) -> EngineErrorView {
        match self {
            EngineError::Wal(e) => EngineErrorView::Wal(*e),
            EngineError::Index(e) => EngineErrorView::Index(*e),
            EngineError::Segment(e) => EngineErrorView::Segment(*e),
            EngineError::Catalog(e) => EngineErrorView::Catalog(*e),
            EngineError::Io(m) => EngineErrorView::Io(m@),
            EngineError::Storage(e) => EngineErrorView::Storage(*e),
            EngineError::Serialization(m) => EngineErrorView::Serialization(m@),
            EngineError::CollectionNotFound(s) => EngineErrorView::CollectionNotFound(s@),
            EngineError::Validation(v) => EngineErrorView::Validation(v@),
        }
    }
}

impl EngineErrorView {
    /// The message that describes the error.
    pub open spec fn text(self) -> Seq<char> {
        match self {
            EngineErrorView::Wal(e) => "wal: invalid WAL file: "@ + e->Corrupt_0.text(),
            EngineErrorView::Index(e) => "index: "@ + e.text(),
            EngineErrorView::Segment(e) => "serialization: "@ + e.text(),
            EngineErrorView::Catalog(e) => "catalog: "@ + e.text(),
            EngineErrorView::Io(m) => "io: "@ + m,
            EngineErrorView::Storage(e) => "storage: "@ + e.text(),
            EngineErrorView::Serialization(m) => "serialization: "@ + m,
            EngineErrorView::CollectionNotFound(s) => "collection `"@ + s + "` not found"@,
            EngineErrorView::Validation(v) => "validation: "@ + v.text(),
        }
    }

    /// The HTTP status that the error is answered with.
    pub open spec fn status(self) -> u16 {
        match self {
            EngineErrorView::CollectionNotFound(_) => 404,
            EngineErrorView::Validation(_) => 400,
            _ => 500,
        }
    }
}

impl EngineError {
    /// The message that describes the error.
    pub fn message(&self) -> (r: String)
        ensures
            r@ == self@.text(),
    {
        match self {
            EngineError::Wal(e) => {
                let mut s: String = "wal: ".to_owned();
                s.append(e.message().as_str());
                proof {
                    reveal_strlit("wal: ");
                    reveal_strlit("invalid WAL file: ");
                    reveal_strlit("wal: invalid WAL file: ");
                    assert("wal: "@ + "invalid WAL file: "@ =~= "wal: invalid WAL file: "@);
                    assert("wal: "@ + ("invalid WAL file: "@ + e->Corrupt_0.text())
                        =~= "wal: invalid WAL file: "@ + e->Corrupt_0.text());
                }
                s
            },
            EngineError::Index(e) => {
                let mut s: String = "index: ".to_owned();
                s.append(e.message().as_str());
                s
            },
            EngineError::Segment(e) => {
                let mut s: String = "serialization: ".to_owned();
                s.append(e.message().as_str());
                s
            },
            EngineError::Catalog(e) => {
                let mut s: String = "catalog: ".to_owned();
                s.append(e.message().as_str());
                s
            },
            EngineError::Io(m) => {
                let mut s: String = "io: ".to_owned();
                s.append(m.as_str());
                s
            },
            EngineError::Storage(e) => {
                let mut s: String = "storage: ".to_owned();
                s.append(e.message().as_str());
                s
            },
            EngineError::Serialization(m) => {
                let mut s: String = "serialization: ".to_owned();
                s.append(m.as_str());
                s
            },
            EngineError::CollectionNotFound(id) => glue("collection `", id.as_str(), "` not found"),
            EngineError::Validation(v) => {
                let mut s: String = "validation: ".to_owned();
                s.append(v.message().as_str());
                s
            },
        }
    }

    /// The HTTP status that the error is answered with.
    pub fn status(&self) -> (r: u16)
        ensures
            r == self@.status(),
    {
        match self {
            EngineError::CollectionNotFound(_) => 404,
            EngineError::Validation(_) => 400,
            _ => 500,
        }
    }
}

pub type EngineResult<T> = Result<T, EngineError>;

/// A refusal as an engine error.
pub fn validation_err(v: Invalid) -> (e: EngineError)
    ensures
        e@ == EngineErrorView::Validation(v@),
{
    EngineError::Validation(v)
}

/// A collection that is not there is answered with 404, a request that is not
/// valid with 400, and whatever goes wrong with the data itself with 500.
pub proof fn errors_have_their_status(e: EngineErrorView)
    ensures
        e.status() == 404 <==> e is CollectionNotFound,
        e.status() == 400 <==> e is Validation,
        e.status() == 500 <==> !(e is CollectionNotFound) && !(e is Validation),
{
}

} // verus!
