//! Write operations. Each carries its whole payload, so that any part of the
//! log can be shipped to a replica or replayed after a crash.

use vstd::prelude::*;
use vstd::string::*;

use crate::types;
use crate::types::{Document, Embedding, Id, MetaView, Metadata};

verus! {

/// A write operation.
#[derive(Debug)]
pub enum Operation {
    /// Inserts a new record.
    Add { id: Id, embedding: Embedding, metadata: Option<Metadata>, document: Option<Document> },
    /// Replaces the metadata and document of a record and keeps its embedding.
    Update { id: Id, metadata: Option<Metadata>, document: Option<Document> },
    /// Removes a record.
    Delete { id: Id },
    /// Inserts a record, or replaces its embedding, metadata and document.
    Upsert { id: Id, embedding: Embedding, metadata: Option<Metadata>, document: Option<Document> },
}

/// A write operation as a mathematical value. Adding and upserting act alike.
pub enum OpKind {
    Put {
        embedding: Seq<u32>,
        metadata: Option<Map<Seq<char>, MetaView>>,
        document: Option<Seq<char>>,
    },
    Change { metadata: Option<Map<Seq<char>, MetaView>>, document: Option<Seq<char>> },
    Drop,
}

impl Operation {
    /// The id of the record that the operation acts on.
    pub open spec fn target(self) -> Seq<char> {
        match self {
            Operation::Add { id, .. } => id@,
            Operation::Update { id, .. } => id@,
            Operation::Delete { id } => id@,
            Operation::Upsert { id, .. } => id@,
        }
    }

    /// What the operation does to the record.
    pub open spec fn effect(self) -> OpKind {
        match self {
            Operation::Add { embedding, metadata, document, .. } => OpKind::Put {
                embedding: embedding@,
                metadata: types::meta_opt(metadata),
                document: types::text_opt(document),
            },
            Operation::Upsert { embedding, metadata, document, .. } => OpKind::Put {
                embedding: embedding@,
                metadata: types::meta_opt(metadata),
                document: types::text_opt(document),
            },
            Operation::Update { metadata, document, .. } => OpKind::Change {
                metadata: types::meta_opt(metadata),
                document: types::text_opt(document),
            },
            Operation::Delete { .. } => OpKind::Drop,
        }
    }

    /// The canonical name of the operation.
    pub open spec fn label(self) -> Seq<char> {
        match self {
            Operation::Add { .. } => "add"@,
            Operation::Update { .. } => "update"@,
            Operation::Delete { .. } => "delete"@,
            Operation::Upsert { .. } => "upsert"@,
        }
    }

    /// The id of the record that the operation acts on.
    pub fn id(&self) -> (r: &str)
        ensures
            r@ == self.target(),
    {
        match self {
            Operation::Add { id, .. } => id.as_str(),
            Operation::Update { id, .. } => id.as_str(),
            Operation::Delete { id } => id.as_str(),
            Operation::Upsert { id, .. } => id.as_str(),
        }
    }

    /// The canonical name of the operation.
    pub fn kind(&self) -> (r: &'static str)
        ensures
            r@ == self.label(),
    {
        match self {
            Operation::Add { .. } => "add",
            Operation::Update { .. } => "update",
            Operation::Delete { .. } => "delete",
            Operation::Upsert { .. } => "upsert",
        }
    }
}

} // verus!
