//! Collection and index configuration.

use vstd::prelude::*;
use vstd::string::*;

use crate::ids::{fresh_id, CollectionId};
use crate::types;
use crate::types::{clone_meta, Distance, Metadata};

verus! {

/// Tuning of the graph index and of the write buffer.
#[derive(Debug, Clone, Copy, PartialEq, Eq, Structural)]
pub struct HnswConfig {
    /// Number of links per element of the graph.
    pub m: usize,
    /// Size of the candidate list while the graph is built.
    pub ef_construction: usize,
    /// Size of the candidate list while the graph is searched.
    pub ef_search: usize,
    /// Number of buffered records that are merged into the graph at once.
    pub batch_size: usize,
    /// Number of new log records after which a checkpoint is due.
    pub sync_threshold: usize,
    /// Size up to which a scan replaces a walk of the graph.
    pub max_scan: usize,
}

impl Default for HnswConfig {
    fn default() -> (c: Self)
        ensures
            c == (HnswConfig {
                m: 16,
                ef_construction: 200,
                ef_search: 100,
                batch_size: 100,
                sync_threshold: 1000,
                max_scan: 10_000,
            }),
    {
        HnswConfig {
            m: 16,
            ef_construction: 200,
            ef_search: 100,
            batch_size: 100,
            sync_threshold: 1000,
            max_scan: 10_000,
        }
    }
}

/// The definition of a collection.
#[derive(Debug)]
pub struct CollectionConfig {
    /// Globally unique id, also the name of the log file.
    pub id: CollectionId,
    /// Tenant namespace.
    pub tenant: String,
    /// Database namespace.
    pub database: String,
    /// Name of the collection.
    pub name: String,
    /// Number of components of every vector; 0 while it is not known.
    pub dimension: usize,
    /// Distance space of the index and of searches.
    pub space: Distance,
    /// Metadata of the collection itself.
    pub metadata: Option<Metadata>,
    /// Index tuning.
    pub hnsw: HnswConfig,
    /// Creation time in milliseconds since the Unix epoch.
    pub created_at_ms: u64,
}

/// A collection definition as a mathematical value.
pub struct ConfigView {
    pub id: CollectionId,
    pub tenant: Seq<char>,
    pub database: Seq<char>,
    pub name: Seq<char>,
    pub dimension: usize,
    pub space: Distance,
    pub metadata: Option<Map<Seq<char>, types::MetaView>>,
    pub hnsw: HnswConfig,
    pub created_at_ms: u64,
}

impl View for CollectionConfig {
    type V = ConfigView;

    open spec fn view(&self) -> ConfigView {
        ConfigView {
            id: self.id,
            tenant: self.tenant@,
            database: self.database@,
            name: self.name@,
            dimension: self.dimension,
            space: self.space,
            metadata: types::meta_opt(self.metadata),
            hnsw: self.hnsw,
            created_at_ms: self.created_at_ms,
        }
    }
}

impl Clone for CollectionConfig {
    fn clone(&self) -> (r: Self)
        ensures
            r@ == self@,
    {
        CollectionConfig {
            id: self.id,
            tenant: self.tenant.clone(),
            database: self.database.clone(),
            name: self.name.clone(),
            dimension: self.dimension,
            space: self.space,
            metadata: clone_meta(&self.metadata),
            hnsw: self.hnsw,
            created_at_ms: self.created_at_ms,
        }
    }
}

/// `SystemTime::now` in milliseconds since the Unix epoch, 0 for a clock that
/// is set before it. Nothing is said of the value.
#[verifier::external_body]
fn now_ms() -> (ms: u64) {
    std::time::SystemTime::now().duration_since(std::time::UNIX_EPOCH).unwrap_or_default().as_millis() as u64
}

impl CollectionConfig {
    /// A definition with a fresh random id, the default tenant and database,
    /// no metadata, default tuning and the current time.
    pub fn new(name: String, dimension: usize, space: Distance) -> (c: Self)
        ensures
            c@.name == name@,
            c@.dimension == dimension,
            c@.space == space,
            c@.tenant == "default_tenant"@,
            c@.database == "default_database"@,
            c@.metadata is None,
            c@.hnsw == (HnswConfig {
                m: 16,
                ef_construction: 200,
                ef_search: 100,
                batch_size: 100,
                sync_threshold: 1000,
                max_scan: 10_000,
            }),
    {
        CollectionConfig {
            id: fresh_id(),
            tenant: "default_tenant".to_owned(),
            database: "default_database".to_owned(),
            name,
            dimension,
            space,
            metadata: None,
            hnsw: HnswConfig::default(),
            created_at_ms: now_ms(),
        }
    }
}

} // verus!
