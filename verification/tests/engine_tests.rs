//! The engine over files that are kept in memory, with an exact search in
//! place of the graph.

use std::cell::RefCell;
use std::collections::{HashMap, HashSet};
use std::rc::Rc;

use rekha::catalog::{CatalogTables, CollectionRecord, NameKey};
use rekha::cluster::{wal_delta, WalDelta};
use rekha::collection::batch::Batch;
use rekha::collection::checkpoint::CheckpointMeta;
use rekha::collection::flush::GraphChange;
use rekha::collection::history::LoggedOp;
use rekha::collection::query::QueryOptions;
use rekha::collection::{Collection, Record};
use rekha::config::CollectionConfig;
use rekha::engine::{Engine as Core, EngineConfig};
use rekha::error::{EngineError, EngineResult};
use rekha::filter::{WhereFilter, WhereParseError};
use rekha::idmap::IdMap;
use rekha::index::{IndexMeta, LabelMap};
use rekha::num::{F32, F64};
use rekha::op::Operation;
use rekha::readings::Readings;
use rekha::segment::{Mapped, Segment};
use rekha::tags::Epoch;
use rekha::types::{Distance, Id, Metadata, MetadataValue};
use rekha::wal::{build_header, read_and_verify_header, scan, Wal, WalOptions};

const DIM: usize = 16;
const TENANT: &str = "default_tenant";
const DATABASE: &str = "default_database";

type Embedding = Vec<f32>;
type Document = String;
type Uuid = u128;

// ---------------------------------------------------------------------------
// Distances
// ---------------------------------------------------------------------------

fn dot(a: &[f32], b: &[f32]) -> f32 {
    a.iter().zip(b).map(|(x, y)| x * y).sum()
}

fn l2_squared(a: &[f32], b: &[f32]) -> f32 {
    a.iter().zip(b).map(|(x, y)| (x - y) * (x - y)).sum()
}

fn normalize(v: &[f32]) -> Vec<f32> {
    let norm = dot(v, v).sqrt();
    if norm <= 1e-32 {
        return v.to_vec();
    }
    v.iter().map(|x| x / (norm + 1e-32)).collect()
}

fn distance(space: Distance, a: &[f32], b: &[f32]) -> f32 {
    match space {
        Distance::L2 => l2_squared(a, b),
        Distance::Ip => 1.0 - dot(a, b),
        Distance::Cosine => 1.0 - dot(&normalize(a), &normalize(b)),
    }
}

fn bits(v: &[f32]) -> Vec<u32> {
    v.iter().map(|x| x.to_bits()).collect()
}

fn floats(v: &[u32]) -> Vec<f32> {
    v.iter().map(|x| f32::from_bits(*x)).collect()
}

// ---------------------------------------------------------------------------
// Operations as bytes
// ---------------------------------------------------------------------------

type Scalar = (u8, String, i64, u64);
type Plain = (u8, String, Vec<u32>, Option<Vec<(String, Scalar)>>, Option<String>);

fn plain_meta(m: &Option<Metadata>) -> Option<Vec<(String, Scalar)>> {
    m.as_ref().map(|m| {
        m.entries()
            .iter()
            .map(|(k, v)| {
                let v = match v {
                    MetadataValue::Str(s) => (0, s.clone(), 0, 0),
                    MetadataValue::Bool(b) => (1, String::new(), *b as i64, 0),
                    MetadataValue::Int(i) => (2, String::new(), *i, 0),
                    MetadataValue::Float(f) => (3, String::new(), 0, f.bits),
                };
                (k.clone(), v)
            })
            .collect()
    })
}

fn meta_of(m: Option<Vec<(String, Scalar)>>) -> Option<Metadata> {
    m.map(|entries| {
        let mut m = Metadata::new();
        for (k, v) in entries {
            let v = match v.0 {
                0 => MetadataValue::Str(v.1),
                1 => MetadataValue::Bool(v.2 != 0),
                2 => MetadataValue::Int(v.2),
                _ => MetadataValue::Float(F64 { bits: v.3 }),
            };
            m.insert(k, v);
        }
        m
    })
}

fn encode(op: &Operation) -> Vec<u8> {
    let plain: Plain = match op {
        Operation::Add { id, embedding, metadata, document } => {
            (0, id.clone(), embedding.clone(), plain_meta(metadata), document.clone())
        }
        Operation::Upsert { id, embedding, metadata, document } => {
            (1, id.clone(), embedding.clone(), plain_meta(metadata), document.clone())
        }
        Operation::Update { id, metadata, document } => {
            (2, id.clone(), Vec::new(), plain_meta(metadata), document.clone())
        }
        Operation::Delete { id } => (3, id.clone(), Vec::new(), None, None),
    };
    bincode::serialize(&plain).unwrap()
}

fn decode(payload: &[u8]) -> Option<Operation> {
    let (kind, id, embedding, metadata, document): Plain = bincode::deserialize(payload).ok()?;
    let metadata = meta_of(metadata);
    Some(match kind {
        0 => Operation::Add { id, embedding, metadata, document },
        1 => Operation::Upsert { id, embedding, metadata, document },
        2 => Operation::Update { id, metadata, document },
        _ => Operation::Delete { id },
    })
}

fn decodable(image: &[u8], epoch: u64) -> usize {
    scan(image, epoch).iter().take_while(|r| decode(&r.payload).is_some()).count()
}

// ---------------------------------------------------------------------------
// Files
// ---------------------------------------------------------------------------

/// A checkpoint as it stands on disk.
struct Checkpoint {
    meta: Option<CheckpointMeta>,
    records: Option<Vec<Record>>,
    index: Option<(IndexMeta, HashMap<u64, Vec<u32>>)>,
    segment: Option<Vec<u8>>,
    places: Vec<(Id, usize)>,
}

struct Disk {
    catalog: Vec<CollectionRecord>,
    logs: HashMap<Uuid, Vec<u8>>,
    checkpoints: HashMap<Uuid, Checkpoint>,
}

type Dir = Rc<RefCell<Disk>>;

fn new_dir() -> Dir {
    Rc::new(RefCell::new(Disk {
        catalog: Vec::new(),
        logs: HashMap::new(),
        checkpoints: HashMap::new(),
    }))
}

/// What the engine keeps open of a collection.
struct Files {
    wal: Wal,
    graph: HashMap<u64, Vec<u32>>,
    segment: Option<Vec<u8>>,
}

impl Files {
    fn apply(&mut self, changes: &[GraphChange]) {
        for c in changes {
            match c {
                GraphChange::Remove { label } => {
                    assert!(self.graph.remove(label).is_some());
                }
                GraphChange::Insert { label, vector } => {
                    assert!(self.graph.insert(*label, vector.clone()).is_none());
                }
            }
        }
    }
}

fn mapped(segment: &Option<Vec<u8>>) -> Option<Mapped<'_>> {
    segment.as_ref().map(|s| Mapped::open(s).unwrap())
}

/// A record as it is read back.
#[derive(Clone, Debug)]
struct Rec {
    id: Id,
    embedding: Option<Vec<f32>>,
    metadata: Option<Metadata>,
    document: Option<Document>,
    seq: u64,
}

#[derive(Debug)]
struct Hit {
    id: Id,
    distance: f32,
    metadata: Option<Metadata>,
}

struct Stats {
    records: u64,
    indexed: u64,
    wal_bytes_before: u64,
    wal_bytes_after: u64,
}

struct Engine {
    core: Core,
    files: HashMap<Uuid, Files>,
    dir: Dir,
}

fn open_log(image: &mut Vec<u8>, options: WalOptions) -> Wal {
    if image.is_empty() {
        *image = build_header(0);
        return Wal::open(&[], 0, Epoch(0), options).unwrap();
    }
    let epoch = read_and_verify_header(image).unwrap();
    let n = decodable(image, epoch);
    let wal = Wal::open(image, n, Epoch(0), options).unwrap();
    image.truncate(wal.size_bytes() as usize);
    wal
}

fn load(dir: &Dir, config: CollectionConfig) -> (Collection, Files) {
    let id = config.id;
    let mut disk = dir.borrow_mut();
    let mut found = None;
    if let Some(k) = disk.checkpoints.get(&id) {
        if let (Some(meta), Some(records)) = (&k.meta, &k.records) {
            let graph = match &k.index {
                Some((m, g)) => LabelMap::restore(m, config.space, config.dimension, g.len())
                    .ok()
                    .map(|l| (l, g.clone())),
                None => None,
            };
            let (labels, graph) = match graph {
                Some((l, g)) => (Some(l), g),
                None => (None, HashMap::new()),
            };
            let mut places = IdMap::new();
            for (i, n) in &k.places {
                places.insert(i.clone(), *n);
            }
            let copies: Vec<Record> = records.iter().map(|r| r.copy()).collect();
            let loaded = Collection::load_checkpoint(
                config.clone(),
                meta,
                &copies,
                labels,
                &places,
                mapped(&k.segment),
            );
            if let Some(c) = loaded {
                found = Some((c, graph, k.segment.clone(), meta.flushed_seq, meta.next_seq));
            }
        }
    }
    let (mut c, graph, segment, from, start) = match found {
        Some((c, g, s, flushed, next)) => (c, g, s, flushed + 1, Some(next)),
        None => (Collection::new(config), HashMap::new(), None, 1, None),
    };
    let image = disk.logs.entry(id).or_default();
    let wal = open_log(image, WalOptions { fsync: false, start_seq: start });
    let tail: Vec<LoggedOp> = wal
        .read_range(image, from, wal.last_seq())
        .unwrap()
        .iter()
        .map(|r| LoggedOp { seq: r.seq, op: decode(&r.payload).unwrap() })
        .collect();
    let mut files = Files { wal, graph, segment };
    assert!(tail.len() <= c.offsets_left() as usize);
    for label in c.replay_after(&tail) {
        files.graph.remove(&label);
    }
    c.infer_dimension();
    let f = c.flush_if_needed();
    assert!(f.error.is_none());
    files.apply(&f.changes);
    (c, files)
}

fn open_engine(dir: &Dir) -> Engine {
    let mut catalog = CatalogTables::new();
    for r in &dir.borrow().catalog {
        catalog.load_name(
            NameKey {
                tenant: r.config.tenant.clone(),
                database: r.config.database.clone(),
                name: r.config.name.clone(),
            },
            r.config.id,
        );
        catalog.load_collection(r.clone());
    }
    let records = catalog.list_collections_all();
    let mut core = Core::new(catalog, EngineConfig { wal_fsync: false, epoch: Epoch(0) });
    let mut files = HashMap::new();
    for r in records {
        let id = r.config.id;
        let (c, f) = load(dir, r.config);
        core.hold(c);
        files.insert(id, f);
    }
    Engine { core, files, dir: dir.clone() }
}

impl Engine {
    fn save_catalog(&self) {
        self.dir.borrow_mut().catalog = self.core.catalog().list_collections_all();
    }

    fn create_collection(&mut self, config: &CollectionConfig) -> EngineResult<CollectionRecord> {
        let r = self.core.create_collection(config)?;
        self.save_catalog();
        let (c, f) = load(&self.dir, config.clone());
        self.core.hold(c);
        self.files.insert(config.id, f);
        Ok(r)
    }

    fn get_collection(&self, t: &str, d: &str, n: &str) -> EngineResult<Option<CollectionRecord>> {
        Ok(self.core.get_collection(t, d, n).cloned())
    }

    fn delete_collection(&mut self, id: &Uuid) -> EngineResult<()> {
        self.core.delete_collection(*id)?;
        self.save_catalog();
        self.files.remove(id);
        self.dir.borrow_mut().logs.remove(id);
        self.dir.borrow_mut().checkpoints.remove(id);
        Ok(())
    }

    fn write(&mut self, id: &Uuid, batch: Batch) -> EngineResult<()> {
        let files = self.files.get_mut(id).unwrap();
        {
            let mut disk = self.dir.borrow_mut();
            let image = disk.logs.get_mut(id).unwrap();
            let first = files.wal.last_seq() + 1;
            for op in &batch.ops {
                let a = files.wal.append(&encode(op)).unwrap();
                image.extend_from_slice(&a.bytes);
            }
            for label in self.core.commit(*id, &batch, first)? {
                assert!(files.graph.remove(&label).is_some());
            }
        }
        if batch.dimension.is_some() {
            self.save_catalog();
        }
        let files = self.files.get_mut(id).unwrap();
        let f = self.core.flush_if_needed(*id)?;
        files.apply(&f.changes);
        if let Some(e) = f.error {
            return Err(EngineError::Index(e));
        }
        if self.core.collection(*id)?.checkpoint_due(self.files[id].wal.last_seq()) {
            self.checkpoint(id)?;
        }
        Ok(())
    }

    fn add(
        &mut self,
        id: &Uuid,
        ids: &[Id],
        embs: &[Embedding],
        metas: Option<&[Option<Metadata>]>,
        docs: Option<&[Option<Document>]>,
    ) -> EngineResult<()> {
        let embs: Vec<Vec<u32>> = embs.iter().map(|e| bits(e)).collect();
        let b = self.core.add(
            *id,
            &ids.to_vec(),
            &embs,
            &metas.map(|m| m.to_vec()),
            &docs.map(|d| d.to_vec()),
        )?;
        self.write(id, b)
    }

    fn upsert(
        &mut self,
        id: &Uuid,
        ids: &[Id],
        embs: &[Embedding],
        metas: Option<&[Option<Metadata>]>,
        docs: Option<&[Option<Document>]>,
    ) -> EngineResult<()> {
        let embs: Vec<Vec<u32>> = embs.iter().map(|e| bits(e)).collect();
        let b = self.core.upsert(
            *id,
            &ids.to_vec(),
            &embs,
            &metas.map(|m| m.to_vec()),
            &docs.map(|d| d.to_vec()),
        )?;
        self.write(id, b)
    }

    fn update(
        &mut self,
        id: &Uuid,
        ids: &[Id],
        metas: Option<&[Option<Metadata>]>,
        docs: Option<&[Option<Document>]>,
    ) -> EngineResult<()> {
        let b = self.core.update(
            *id,
            &ids.to_vec(),
            &metas.map(|m| m.to_vec()),
            &docs.map(|d| d.to_vec()),
        )?;
        self.write(id, b)
    }

    fn delete(&mut self, id: &Uuid, ids: &[Id]) -> EngineResult<()> {
        let b = self.core.delete(*id, &ids.to_vec())?;
        self.write(id, b)
    }

    fn count(&self, id: &Uuid) -> EngineResult<u64> {
        self.core.count(*id)
    }

    fn indexed_count(&self, id: &Uuid) -> EngineResult<usize> {
        self.core.indexed_count(*id)
    }

    fn committed_count(&self, id: &Uuid) -> EngineResult<usize> {
        let n = self.core.committed_count(*id)?;
        assert_eq!(n, self.files[id].graph.len());
        Ok(n)
    }

    fn seq_of(&self, id: &Uuid, record: &Id) -> EngineResult<u64> {
        self.core.seq_of(*id, record)
    }

    fn get(&self, id: &Uuid, ids: &[Id]) -> EngineResult<Vec<Option<Rec>>> {
        let none = None;
        let segment = self.files.get(id).map(|f| &f.segment).unwrap_or(&none);
        let got = self.core.get(*id, mapped(segment), &ids.to_vec())?;
        Ok(got
            .into_iter()
            .map(|r| {
                r.map(|r| Rec {
                    id: r.id,
                    embedding: r.embedding.map(|e| floats(&e)),
                    metadata: r.metadata,
                    document: r.document,
                    seq: r.seq,
                })
            })
            .collect())
    }

    fn query(&self, id: &Uuid, q: &Embedding, k: usize, options: &QueryOptions) -> EngineResult<Vec<Hit>> {
        let none = None;
        let segment = self.files.get(id).map(|f| &f.segment).unwrap_or(&none);
        let plan = self.core.query(*id, mapped(segment), q.len(), k, options)?;
        let space = self.core.collection(*id)?.config().space;
        let of = |v: &[u32]| distance(space, q, &floats(v));
        let distances: Vec<F32> = plan
            .scan
            .entries()
            .iter()
            .map(|(_, v)| F32 { bits: of(v).to_bits() })
            .collect();
        let mut hits: Vec<(u64, f32)> = Vec::new();
        if let Some(g) = &plan.graph {
            hits = self.files[id].graph.iter().map(|(l, v)| (*l, of(v))).collect();
            hits.sort_by(|a, b| a.1.total_cmp(&b.1));
            hits.truncate(g.fetch);
        }
        let hits = hits.iter().map(|(l, d)| (*l, F32 { bits: d.to_bits() })).collect();
        let ranked = self.core.rank(*id, &plan, &distances, &hits)?;
        Ok(ranked
            .into_iter()
            .map(|p| Hit {
                id: p.id,
                distance: f32::from_bits(p.distance.bits),
                metadata: p.metadata,
            })
            .collect())
    }

    fn checkpoint(&mut self, id: &Uuid) -> EngineResult<()> {
        let c = self.core.collection(*id)?;
        let files = self.files.get_mut(id).unwrap();
        assert!(c.is_storable(mapped(&files.segment)));
        let last = files.wal.last_seq();
        let plan = match c.plan_checkpoint(mapped(&files.segment), last) {
            Some(p) => p,
            None => return Ok(()),
        };
        let places = match &plan.segment {
            Some(s) => s.index.entries().iter().map(|(i, n)| (i.clone(), *n)).collect(),
            None => Vec::new(),
        };
        let saved = Checkpoint {
            meta: Some(plan.meta),
            records: Some(c.snapshot(mapped(&files.segment))),
            index: if plan.save_index {
                Some((c.index_meta(), files.graph.clone()))
            } else {
                None
            },
            segment: plan.segment.as_ref().map(|s| s.image.clone()),
            places,
        };
        files.segment = saved.segment.clone();
        let mut disk = self.dir.borrow_mut();
        disk.checkpoints.insert(*id, saved);
        self.core.finish_checkpoint(*id, &plan.segment)?;
        let image = disk.logs.get_mut(id).unwrap();
        *image = files.wal.prune(image, plan.meta.flushed_seq).unwrap();
        files.wal = open_log(image, WalOptions { fsync: false, start_seq: Some(plan.meta.next_seq) });
        drop(disk);
        self.save_catalog();
        Ok(())
    }

    fn optimize(&mut self, id: &Uuid) -> EngineResult<Stats> {
        let before = self.files[id].wal.size_bytes();
        let segment = self.files[id].segment.clone();
        let o = self.core.optimize(*id, mapped(&segment))?;
        let files = self.files.get_mut(id).unwrap();
        files.apply(&o.flush.changes);
        let rebuild = o.rebuild.unwrap();
        assert!(rebuild.error.is_none());
        files.graph.clear();
        files.apply(&rebuild.changes);
        self.checkpoint(id)?;
        Ok(Stats {
            records: o.records,
            indexed: o.indexed,
            wal_bytes_before: before,
            wal_bytes_after: self.files[id].wal.size_bytes(),
        })
    }

    fn wal_delta(&self, id: &Uuid, from: u64) -> EngineResult<WalDelta> {
        let disk = self.dir.borrow();
        wal_delta(&self.files[id].wal, &disk.logs[id], 0, from).map_err(EngineError::Wal)
    }

    fn wal_last_seq(&self, id: &Uuid) -> EngineResult<u64> {
        Ok(self.files[id].wal.last_seq())
    }

    fn apply_remote_ops(&mut self, id: &Uuid, ops: Vec<LoggedOp>) -> EngineResult<()> {
        self.core.apply_remote_ops(*id, &ops).map(|_| ())
    }
}

fn filter_of(json: &str) -> WhereFilter {
    let mut known = Readings::new();
    if let Err(WhereParseError::Numbers(texts)) = WhereFilter::parse_json(json, &known) {
        for t in texts {
            let x: f64 = t.parse().unwrap();
            known.add_double(&t, Some(F64 { bits: x.to_bits() }));
        }
    }
    WhereFilter::parse_json(json, &known).unwrap()
}

fn score_of(h: &Hit) -> f64 {
    let m = h.metadata.as_ref().expect("every result has metadata");
    let v = m.get("score").and_then(MetadataValue::as_f64);
    f64::from_bits(v.expect("every result has a numeric score").bits)
}

fn again(f: &WhereFilter) -> WhereFilter {
    let mut known = Readings::new();
    if let Err(numbers) = f.to_json(&known) {
        for n in numbers {
            known.add_text(n, format!("{:?}", f64::from_bits(n.bits)));
        }
    }
    filter_of(&f.to_json(&known).unwrap())
}

/// Tiny seeded LCG for deterministic vectors.
struct Lcg(u64);

impl Lcg {
    fn new(seed: u64) -> Self {
        Self(seed)
    }

    fn next(&mut self) -> u64 {
        self.0 = self
            .0
            .wrapping_mul(6364136223846793005)
            .wrapping_add(1442695040888963407);
        self.0 >> 33
    }

    /// Uniform `f32` in `[0, 1)`.
    fn unit(&mut self) -> f32 {
        (self.next() % 1_000_000) as f32 / 1_000_000.0
    }
}

fn rand_embedding(rng: &mut Lcg, dim: usize) -> Embedding {
    (0..dim).map(|_| rng.unit()).collect::<Vec<f32>>()
}

fn create_collection(
    engine: &mut Engine,
    name: &str,
    dim: usize,
    space: Distance,
    batch_size: usize,
) -> Uuid {
    let mut config = CollectionConfig::new(name.to_owned(), dim, space);
    config.hnsw.batch_size = batch_size;
    engine.create_collection(&config).unwrap().config.id
}

/// Fresh engine + a default L2 collection named `coll`, dim 16, with the given
/// `batch_size`. Reopening the same dir replays the WAL.
fn test_engine(dir: &Dir, batch_size: usize) -> (Engine, Uuid) {
    let mut engine = open_engine(dir);
    let id = create_collection(&mut engine, "coll", DIM, Distance::L2, batch_size);
    (engine, id)
}

fn collection_id_by_name(engine: &Engine) -> Uuid {
    engine
        .get_collection(TENANT, DATABASE, "coll")
        .unwrap()
        .unwrap()
        .config
        .id
}

/// Query options with only `ef` set (everything else defaults).
fn qopts(ef: usize) -> QueryOptions {
    QueryOptions {
        ef,
        ..Default::default()
    }
}

/// A metadata map with a `tag` and an integer `score`.
fn meta_with_tag(tag: &str, score: i64) -> Metadata {
    let mut m = Metadata::new();
    m.insert("tag".into(), MetadataValue::Str(tag.into()));
    m.insert("score".into(), MetadataValue::Int(score));
    m
}

/// A metadata map with only an integer `score` (no `tag` key — used by the
/// `$nin`-with-absent-key and `$ne` tests).
fn meta_score(score: i64) -> Metadata {
    let mut m = Metadata::new();
    m.insert("score".into(), MetadataValue::Int(score));
    m
}

/// Whether a record's optional metadata matches the filter. `None` metadata is
/// evaluated against an empty map, mirroring the engine's buffer-scan rule.
fn filter_matches(filter: &WhereFilter, metadata: &Option<Metadata>) -> bool {
    match metadata {
        Some(m) => filter.matches(m),
        None => filter.matches(&Metadata::new()),
    }
}

/// Brute-force top-k ids among records whose metadata matches `filter`, using
/// `l2_squared` as the oracle. This is the correctness oracle for every
/// filtered-query test.
fn brute_force_filtered_top_k(
    stored: &[(Id, Embedding, Option<Metadata>)],
    filter: &WhereFilter,
    query: &Embedding,
    k: usize,
) -> HashSet<Id> {
    let mut ranked: Vec<(Id, f32)> = stored
        .iter()
        .filter(|(_, _, m)| filter_matches(filter, m))
        .map(|(id, v, _)| (id.clone(), l2_squared(query, v)))
        .collect();
    ranked.sort_by(|a, b| a.1.total_cmp(&b.1));
    ranked.into_iter().take(k).map(|(id, _)| id).collect()
}

/// Brute-force top-k ids for a query, using `rekha_distance` as the oracle.
fn brute_force_top_k(stored: &[(Id, Embedding)], query: &Embedding, k: usize) -> HashSet<Id> {
    let mut ranked: Vec<(Id, f32)> = stored
        .iter()
        .map(|(id, v)| (id.clone(), l2_squared(query, v)))
        .collect();
    ranked.sort_by(|a, b| a.1.total_cmp(&b.1));
    ranked.iter().take(k).map(|(id, _)| id.clone()).collect()
}

#[test]
fn add_get_count() {
    let dir = new_dir();
    let (mut engine, id) = test_engine(&dir, 100);
    let mut rng = Lcg::new(1);
    let ids: Vec<Id> = (0..5).map(|i| format!("id{i}")).collect();
    let embs: Vec<Embedding> = (0..5).map(|_| rand_embedding(&mut rng, DIM)).collect();
    engine.add(&id, &ids, &embs, None, None).unwrap();
    assert_eq!(engine.count(&id).unwrap(), 5);

    let got = engine.get(&id, &ids).unwrap();
    assert_eq!(got.len(), 5);
    for (rec, (want_id, want_emb)) in got.iter().zip(ids.iter().zip(&embs)) {
        let rec = rec.as_ref().expect("record present");
        assert_eq!(&rec.id, want_id);
        assert_eq!(rec.embedding.as_ref().unwrap(), want_emb);
        assert!(rec.seq >= 1, "seq assigned by the WAL");
    }

    let missing = engine.get(&id, &["nope".to_string()]).unwrap();
    assert!(missing[0].is_none());
}

#[test]
fn query_correctness_vs_brute_force() {
    let dir = new_dir();
    let (mut engine, id) = test_engine(&dir, 50); // flushes happen mid-add
    let mut rng = Lcg::new(42);
    let mut stored: Vec<(Id, Embedding)> = Vec::new();
    let mut ids = Vec::new();
    let mut embs = Vec::new();
    for i in 0..200 {
        let idstr = format!("v{i:03}");
        let v = rand_embedding(&mut rng, DIM);
        ids.push(idstr.clone());
        embs.push(v.clone());
        stored.push((idstr, v));
    }
    engine.add(&id, &ids, &embs, None, None).unwrap();
    assert_eq!(engine.count(&id).unwrap(), 200);
    assert_eq!(engine.indexed_count(&id).unwrap(), 200);

    for _ in 0..10 {
        let q = rand_embedding(&mut rng, DIM);
        let hits = engine.query(&id, &q, 10, &qopts(200)).unwrap();
        assert_eq!(hits.len(), 10);
        let got: HashSet<Id> = hits.iter().map(|h| h.id.clone()).collect();
        let expected = brute_force_top_k(&stored, &q, 10);
        assert_eq!(got, expected, "top-k id set mismatch");
    }
}

#[test]
fn distance_semantics() {
    let dir = new_dir();
    let mut engine = open_engine(&dir);
    let id = create_collection(&mut engine, "cos", 8, Distance::Cosine, 100);
    let stored: Vec<(Id, Embedding)> = vec![
        (
            "a".to_string(),
            vec![1.0, 0.0, 0.5, 0.0, 0.25, 0.0, 0.0, 1.0].into(),
        ),
        (
            "b".to_string(),
            vec![0.0, 1.0, 0.0, 0.5, 0.0, 0.25, 1.0, 0.0].into(),
        ),
        (
            "c".to_string(),
            vec![0.5, 0.5, 0.5, 0.5, 0.5, 0.5, 0.5, 0.5].into(),
        ),
    ];
    let ids: Vec<Id> = stored.iter().map(|(id, _)| id.clone()).collect();
    let embs: Vec<Embedding> = stored.iter().map(|(_, v)| v.clone()).collect();
    engine.add(&id, &ids, &embs, None, None).unwrap();

    let q: Embedding = vec![0.2, 0.8, 0.1, 0.9, 0.4, 0.6, 0.3, 0.7].into();
    let hits = engine.query(&id, &q, 3, &qopts(200)).unwrap();
    assert_eq!(hits.len(), 3);
    for hit in &hits {
        let expected = distance(
            Distance::Cosine,
            &q,
            &stored.iter().find(|(sid, _)| *sid == hit.id).unwrap().1,
        );
        let rel = (hit.distance - expected).abs() / expected.abs().max(1e-12);
        assert!(
            rel < 1e-4,
            "id `{}`: got {}, expected {}",
            hit.id,
            hit.distance,
            expected
        );
    }
}

#[test]
fn upsert_replaces_embedding() {
    let dir = new_dir();
    let (mut engine, id) = test_engine(&dir, 2);
    let mut rng = Lcg::new(7);

    // Cluster center near the origin, and a far-away replacement vector.
    let p1: Embedding = vec![0.1; DIM].into();
    let v2: Embedding = vec![1.0; DIM].into();

    // Five records close to p1.
    let mut ids = Vec::new();
    let mut embs = Vec::new();
    for i in 0..5 {
        let noise: Vec<f32> = (0..DIM).map(|_| 0.01 * rng.unit()).collect();
        let v: Vec<f32> = p1.iter().zip(&noise).map(|(a, b)| a + b).collect();
        ids.push(format!("r{i}"));
        embs.push(v.into());
    }
    engine.add(&id, &ids, &embs, None, None).unwrap();
    // x is exactly p1, so it is the nearest neighbor of p1.
    engine
        .add(&id, &["x".to_string()], &[p1.clone()], None, None)
        .unwrap();

    let hits = engine.query(&id, &p1, 5, &qopts(100)).unwrap();
    assert_eq!(hits[0].id, "x");

    // Upsert x to a far-away vector.
    engine
        .upsert(&id, &["x".to_string()], &[v2.clone()], None, None)
        .unwrap();
    let hits = engine.query(&id, &v2, 5, &qopts(100)).unwrap();
    assert_eq!(
        hits[0].id, "x",
        "upserted embedding must win for queries near it"
    );

    let hits = engine.query(&id, &p1, 5, &qopts(100)).unwrap();
    assert_eq!(hits.len(), 5);
    assert!(
        hits.iter().all(|h| h.id != "x"),
        "old embedding must be gone from top-k near p1"
    );

    // Force a flush (batch_size=2) so the buffered new-x enters the index via
    // the delete-then-re-add path; correctness must hold after the flush too.
    let extra: Vec<Id> = (0..2).map(|i| format!("e{i}")).collect();
    let extra_embs: Vec<Embedding> = (0..2).map(|_| rand_embedding(&mut rng, DIM)).collect();
    engine.add(&id, &extra, &extra_embs, None, None).unwrap();
    let hits = engine.query(&id, &v2, 5, &qopts(100)).unwrap();
    assert_eq!(hits[0].id, "x");
}

#[test]
fn update_metadata() {
    let dir = new_dir();
    let (mut engine, id) = test_engine(&dir, 100);
    let mut rng = Lcg::new(3);
    let ids: Vec<Id> = (0..3).map(|i| format!("u{i}")).collect();
    let embs: Vec<Embedding> = (0..3).map(|_| rand_embedding(&mut rng, DIM)).collect();
    engine.add(&id, &ids, &embs, None, None).unwrap();

    let mut meta = Metadata::new();
    meta.insert("tag".into(), MetadataValue::Str("new".into()));
    engine
        .update(&id, &["u1".to_string()], Some(&[Some(meta)]), None)
        .unwrap();

    let rec = engine.get(&id, &["u1".to_string()]).unwrap()[0]
        .clone()
        .expect("u1 present");
    assert_eq!(
        rec.metadata.unwrap().get("tag"),
        Some(&MetadataValue::Str("new".into()))
    );
    assert_eq!(engine.count(&id).unwrap(), 3, "count unchanged by update");

    let other = engine.get(&id, &["u0".to_string()]).unwrap()[0]
        .clone()
        .expect("u0 present");
    assert!(other.metadata.is_none(), "other records untouched");
}

#[test]
fn delete_removes_records() {
    let dir = new_dir();
    let (mut engine, id) = test_engine(&dir, 50);
    let mut rng = Lcg::new(9);
    let ids: Vec<Id> = (0..20).map(|i| format!("d{i:02}")).collect();
    let embs: Vec<Embedding> = (0..20).map(|_| rand_embedding(&mut rng, DIM)).collect();
    engine.add(&id, &ids, &embs, None, None).unwrap();
    assert_eq!(engine.count(&id).unwrap(), 20);

    engine
        .delete(&id, &["d03".to_string(), "d17".to_string()])
        .unwrap();
    assert_eq!(engine.count(&id).unwrap(), 18);
    let got = engine
        .get(&id, &["d03".to_string(), "d17".to_string()])
        .unwrap();
    assert!(got[0].is_none() && got[1].is_none());

    let q = rand_embedding(&mut rng, DIM);
    let hits = engine.query(&id, &q, 20, &qopts(100)).unwrap();
    assert!(
        hits.iter().all(|h| h.id != "d03" && h.id != "d17"),
        "deleted ids must not be returned"
    );

    // Deleting missing ids is Ok.
    engine
        .delete(&id, &["d03".to_string(), "never_existed".to_string()])
        .unwrap();
    assert_eq!(engine.count(&id).unwrap(), 18);
}

#[test]
fn flush_threshold() {
    let dir = new_dir();
    let (mut engine, id) = test_engine(&dir, 2);
    let mut rng = Lcg::new(11);
    let mut stored: Vec<(Id, Embedding)> = Vec::new();

    // batch_size = 2: after add 2 flushes (index 2), add 4 flushes (index 4).
    let expected_committed = [0usize, 0, 2, 2, 4, 4];
    for i in 0..5 {
        let v = rand_embedding(&mut rng, DIM);
        let idstr = format!("f{i}");
        stored.push((idstr.clone(), v.clone()));
        engine.add(&id, &[idstr], &[v], None, None).unwrap();
        assert_eq!(engine.indexed_count(&id).unwrap(), i + 1);
        assert_eq!(
            engine.committed_count(&id).unwrap(),
            expected_committed[i + 1],
            "committed count after add {i}"
        );
    }
    assert_eq!(engine.count(&id).unwrap(), 5);

    // Query correctness still holds across index/buffer split.
    let q = rand_embedding(&mut rng, DIM);
    let hits = engine.query(&id, &q, 5, &qopts(100)).unwrap();
    let got: HashSet<Id> = hits.iter().map(|h| h.id.clone()).collect();
    assert_eq!(got, brute_force_top_k(&stored, &q, 5));
}

#[test]
fn wal_replay_rebuilds_state() {
    let dir = new_dir();
    let mut rng = Lcg::new(21);
    let mut stored: Vec<(Id, Embedding)> = Vec::new();
    {
        let (mut engine, id) = test_engine(&dir, 1000); // no flush: 10 < batch_size
        let ids: Vec<Id> = (0..10).map(|i| format!("r{i}")).collect();
        let embs: Vec<Embedding> = (0..10).map(|_| rand_embedding(&mut rng, DIM)).collect();
        for (i, e) in embs.iter().enumerate() {
            stored.push((ids[i].clone(), e.clone()));
        }
        engine.add(&id, &ids, &embs, None, None).unwrap();

        let new_v = rand_embedding(&mut rng, DIM);
        stored[0] = (ids[0].clone(), new_v.clone());
        engine
            .upsert(&id, &[ids[0].clone()], &[new_v], None, None)
            .unwrap();

        stored.pop(); // r9 is deleted
        engine.delete(&id, &[ids[9].clone()]).unwrap();
        assert_eq!(engine.count(&id).unwrap(), 9);
    }

    let engine = open_engine(&dir);
    let id = collection_id_by_name(&engine);
    assert_eq!(engine.count(&id).unwrap(), 9, "count survives replay");
    assert!(engine.get(&id, &["r9".to_string()]).unwrap()[0].is_none());

    for (want_id, want_v) in &stored {
        let rec = engine.get(&id, &[want_id.clone()]).unwrap()[0]
            .clone()
            .expect("record rebuilt");
        assert_eq!(rec.embedding.as_ref().unwrap(), want_v);
    }

    for _ in 0..5 {
        let q = rand_embedding(&mut rng, DIM);
        let hits = engine.query(&id, &q, 5, &qopts(100)).unwrap();
        let got: HashSet<Id> = hits.iter().map(|h| h.id.clone()).collect();
        assert_eq!(got, brute_force_top_k(&stored, &q, 5));
    }
}

#[test]
fn wal_replay_after_flush() {
    let dir = new_dir();
    let mut rng = Lcg::new(33);
    let mut stored: Vec<(Id, Embedding)> = Vec::new();
    {
        let (mut engine, id) = test_engine(&dir, 2);
        let ids: Vec<Id> = (0..6).map(|i| format!("s{i}")).collect();
        let embs: Vec<Embedding> = (0..6).map(|_| rand_embedding(&mut rng, DIM)).collect();
        for (i, e) in embs.iter().enumerate() {
            stored.push((ids[i].clone(), e.clone()));
        }
        engine.add(&id, &ids, &embs, None, None).unwrap();
        assert_eq!(engine.count(&id).unwrap(), 6);
        assert_eq!(engine.committed_count(&id).unwrap(), 6);
    }

    let engine = open_engine(&dir);
    let id = collection_id_by_name(&engine);
    assert_eq!(engine.count(&id).unwrap(), 6);
    // The index itself is rebuilt by replay + flush.
    assert_eq!(engine.committed_count(&id).unwrap(), 6);

    for _ in 0..5 {
        let q = rand_embedding(&mut rng, DIM);
        let hits = engine.query(&id, &q, 6, &qopts(100)).unwrap();
        assert_eq!(hits.len(), 6);
        let got: HashSet<Id> = hits.iter().map(|h| h.id.clone()).collect();
        assert_eq!(got, brute_force_top_k(&stored, &q, 6));
    }
}

#[test]
fn validation_rejects_bad_batches() {
    let dir = new_dir();
    let (mut engine, id) = test_engine(&dir, 100);
    let mut rng = Lcg::new(5);
    let good: Embedding = rand_embedding(&mut rng, DIM);

    // Mismatched id/embedding counts.
    let err = engine
        .add(
            &id,
            &["a".to_string(), "b".to_string()],
            &[good.clone()],
            None,
            None,
        )
        .unwrap_err();
    assert!(matches!(err, EngineError::Validation(_)));
    assert_eq!(engine.count(&id).unwrap(), 0);

    // Wrong-dimension embedding.
    let wrong_dim: Embedding = vec![0.5; DIM - 1].into();
    let err = engine
        .add(&id, &["a".to_string()], &[wrong_dim], None, None)
        .unwrap_err();
    assert!(matches!(err, EngineError::Validation(_)));
    assert_eq!(engine.count(&id).unwrap(), 0);

    // Metadata/doc length mismatch.
    let err = engine
        .add(
            &id,
            &["a".to_string()],
            &[good.clone()],
            Some(&[None, None]),
            None,
        )
        .unwrap_err();
    assert!(matches!(err, EngineError::Validation(_)));
    assert_eq!(engine.count(&id).unwrap(), 0);

    // A valid add lands.
    engine
        .add(&id, &["a".to_string()], &[good.clone()], None, None)
        .unwrap();
    assert_eq!(engine.count(&id).unwrap(), 1);

    // Duplicate id add.
    let err = engine
        .add(&id, &["a".to_string()], &[good.clone()], None, None)
        .unwrap_err();
    assert!(matches!(err, EngineError::Validation(_)));
    assert_eq!(engine.count(&id).unwrap(), 1);

    // Duplicate id within one batch.
    let err = engine
        .add(
            &id,
            &["b".to_string(), "b".to_string()],
            &[good.clone(), good.clone()],
            None,
            None,
        )
        .unwrap_err();
    assert!(matches!(err, EngineError::Validation(_)));
    assert_eq!(engine.count(&id).unwrap(), 1);

    // Update on a missing id.
    let empty_meta: Option<Metadata> = None;
    let err = engine
        .update(&id, &["nope".to_string()], Some(&[empty_meta]), None)
        .unwrap_err();
    assert!(matches!(err, EngineError::Validation(_)));

    // Update on an existing id works and changes nothing else.
    engine
        .update(
            &id,
            &["a".to_string()],
            None,
            Some(&[Some("doc".to_string())]),
        )
        .unwrap();
    assert_eq!(engine.count(&id).unwrap(), 1);
    let rec = engine.get(&id, &["a".to_string()]).unwrap()[0]
        .clone()
        .unwrap();
    assert_eq!(rec.document.as_deref(), Some("doc"));
}

/// Force the approximate index+buffer path (max_scan = 0) and verify it still
/// matches the brute-force top-k — HNSW on 200 random 16-dim points at
/// ef=200/k=10 is exact, so this is a stable set-equality assertion.
#[test]
fn query_via_index_path_matches_brute_force() {
    let dir = new_dir();
    let mut engine = open_engine(&dir);
    let mut config = CollectionConfig::new("idx".to_owned(), DIM, Distance::L2);
    config.hnsw.batch_size = 50;
    config.hnsw.max_scan = 0; // never take the brute-force path
    config.hnsw.ef_search = 200;
    let id = engine.create_collection(&config).unwrap().config.id;

    let mut rng = Lcg::new(0xABCD_EF);
    let mut stored: Vec<(Id, Embedding)> = Vec::new();
    let mut ids = Vec::new();
    let mut embs = Vec::new();
    for i in 0..200 {
        let idstr = format!("i{i:03}");
        let v = rand_embedding(&mut rng, DIM);
        ids.push(idstr.clone());
        embs.push(v.clone());
        stored.push((idstr, v));
    }
    engine.add(&id, &ids, &embs, None, None).unwrap();
    assert_eq!(engine.committed_count(&id).unwrap(), 200);

    for _ in 0..5 {
        let q = rand_embedding(&mut rng, DIM);
        let hits = engine.query(&id, &q, 10, &qopts(200)).unwrap();
        assert_eq!(hits.len(), 10);
        let got: HashSet<Id> = hits.iter().map(|h| h.id.clone()).collect();
        assert_eq!(
            got,
            brute_force_top_k(&stored, &q, 10),
            "index path mismatch"
        );
    }
}

#[test]
fn collection_not_found_errors() {
    let dir = new_dir();
    let mut engine = open_engine(&dir);
    let ghost = 0xdead_beefu128;
    let q: Embedding = vec![0.0; DIM].into();
    let err = engine.query(&ghost, &q, 5, &qopts(100)).unwrap_err();
    assert!(matches!(err, EngineError::CollectionNotFound(_)));
    assert!(matches!(
        engine.count(&ghost).unwrap_err(),
        EngineError::CollectionNotFound(_)
    ));
    assert!(matches!(
        engine.get(&ghost, &["a".to_string()]).unwrap_err(),
        EngineError::CollectionNotFound(_)
    ));
}

#[test]
fn delete_collection_removes_all_state() {
    let dir = new_dir();
    let id;
    {
        let (mut engine, coll_id) = test_engine(&dir, 100);
        id = coll_id;
        let v: Embedding = vec![0.5; DIM].into();
        engine
            .add(&id, &["a".to_string()], &[v], None, None)
            .unwrap();
        assert_eq!(engine.count(&id).unwrap(), 1);

        engine.delete_collection(&id).unwrap();
        assert!(
            engine
                .get_collection(TENANT, DATABASE, "coll")
                .unwrap()
                .is_none()
        );
        assert!(!dir.borrow().logs.contains_key(&id));
    }

    let engine = open_engine(&dir);
    assert!(
        engine
            .get_collection(TENANT, DATABASE, "coll")
            .unwrap()
            .is_none()
    );
}

#[test]
fn query_with_zero_ef_uses_config_default() {
    let dir = new_dir();
    let mut engine = open_engine(&dir);
    let mut config = CollectionConfig::new("ef".to_owned(), DIM, Distance::L2);
    config.hnsw.ef_search = 64;
    config.hnsw.max_scan = 0; // force the index path so ef is actually used
    let id = engine.create_collection(&config).unwrap().config.id;

    let mut rng = Lcg::new(13);
    let mut stored: Vec<(Id, Embedding)> = Vec::new();
    let mut ids = Vec::new();
    let mut embs = Vec::new();
    for i in 0..50 {
        let idstr = format!("e{i:02}");
        let v = rand_embedding(&mut rng, DIM);
        ids.push(idstr.clone());
        embs.push(v.clone());
        stored.push((idstr, v));
    }
    engine.add(&id, &ids, &embs, None, None).unwrap();

    // k = 50 requests everything, so the exact full set comes back whether ef
    // is 0 (defaulted) or explicit.
    let q = rand_embedding(&mut rng, DIM);
    for ef in [0usize, 64, 256] {
        let hits = engine.query(&id, &q, 50, &qopts(ef)).unwrap();
        assert_eq!(hits.len(), 50, "ef {ef}: expected the full set");
    }
}

#[test]
fn filtered_query_eq() {
    let dir = new_dir();
    let (mut engine, id) = test_engine(&dir, 50);
    let mut rng = Lcg::new(101);
    let mut stored: Vec<(Id, Embedding, Option<Metadata>)> = Vec::new();
    let mut ids = Vec::new();
    let mut embs = Vec::new();
    let mut metas = Vec::new();
    for i in 0..200 {
        let idstr = format!("e{i:03}");
        let v = rand_embedding(&mut rng, DIM);
        let tag = ["a", "b", "c"][i % 3];
        let meta = meta_with_tag(tag, i as i64);
        ids.push(idstr.clone());
        embs.push(v.clone());
        metas.push(Some(meta.clone()));
        stored.push((idstr, v, Some(meta)));
    }
    engine.add(&id, &ids, &embs, Some(&metas), None).unwrap();

    let filter = filter_of(r#"{"tag": {"$eq": "a"}}"#);
    let q = rand_embedding(&mut rng, DIM);
    let hits = engine
        .query(&id, &q, 10, &QueryOptions::with_where(again(&filter)))
        .unwrap();
    assert_eq!(hits.len(), 10);
    for h in &hits {
        assert_eq!(
            h.metadata.as_ref().and_then(|m| m.get("tag")),
            Some(&MetadataValue::Str("a".into())),
            "id `{}` must be tag a",
            h.id
        );
    }
    let got: HashSet<Id> = hits.iter().map(|h| h.id.clone()).collect();
    assert_eq!(
        got,
        brute_force_filtered_top_k(&stored, &filter, &q, 10),
        "filtered $eq must match brute force over the eligible set"
    );
}

#[test]
fn filtered_query_range() {
    let dir = new_dir();
    let (mut engine, id) = test_engine(&dir, 50);
    let mut rng = Lcg::new(107);
    let mut stored: Vec<(Id, Embedding, Option<Metadata>)> = Vec::new();
    let mut ids = Vec::new();
    let mut embs = Vec::new();
    let mut metas = Vec::new();
    for i in 0..200 {
        let idstr = format!("r{i:03}");
        let v = rand_embedding(&mut rng, DIM);
        let meta = meta_with_tag("a", i as i64);
        ids.push(idstr.clone());
        embs.push(v.clone());
        metas.push(Some(meta.clone()));
        stored.push((idstr, v, Some(meta)));
    }
    engine.add(&id, &ids, &embs, Some(&metas), None).unwrap();

    let filter = filter_of(r#"{"score": {"$gt": 50}}"#);
    let q = rand_embedding(&mut rng, DIM);
    let hits = engine
        .query(&id, &q, 10, &QueryOptions::with_where(again(&filter)))
        .unwrap();
    assert_eq!(hits.len(), 10);
    for h in &hits {
        let score = score_of(h);
        assert!(score > 50.0, "id `{}` must have score > 50", h.id);
    }
    let got: HashSet<Id> = hits.iter().map(|h| h.id.clone()).collect();
    assert_eq!(got, brute_force_filtered_top_k(&stored, &filter, &q, 10));
}

#[test]
fn filtered_query_in_nin_ne() {
    let dir = new_dir();
    let (mut engine, id) = test_engine(&dir, 50);
    let mut rng = Lcg::new(109);
    let mut stored: Vec<(Id, Embedding, Option<Metadata>)> = Vec::new();
    let mut ids = Vec::new();
    let mut embs = Vec::new();
    let mut metas = Vec::new();
    // 6 records with a tag, 4 with no tag at all (exercises $nin absent-key).
    for i in 0..10 {
        let idstr = format!("t{i}");
        let v = rand_embedding(&mut rng, DIM);
        let meta = if i < 6 {
            Some(meta_with_tag(["a", "a", "b", "b", "c", "c"][i], i as i64))
        } else {
            Some(meta_score(i as i64))
        };
        ids.push(idstr.clone());
        embs.push(v.clone());
        metas.push(meta.clone());
        stored.push((idstr, v, meta));
    }
    engine.add(&id, &ids, &embs, Some(&metas), None).unwrap();

    let q = rand_embedding(&mut rng, DIM);
    for (json, desc) in [
        (r#"{"tag": {"$in": ["a", "b"]}}"#, "$in"),
        (r#"{"tag": {"$nin": ["a"]}}"#, "$nin"),
        (r#"{"tag": {"$ne": "a"}}"#, "$ne"),
    ] {
        let filter = filter_of(json);
        let hits = engine
            .query(&id, &q, 10, &QueryOptions::with_where(again(&filter)))
            .unwrap();
        let got: HashSet<Id> = hits.iter().map(|h| h.id.clone()).collect();
        assert_eq!(
            got,
            brute_force_filtered_top_k(&stored, &filter, &q, 10),
            "{desc} must match brute force over the eligible set"
        );
    }
}

#[test]
fn filtered_query_and_or() {
    let dir = new_dir();
    let (mut engine, id) = test_engine(&dir, 50);
    let mut rng = Lcg::new(113);
    let mut stored: Vec<(Id, Embedding, Option<Metadata>)> = Vec::new();
    let mut ids = Vec::new();
    let mut embs = Vec::new();
    let mut metas = Vec::new();
    for i in 0..200 {
        let idstr = format!("a{i:03}");
        let v = rand_embedding(&mut rng, DIM);
        let meta = meta_with_tag(["a", "b", "c"][i % 3], i as i64);
        ids.push(idstr.clone());
        embs.push(v.clone());
        metas.push(Some(meta.clone()));
        stored.push((idstr, v, Some(meta)));
    }
    engine.add(&id, &ids, &embs, Some(&metas), None).unwrap();

    let q = rand_embedding(&mut rng, DIM);
    for json in [
        r#"{"$and": [{"tag": "a"}, {"score": {"$gte": 50}}]}"#,
        r#"{"$or": [{"tag": "a"}, {"score": {"$lt": 10}}]}"#,
    ] {
        let filter = filter_of(json);
        let hits = engine
            .query(&id, &q, 10, &QueryOptions::with_where(again(&filter)))
            .unwrap();
        let got: HashSet<Id> = hits.iter().map(|h| h.id.clone()).collect();
        assert_eq!(
            got,
            brute_force_filtered_top_k(&stored, &filter, &q, 10),
            "filter {json} must match brute force"
        );
    }
}

/// Force the ANN path (max_scan = 50 < eligible set) and check the
/// post-filtered graph walk still recovers the exact eligible top-k.
#[test]
fn filtered_query_ann_path() {
    let dir = new_dir();
    let mut engine = open_engine(&dir);
    let mut config = CollectionConfig::new("annf".to_owned(), DIM, Distance::L2);
    config.hnsw.batch_size = 50;
    config.hnsw.max_scan = 50; // once > 50 eligible, the planner takes the ANN path
    config.hnsw.ef_search = 200;
    let id = engine.create_collection(&config).unwrap().config.id;

    let mut rng = Lcg::new(0xF00D);
    let mut stored: Vec<(Id, Embedding, Option<Metadata>)> = Vec::new();
    let mut ids = Vec::new();
    let mut embs = Vec::new();
    let mut metas = Vec::new();
    for i in 0..500 {
        let idstr = format!("a{i:03}");
        let v = rand_embedding(&mut rng, DIM);
        // score cycles 0..99 so `> 49` matches ~250 records (> max_scan).
        let meta = meta_score((i % 100) as i64);
        ids.push(idstr.clone());
        embs.push(v.clone());
        metas.push(Some(meta.clone()));
        stored.push((idstr, v, Some(meta)));
    }
    engine.add(&id, &ids, &embs, Some(&metas), None).unwrap();
    assert_eq!(engine.committed_count(&id).unwrap(), 500);

    let filter = filter_of(r#"{"score": {"$gt": 49}}"#);
    let q = rand_embedding(&mut rng, DIM);
    let hits = engine
        .query(
            &id,
            &q,
            10,
            &QueryOptions {
                ef: 200,
                where_filter: Some(again(&filter)),
                oversampling: 8,
            },
        )
        .unwrap();
    assert_eq!(hits.len(), 10);
    for h in &hits {
        let score = score_of(h);
        assert!(score > 49.0, "id `{}` must be eligible", h.id);
    }
    let got: HashSet<Id> = hits.iter().map(|h| h.id.clone()).collect();
    assert_eq!(
        got,
        brute_force_filtered_top_k(&stored, &filter, &q, 10),
        "ANN path must recover the exact eligible top-k (ef=200, oversampling=8)"
    );
}

#[test]
fn filtered_query_matches_buffer_only() {
    let dir = new_dir();
    let (mut engine, id) = test_engine(&dir, 1000); // nothing flushes
    let mut rng = Lcg::new(77);
    let mut ids = Vec::new();
    let mut embs = Vec::new();
    let mut metas = Vec::new();
    for i in 0..6 {
        ids.push(format!("b{i}"));
        embs.push(rand_embedding(&mut rng, DIM));
        metas.push(Some(meta_with_tag(if i < 3 { "x" } else { "y" }, i as i64)));
    }
    engine.add(&id, &ids, &embs, Some(&metas), None).unwrap();
    assert_eq!(engine.committed_count(&id).unwrap(), 0, "nothing flushed");

    let filter = filter_of(r#"{"tag": {"$eq": "x"}}"#);
    let q = rand_embedding(&mut rng, DIM);
    let hits = engine
        .query(&id, &q, 3, &QueryOptions::with_where(filter))
        .unwrap();
    let got: HashSet<Id> = hits.iter().map(|h| h.id.clone()).collect();
    assert_eq!(
        got,
        HashSet::from(["b0".to_string(), "b1".to_string(), "b2".to_string()]),
        "only buffer records with tag x are eligible"
    );
}

#[test]
fn filtered_query_excludes_deleted() {
    let dir = new_dir();
    let (mut engine, id) = test_engine(&dir, 50);
    let mut rng = Lcg::new(19);
    let mut stored: Vec<(Id, Embedding, Option<Metadata>)> = Vec::new();
    let mut ids = Vec::new();
    let mut embs = Vec::new();
    let mut metas = Vec::new();
    for i in 0..10 {
        ids.push(format!("g{i}"));
        let v = rand_embedding(&mut rng, DIM);
        embs.push(v.clone());
        let meta = meta_with_tag(if i < 8 { "a" } else { "b" }, i as i64);
        metas.push(Some(meta.clone()));
        stored.push((ids[i].clone(), v, Some(meta)));
    }
    engine.add(&id, &ids, &embs, Some(&metas), None).unwrap();
    engine
        .delete(&id, &["g2".to_string(), "g5".to_string()])
        .unwrap();
    stored.retain(|(id, _, _)| id != "g2" && id != "g5");

    let filter = filter_of(r#"{"tag": {"$eq": "a"}}"#);
    let q = rand_embedding(&mut rng, DIM);
    let hits = engine
        .query(&id, &q, 10, &QueryOptions::with_where(again(&filter)))
        .unwrap();
    assert!(
        !hits.iter().any(|h| h.id == "g2" || h.id == "g5"),
        "deleted ids must never be returned"
    );
    assert_eq!(
        hits.len(),
        brute_force_filtered_top_k(&stored, &filter, &q, 10).len(),
        "deleted records must be gone from the eligible set"
    );
}

#[test]
fn filtered_query_after_metadata_update() {
    let dir = new_dir();
    let (mut engine, id) = test_engine(&dir, 50);
    let mut rng = Lcg::new(23);
    let mut ids = Vec::new();
    let mut embs = Vec::new();
    let mut metas = Vec::new();
    for i in 0..5 {
        ids.push(format!("u{i}"));
        embs.push(rand_embedding(&mut rng, DIM));
        metas.push(Some(meta_with_tag("a", i as i64)));
    }
    engine.add(&id, &ids, &embs, Some(&metas), None).unwrap();

    let filter_a = filter_of(r#"{"tag": {"$eq": "a"}}"#);
    let filter_b = filter_of(r#"{"tag": {"$eq": "b"}}"#);
    let q = rand_embedding(&mut rng, DIM);
    let before = engine
        .query(&id, &q, 5, &QueryOptions::with_where(again(&filter_a)))
        .unwrap();
    assert_eq!(before.len(), 5, "all five start as tag a");

    // Upsert u1 with tag a -> b.
    engine
        .upsert(
            &id,
            &["u1".to_string()],
            &[rand_embedding(&mut rng, DIM)],
            Some(&[Some(meta_with_tag("b", 1))]),
            None,
        )
        .unwrap();

    let after_a = engine
        .query(&id, &q, 5, &QueryOptions::with_where(filter_a))
        .unwrap();
    assert!(
        after_a.iter().all(|h| h.id != "u1"),
        "u1 must no longer match tag a"
    );
    let after_b = engine
        .query(&id, &q, 5, &QueryOptions::with_where(filter_b))
        .unwrap();
    assert!(
        after_b.iter().any(|h| h.id == "u1"),
        "u1 must match tag b after the upsert"
    );
}

#[test]
fn filtered_query_after_replay() {
    let dir = new_dir();
    let mut rng = Lcg::new(31);
    let filter = filter_of(r#"{"tag": {"$eq": "a"}}"#);
    let q = rand_embedding(&mut rng, DIM);
    let before: HashSet<Id>;
    {
        let (mut engine, id) = test_engine(&dir, 3); // small batch: most records flush
        let mut ids = Vec::new();
        let mut embs = Vec::new();
        let mut metas = Vec::new();
        for i in 0..10 {
            ids.push(format!("r{i}"));
            embs.push(rand_embedding(&mut rng, DIM));
            metas.push(Some(meta_with_tag(
                if i % 2 == 0 { "a" } else { "b" },
                i as i64,
            )));
        }
        engine.add(&id, &ids, &embs, Some(&metas), None).unwrap();
        assert!(engine.committed_count(&id).unwrap() >= 6, "records flushed");
        before = engine
            .query(&id, &q, 5, &QueryOptions::with_where(again(&filter)))
            .unwrap()
            .iter()
            .map(|h| h.id.clone())
            .collect();
        assert_eq!(before.len(), 5);
    }

    let engine = open_engine(&dir);
    let id = collection_id_by_name(&engine);
    let after: HashSet<Id> = engine
        .query(&id, &q, 5, &QueryOptions::with_where(filter))
        .unwrap()
        .iter()
        .map(|h| h.id.clone())
        .collect();
    assert_eq!(
        after, before,
        "replay must rebuild postings identically (same query, same set)"
    );
}

#[test]
fn filtered_query_no_match_returns_empty() {
    let dir = new_dir();
    let (mut engine, id) = test_engine(&dir, 100);
    let mut rng = Lcg::new(41);
    let ids: Vec<Id> = (0..5).map(|i| format!("z{i}")).collect();
    let embs: Vec<Embedding> = (0..5).map(|_| rand_embedding(&mut rng, DIM)).collect();
    let metas: Vec<Option<Metadata>> = (0..5).map(|i| Some(meta_with_tag("a", i as i64))).collect();
    engine.add(&id, &ids, &embs, Some(&metas), None).unwrap();

    let filter = filter_of(r#"{"tag": {"$eq": "nope"}}"#);
    let q = rand_embedding(&mut rng, DIM);
    let hits = engine
        .query(&id, &q, 5, &QueryOptions::with_where(filter))
        .unwrap();
    assert!(hits.is_empty(), "no eligible records => empty result");
}

#[test]
fn unfiltered_query_unchanged() {
    let dir = new_dir();
    let (mut engine, id) = test_engine(&dir, 50);
    let mut rng = Lcg::new(43);
    let mut stored: Vec<(Id, Embedding)> = Vec::new();
    let mut ids = Vec::new();
    let mut embs = Vec::new();
    for i in 0..50 {
        let idstr = format!("n{i:02}");
        let v = rand_embedding(&mut rng, DIM);
        ids.push(idstr.clone());
        embs.push(v.clone());
        stored.push((idstr, v));
    }
    engine.add(&id, &ids, &embs, None, None).unwrap();

    let q = rand_embedding(&mut rng, DIM);
    let hits = engine.query(&id, &q, 10, &QueryOptions::default()).unwrap();
    let got: HashSet<Id> = hits.iter().map(|h| h.id.clone()).collect();
    assert_eq!(
        got,
        brute_force_top_k(&stored, &q, 10),
        "default options must behave exactly like the old signature"
    );
}

#[test]
fn postings_int_float_coercion() {
    let dir = new_dir();
    let (mut engine, id) = test_engine(&dir, 100);
    let mut rng = Lcg::new(61);
    let ids: Vec<Id> = vec!["int5".into(), "flt5".into(), "six".into()];
    let embs: Vec<Embedding> = (0..3).map(|_| rand_embedding(&mut rng, DIM)).collect();
    let mut m_int = Metadata::new();
    m_int.insert("score".into(), MetadataValue::Int(5));
    let mut m_flt = Metadata::new();
    m_flt.insert("score".into(), MetadataValue::Float(F64 { bits: 5.0f64.to_bits() }));
    let mut m_six = Metadata::new();
    m_six.insert("score".into(), MetadataValue::Int(6));
    let metas: Vec<Option<Metadata>> = vec![Some(m_int), Some(m_flt), Some(m_six)];
    engine.add(&id, &ids, &embs, Some(&metas), None).unwrap();

    let q = rand_embedding(&mut rng, DIM);
    // 5.0 parses as Float; Int(5) and Float(5.0) must collide (Chroma coercion).
    for json in [r#"{"score": {"$eq": 5.0}}"#, r#"{"score": {"$eq": 5}}"#] {
        let filter = filter_of(json);
        let hits = engine
            .query(&id, &q, 3, &QueryOptions::with_where(filter))
            .unwrap();
        let got: HashSet<Id> = hits.iter().map(|h| h.id.clone()).collect();
        assert_eq!(
            got,
            HashSet::from(["int5".to_string(), "flt5".to_string()]),
            "filter {json} must match both Int(5) and Float(5.0) records"
        );
    }
}

// ---------------------------------------------------------------------------
// Phase 4a: checkpointing
// ---------------------------------------------------------------------------

/// Byte length of a collection's log.
fn wal_len(dir: &Dir, id: &Uuid) -> usize {
    dir.borrow().logs[id].len()
}

/// Query helper mirroring `qopts` with an optional where filter.
fn query_top_k(
    engine: &Engine,
    id: &Uuid,
    query: &Embedding,
    k: usize,
    filter: Option<WhereFilter>,
) -> HashSet<Id> {
    let mut opts = qopts(100);
    opts.where_filter = filter;
    engine
        .query(id, query, k, &opts)
        .unwrap()
        .iter()
        .map(|h| h.id.clone())
        .collect()
}

/// Add `n` records named `c0..c{n-1}` and return `(ids, embeddings, stored)`.
fn add_n(
    engine: &mut Engine,
    id: &Uuid,
    rng: &mut Lcg,
    n: usize,
    prefix: &str,
) -> (Vec<Id>, Vec<Embedding>, Vec<(Id, Embedding)>) {
    let ids: Vec<Id> = (0..n).map(|i| format!("{prefix}{i}")).collect();
    let embs: Vec<Embedding> = (0..n).map(|_| rand_embedding(rng, DIM)).collect();
    let stored: Vec<(Id, Embedding)> = ids.iter().cloned().zip(embs.iter().cloned()).collect();
    engine.add(id, &ids, &embs, None, None).unwrap();
    (ids, embs, stored)
}

/// Checkpoint + reopen + verify the state and seqs survive, and that new
/// appends resume where the checkpoint left off.
#[test]
fn checkpoint_then_reopen_preserves_state_and_seqs() {
    let dir = new_dir();
    let mut rng = Lcg::new(9_001);
    let (mut engine, id) = test_engine(&dir, 2); // flushes, so the index has vectors
    let (_, _, stored) = add_n(&mut engine, &id, &mut rng, 10, "c");

    engine.checkpoint(&id).unwrap();
    // Pruned to the (empty) un-checkpointed tail: the file shrank to near-empty.
    assert!(
        wal_len(&dir, &id) < 1_000,
        "WAL pruned by checkpoint"
    );

    drop(engine);
    let mut engine = open_engine(&dir);
    let id = collection_id_by_name(&engine);

    assert_eq!(engine.count(&id).unwrap(), 10, "records survive checkpoint");
    assert_eq!(
        engine.committed_count(&id).unwrap(),
        10,
        "index restored from index.bin"
    );
    for i in 0..10 {
        let rec = engine.get(&id, &[format!("c{i}")]).unwrap()[0]
            .clone()
            .expect("record present");
        assert_eq!(
            rec.embedding.as_ref().unwrap(),
            &stored[i].1
        );
        assert_eq!(
            engine.seq_of(&id, &format!("c{i}")).unwrap(),
            (i + 1) as u64
        );
    }
    for _ in 0..3 {
        let q = rand_embedding(&mut rng, DIM);
        assert_eq!(
            query_top_k(&engine, &id, &q, 5, None),
            brute_force_top_k(&stored, &q, 5)
        );
    }

    // New writes continue the seq where the checkpoint left off.
    let new_ids: Vec<Id> = (10..13).map(|i| format!("c{i}")).collect();
    let new_embs: Vec<Embedding> = (0..3).map(|_| rand_embedding(&mut rng, DIM)).collect();
    engine.add(&id, &new_ids, &new_embs, None, None).unwrap();
    for (i, nid) in new_ids.iter().enumerate() {
        assert_eq!(
            engine.seq_of(&id, nid).unwrap(),
            (11 + i) as u64,
            "seq resumes after checkpoint"
        );
    }
    assert_eq!(engine.count(&id).unwrap(), 13);
}

/// A checkpoint taken before any flush stores the records but an empty index;
/// the reopen replays the (kept) WAL tail into the buffer.
#[test]
fn checkpoint_without_flush_reopen_replays_tail() {
    let dir = new_dir();
    let mut rng = Lcg::new(9_002);
    let (mut engine, id) = test_engine(&dir, 1000); // never flushes
    let (_, _, stored) = add_n(&mut engine, &id, &mut rng, 10, "u");
    assert_eq!(engine.committed_count(&id).unwrap(), 0);

    engine.checkpoint(&id).unwrap();

    drop(engine);
    let engine = open_engine(&dir);
    let id = collection_id_by_name(&engine);

    assert_eq!(
        engine.count(&id).unwrap(),
        10,
        "records survive an unflushed checkpoint"
    );
    assert_eq!(engine.committed_count(&id).unwrap(), 0, "index stays empty");
    for _ in 0..3 {
        let q = rand_embedding(&mut rng, DIM);
        assert_eq!(
            query_top_k(&engine, &id, &q, 5, None),
            brute_force_top_k(&stored, &q, 5)
        );
    }
}

/// Checkpoint pruning must not break seq continuity across a reopen.
#[test]
fn checkpoint_prunes_wal_and_resumes_seqs() {
    let dir = new_dir();
    let mut rng = Lcg::new(9_003);
    let (mut engine, id) = test_engine(&dir, 2);
    add_n(&mut engine, &id, &mut rng, 10, "p");

    let wal_before = wal_len(&dir, &id);
    engine.checkpoint(&id).unwrap();
    let wal_after = wal_len(&dir, &id);
    assert!(wal_after < wal_before, "checkpoint shrank the WAL");
    assert!(wal_after < 1_000, "WAL pruned to near-empty");

    drop(engine);
    let mut engine = open_engine(&dir);
    let id = collection_id_by_name(&engine);

    let extra: Vec<Id> = (10..13).map(|i| format!("p{i}")).collect();
    let extra_embs: Vec<Embedding> = (0..3).map(|_| rand_embedding(&mut rng, DIM)).collect();
    engine.add(&id, &extra, &extra_embs, None, None).unwrap();
    for (i, eid) in extra.iter().enumerate() {
        assert_eq!(
            engine.seq_of(&id, eid).unwrap(),
            (11 + i) as u64,
            "no seq gap after reopen"
        );
    }
    assert_eq!(engine.count(&id).unwrap(), 13);
}

/// A corrupt checkpoint file must degrade to a full WAL replay, never a panic.
#[test]
fn corrupt_checkpoint_falls_back_to_full_replay() {
    for corrupt in ["checkpoint.json", "records.bin"] {
        let dir = new_dir();
        let mut rng = Lcg::new(9_004);
        // Unflushed records: the checkpoint prunes nothing (flushed_seq = 0), so
        // the WAL still holds the full history for the fallback replay.
        let (mut engine, id) = test_engine(&dir, 1000);
        let (_, _, stored) = add_n(&mut engine, &id, &mut rng, 6, "f");
        engine.checkpoint(&id).unwrap();

        {
            let mut disk = dir.borrow_mut();
            let saved = disk.checkpoints.get_mut(&id).unwrap();
            match corrupt {
                "checkpoint.json" => saved.meta = None,
                _ => saved.records = None,
            }
        }

        drop(engine);
        let engine = open_engine(&dir);
        let id = collection_id_by_name(&engine);
        assert_eq!(
            engine.count(&id).unwrap(),
            6,
            "full replay recovers from corrupt {corrupt}"
        );
        for _ in 0..3 {
            let q = rand_embedding(&mut rng, DIM);
            assert_eq!(
                query_top_k(&engine, &id, &q, 6, None),
                brute_force_top_k(&stored, &q, 6)
            );
        }
    }
}

/// A lost/corrupt index.bin must NOT lose the records: once the WAL is pruned,
/// records.bin is the only copy. Reopen degrades to an empty index (queries
/// fall back to the exact brute-force path) and keeps every record.
#[test]
fn missing_index_bin_keeps_records() {
    let dir = new_dir();
    let mut rng = Lcg::new(9_005);
    let (mut engine, id) = test_engine(&dir, 2); // flushed -> checkpoint carries index.bin
    let (_, _, stored) = add_n(&mut engine, &id, &mut rng, 8, "m");
    engine.checkpoint(&id).unwrap();

    dir.borrow_mut().checkpoints.get_mut(&id).unwrap().index = None;

    drop(engine);
    let engine = open_engine(&dir);
    let id = collection_id_by_name(&engine);

    assert_eq!(
        engine.count(&id).unwrap(),
        8,
        "records survive a missing index.bin"
    );
    assert_eq!(
        engine.committed_count(&id).unwrap(),
        0,
        "index degrades to empty"
    );
    for _ in 0..3 {
        let q = rand_embedding(&mut rng, DIM);
        assert_eq!(
            query_top_k(&engine, &id, &q, 8, None),
            brute_force_top_k(&stored, &q, 8)
        );
    }
}

/// With a low `sync_threshold`, auto-checkpoint keeps the WAL bounded without
/// any explicit `checkpoint` call.
#[test]
fn auto_checkpoint_bounds_wal_growth() {
    let dir = new_dir();
    let mut engine = open_engine(&dir);
    let mut config = CollectionConfig::new("coll".to_owned(), DIM, Distance::L2);
    config.hnsw.batch_size = 5;
    config.hnsw.sync_threshold = 5;
    let id = engine.create_collection(&config).unwrap().config.id;

    let mut rng = Lcg::new(9_006);
    let (_, _, stored) = add_n(&mut engine, &id, &mut rng, 60, "a");
    // 60 unpruned records would be well over 1 KB; auto-checkpoints keep it tiny.
    assert!(
        wal_len(&dir, &id) < 1_000,
        "auto-checkpoint bounded the WAL"
    );

    drop(engine);
    let engine = open_engine(&dir);
    let id = collection_id_by_name(&engine);
    assert_eq!(
        engine.count(&id).unwrap(),
        60,
        "all records survive auto-checkpoint"
    );
    assert_eq!(engine.seq_of(&id, &"a0".to_string()).unwrap(), 1);
    assert_eq!(engine.seq_of(&id, &"a59".to_string()).unwrap(), 60);
    for _ in 0..3 {
        let q = rand_embedding(&mut rng, DIM);
        assert_eq!(
            query_top_k(&engine, &id, &q, 10, None),
            brute_force_top_k(&stored, &q, 10)
        );
    }
}

/// `optimize` rebuilds the HNSW graph from live records, so deletes are
/// reclaimed and the stats reflect the materialized state.
#[test]
fn optimize_reclaims_deleted_vectors() {
    let dir = new_dir();
    let mut rng = Lcg::new(9_007);
    let (mut engine, id) = test_engine(&dir, 5);
    let (ids, _, stored) = add_n(&mut engine, &id, &mut rng, 40, "o");
    assert_eq!(engine.committed_count(&id).unwrap(), 40);

    let dead: Vec<Id> = ids[..30].to_vec();
    let alive: Vec<(Id, Embedding)> = stored[30..].to_vec();
    engine.delete(&id, &dead).unwrap();
    assert_eq!(
        engine.committed_count(&id).unwrap(),
        10,
        "eager delete removed vectors"
    );

    let stats = engine.optimize(&id).unwrap();
    assert_eq!(stats.records, 10);
    assert_eq!(stats.indexed, 10, "rebuilt graph holds only live vectors");
    assert!(stats.wal_bytes_after <= stats.wal_bytes_before);
    assert_eq!(engine.count(&id).unwrap(), 10);

    for _ in 0..3 {
        let q = rand_embedding(&mut rng, DIM);
        assert_eq!(
            query_top_k(&engine, &id, &q, 5, None),
            brute_force_top_k(&alive, &q, 5)
        );
    }
}

/// `optimize` force-flushes the buffer, so an unflushed collection's vectors
/// are materialized and counted.
#[test]
fn optimize_stats_reflect_materialized_state() {
    let dir = new_dir();
    let mut rng = Lcg::new(9_008);
    let (mut engine, id) = test_engine(&dir, 1000); // nothing flushed by add
    let (_, _, _) = add_n(&mut engine, &id, &mut rng, 20, "z");
    assert_eq!(engine.committed_count(&id).unwrap(), 0);

    let stats = engine.optimize(&id).unwrap();
    assert_eq!(stats.records, 20);
    assert_eq!(stats.indexed, 20, "optimize force-flushes the buffer");
    assert_eq!(engine.committed_count(&id).unwrap(), 20);
}

/// Checkpointing an empty collection is a no-op; records with metadata and
/// embeddings survive a checkpoint even when nothing has been flushed to the
/// index.
#[test]
fn checkpoint_noop_for_empty_and_metadata_only() {
    let dir = new_dir();
    let (mut engine, id) = test_engine(&dir, 1000);
    engine.checkpoint(&id).unwrap();
    assert_eq!(engine.count(&id).unwrap(), 0);

    // Add records with metadata and embeddings (batch_size=1000 → nothing
    // flushed to the index; the checkpoint stores records.bin only).
    let mut config = CollectionConfig::new("meta".to_owned(), DIM, Distance::L2);
    config.hnsw.batch_size = 1000;
    let mid = engine.create_collection(&config).unwrap().config.id;
    let ids = vec!["m0".to_string(), "m1".to_string()];
    let embs = vec![
        rand_embedding(&mut Lcg::new(9_010), DIM),
        rand_embedding(&mut Lcg::new(9_011), DIM),
    ];
    engine
        .add(
            &mid,
            &ids,
            &embs,
            Some(&[Some(meta_with_tag("a", 1)), None]),
            None,
        )
        .unwrap();
    assert_eq!(engine.committed_count(&mid).unwrap(), 0);
    engine.checkpoint(&mid).unwrap();

    drop(engine);
    let engine = open_engine(&dir);
    let mid = engine
        .get_collection(TENANT, DATABASE, "meta")
        .unwrap()
        .unwrap()
        .config
        .id;
    let rec = engine.get(&mid, &["m0".to_string()]).unwrap()[0]
        .clone()
        .expect("m0");
    assert!(rec.embedding.is_some());
    assert_eq!(
        rec.metadata.as_ref().and_then(|m| m.get("tag")),
        Some(&MetadataValue::Str("a".into()))
    );
    assert_eq!(engine.count(&mid).unwrap(), 2);
}

/// Checkpoint writes segment files that survive reopen.
#[test]
fn checkpoint_writes_segments_and_reopen_mmaps_them() {
    let dir = new_dir();
    let mut rng = Lcg::new(9_020);
    let (mut engine, id) = test_engine(&dir, 2); // batch_size=2 → flushed
    let (_, _, stored) = add_n(&mut engine, &id, &mut rng, 8, "s");

    engine.checkpoint(&id).unwrap();

    {
        // Verify the segment was written, with the right number of vectors.
        let disk = dir.borrow();
        let saved = &disk.checkpoints[&id];
        assert_eq!(saved.places.len(), 8, "segment index written");
        let seg = Segment::open(saved.segment.as_ref().expect("segment written")).unwrap();
        assert_eq!(seg.len(), 8);
        assert_eq!(seg.dimension(), DIM);
    }

    // Reopen and verify records survive.
    drop(engine);
    let engine = open_engine(&dir);
    let id = collection_id_by_name(&engine);
    assert_eq!(engine.count(&id).unwrap(), 8);
    for _ in 0..3 {
        let q = rand_embedding(&mut rng, DIM);
        assert_eq!(
            query_top_k(&engine, &id, &q, 5, None),
            brute_force_top_k(&stored, &q, 5)
        );
    }
}

/// Optimize writes segments that survive reopen.
#[test]
fn optimize_writes_segments_and_reopen_mmaps_them() {
    let dir = new_dir();
    let mut rng = Lcg::new(9_021);
    let (mut engine, id) = test_engine(&dir, 2);
    let (_, _, stored) = add_n(&mut engine, &id, &mut rng, 6, "o");

    let stats = engine.optimize(&id).unwrap();
    assert_eq!(stats.records, 6);

    assert!(
        dir.borrow().checkpoints[&id].segment.is_some(),
        "optimize writes segment"
    );

    // Reopen and verify.
    drop(engine);
    let engine = open_engine(&dir);
    let id = collection_id_by_name(&engine);
    assert_eq!(engine.count(&id).unwrap(), 6);
    for _ in 0..3 {
        let q = rand_embedding(&mut rng, DIM);
        assert_eq!(
            query_top_k(&engine, &id, &q, 5, None),
            brute_force_top_k(&stored, &q, 5)
        );
    }
}

// ---------------------------------------------------------------------------
// WAL shipping: wal_delta / wal_last_seq / apply_remote_ops
// ---------------------------------------------------------------------------

/// Engine::wal_delta returns records from the WAL starting at from_seq.
#[test]
fn wal_delta_returns_records_from_seq() {
    let dir = new_dir();
    let mut rng = Lcg::new(9_030);
    let (mut engine, id) = test_engine(&dir, 1000);
    let _ = add_n(&mut engine, &id, &mut rng, 5, "d");

    // All 5 records are in the WAL (not flushed).
    let delta = engine.wal_delta(&id, 1).unwrap();
    assert_eq!(delta.records.len(), 5);
    assert_eq!(delta.target_seq, 5);

    // From seq 3: should get records 3, 4, 5.
    let delta = engine.wal_delta(&id, 3).unwrap();
    assert_eq!(delta.records.len(), 3);

    // From seq 10 (beyond last): empty.
    let delta = engine.wal_delta(&id, 10).unwrap();
    assert!(delta.records.is_empty());
}

/// Engine::wal_last_seq reports the correct WAL head.
#[test]
fn wal_last_seq_reports_head() {
    let dir = new_dir();
    let mut rng = Lcg::new(9_032);
    let (mut engine, id) = test_engine(&dir, 1000);
    assert_eq!(engine.wal_last_seq(&id).unwrap(), 0, "empty WAL");
    let _ = add_n(&mut engine, &id, &mut rng, 7, "w");
    assert_eq!(engine.wal_last_seq(&id).unwrap(), 7, "7 records written");
}

/// Engine::apply_remote_ops applies operations without WAL append.
#[test]
fn apply_remote_ops_applies_without_wal() {
    let dir = new_dir();
    let mut rng = Lcg::new(9_031);
    let (mut engine, id) = test_engine(&dir, 1000);

    // Apply remote ops directly (no local WAL append).
    let ops: Vec<_> = (0..3)
        .map(|i| {
            let emb: Embedding = rand_embedding(&mut rng, DIM);
            LoggedOp {
                seq: i as u64 + 1,
                op: Operation::Add {
                    id: format!("r{i}"),
                    embedding: bits(&emb),
                    metadata: None,
                    document: None,
                },
            }
        })
        .collect();
    engine.apply_remote_ops(&id, ops).unwrap();

    assert_eq!(engine.count(&id).unwrap(), 3);
}

/// Round-trip: leader wal_delta → decode_ops → follower apply_remote_ops.
#[test]
fn wal_delta_roundtrip_to_follower() {
    let dir = new_dir();
    let mut rng = Lcg::new(9_033);
    let (mut engine, id) = test_engine(&dir, 1000);
    let (ids, embs, _) = add_n(&mut engine, &id, &mut rng, 4, "f");

    // Leader ships delta from seq 1.
    let delta = engine.wal_delta(&id, 1).unwrap();
    assert_eq!(delta.records.len(), 4);

    // Follower applies the decoded ops.
    let dir2 = new_dir();
    let (mut engine2, id2) = test_engine(&dir2, 1000);
    let ops = delta.decode_ops(delta.records.iter().map(|r| decode(&r.payload)).collect());
    engine2.apply_remote_ops(&id2, ops).unwrap();
    assert_eq!(engine2.count(&id2).unwrap(), 4);

    // Verify the follower's records match the leader's.
    for (want_id, want_emb) in ids.iter().zip(&embs) {
        let rec = engine2.get(&id2, &[want_id.clone()]).unwrap()[0]
            .clone()
            .expect("record present on follower");
        assert_eq!(rec.embedding.as_ref().unwrap(), want_emb);
    }
}

// ---------------------------------------------------------------------------
// Laws on concrete values
// ---------------------------------------------------------------------------

/// The dimension of a collection that was created without one is that of the
/// first vector, also after the log is replayed.
#[test]
fn the_first_vector_fixes_the_dimension() {
    let dir = new_dir();
    let mut engine = open_engine(&dir);
    let config = CollectionConfig::new("any".to_owned(), 0, Distance::L2);
    let id = engine.create_collection(&config).unwrap().config.id;
    let bad = engine.add(&id, &["a".into(), "b".into()], &[vec![1.0, 2.0], vec![1.0]], None, None);
    assert!(matches!(bad, Err(EngineError::Validation(_))));
    engine.add(&id, &["c".into()], &[vec![1.0, 2.0, 3.0]], None, None).unwrap();
    assert_eq!(engine.core.collection(id).unwrap().config().dimension, 3);
    assert_eq!(engine.core.get_collection_by_id(id).unwrap().config.dimension, 3);
    let bad = engine.upsert(&id, &["d".into()], &[vec![1.0, 2.0]], None, None);
    assert!(matches!(bad, Err(EngineError::Validation(_))));
    drop(engine);
    let engine = open_engine(&dir);
    assert_eq!(engine.core.collection(id).unwrap().config().dimension, 3);
}

/// A refused batch leaves everything as it was.
#[test]
fn refused_batches_change_nothing() {
    let dir = new_dir();
    let (mut engine, id) = test_engine(&dir, 2);
    let mut rng = Lcg::new(5);
    add_n(&mut engine, &id, &mut rng, 3, "k");
    let before = (wal_len(&dir, &id), engine.count(&id).unwrap(), engine.wal_last_seq(&id).unwrap());
    let v = rand_embedding(&mut rng, DIM);
    assert!(engine.add(&id, &["n".into(), "k1".into()], &[v.clone(), v.clone()], None, None).is_err());
    assert!(engine.update(&id, &["k1".into(), "n".into()], None, None).is_err());
    assert!(engine.upsert(&id, &["n".into()], &[vec![0.0; 3]], None, None).is_err());
    let after = (wal_len(&dir, &id), engine.count(&id).unwrap(), engine.wal_last_seq(&id).unwrap());
    assert_eq!(before, after);
    assert!(engine.get(&id, &["n".into()]).unwrap()[0].is_none());
}

/// What a batch wrote is read back, an id that comes twice as it came last, and
/// nothing else changes.
#[test]
fn batches_are_read_back() {
    let dir = new_dir();
    let (mut engine, id) = test_engine(&dir, 100);
    let mut rng = Lcg::new(11);
    let v: Vec<Embedding> = (0..4).map(|_| rand_embedding(&mut rng, DIM)).collect();
    let names: Vec<Id> = vec!["a".into(), "b".into()];
    engine
        .add(&id, &names, &v[..2], Some(&[Some(meta_score(1)), None]), Some(&[None, Some("two".into())]))
        .unwrap();
    let got = engine.get(&id, &names).unwrap();
    let (a, b) = (got[0].clone().unwrap(), got[1].clone().unwrap());
    assert_eq!((a.embedding.as_ref(), b.embedding.as_ref()), (Some(&v[0]), Some(&v[1])));
    assert_eq!(a.metadata.unwrap().get("score"), Some(&MetadataValue::Int(1)));
    assert!(b.metadata.is_none());
    assert_eq!((a.document, b.document), (None, Some("two".to_string())));
    assert_eq!(b.seq, a.seq + 1);

    let twice: Vec<Id> = vec!["a".into(), "a".into()];
    engine
        .upsert(&id, &twice, &v[2..], None, Some(&[Some("x".into()), Some("y".into())]))
        .unwrap();
    let got = engine.get(&id, &names).unwrap();
    let (a, same) = (got[0].clone().unwrap(), got[1].clone().unwrap());
    assert_eq!((a.embedding, a.document), (Some(v[3].clone()), Some("y".to_string())));
    assert_eq!(a.seq, b.seq + 2);
    assert_eq!((same.embedding, same.seq), (b.embedding, b.seq));

    engine.update(&id, &twice, Some(&[None, Some(meta_score(7))]), None).unwrap();
    let a = engine.get(&id, &names).unwrap()[0].clone().unwrap();
    assert_eq!((a.embedding, a.document), (Some(v[3].clone()), Some("y".to_string())));
    assert_eq!(a.metadata.unwrap().get("score"), Some(&MetadataValue::Int(7)));

    // What an update is not given stays, also after the log is replayed.
    engine.update(&id, &["a".into()], None, Some(&[Some("z".into())])).unwrap();
    drop(engine);
    let mut engine = open_engine(&dir);
    let a = engine.get(&id, &names).unwrap()[0].clone().unwrap();
    assert_eq!((a.embedding, a.document), (Some(v[3].clone()), Some("z".to_string())));
    assert_eq!(a.metadata.unwrap().get("score"), Some(&MetadataValue::Int(7)));
    engine.update(&id, &["a".into()], Some(&[None]), None).unwrap();
    let a = engine.get(&id, &names).unwrap()[0].clone().unwrap();
    assert!(a.metadata.is_none() && a.document.is_some());

    engine.delete(&id, &twice).unwrap();
    let got = engine.get(&id, &names).unwrap();
    assert!(got[0].is_none() && got[1].is_some());
    assert_eq!(engine.count(&id).unwrap(), 1);
}

/// Records are what the last operation on them made of them, whatever was
/// flushed, checkpointed, replayed or rebuilt in between.
#[test]
fn histories_end_in_their_last_operations() {
    let mut rng = Lcg::new(77_001);
    for batch_size in [1usize, 3, 1000] {
        let dir = new_dir();
        let (mut engine, id) = test_engine(&dir, batch_size);
        let mut want: HashMap<Id, (Embedding, Option<String>)> = HashMap::new();
        for step in 0..300 {
            let name = format!("x{}", rng.next() % 20);
            match rng.next() % 8 {
                0 | 1 | 2 => {
                    let v = rand_embedding(&mut rng, DIM);
                    let doc = Some(format!("d{step}"));
                    engine
                        .upsert(&id, &[name.clone()], &[v.clone()], None, Some(&[doc.clone()]))
                        .unwrap();
                    want.insert(name, (v, doc));
                }
                3 => {
                    let doc = Some(format!("u{step}"));
                    let r = engine.update(&id, &[name.clone()], None, Some(&[doc.clone()]));
                    match want.get_mut(&name) {
                        Some(w) => {
                            r.unwrap();
                            w.1 = doc;
                        }
                        None => assert!(r.is_err()),
                    }
                }
                4 => {
                    engine.delete(&id, &[name.clone()]).unwrap();
                    want.remove(&name);
                }
                5 => engine.checkpoint(&id).unwrap(),
                6 => {
                    if rng.next() % 4 == 0 {
                        engine.optimize(&id).unwrap();
                    }
                }
                _ => {
                    drop(engine);
                    engine = open_engine(&dir);
                }
            }
            assert_eq!(engine.count(&id).unwrap(), want.len() as u64);
        }
        let names: Vec<Id> = (0..20).map(|i| format!("x{i}")).collect();
        for r in engine.get(&id, &names).unwrap().iter().zip(&names) {
            match want.get(r.1) {
                Some((v, doc)) => {
                    let got = r.0.as_ref().expect("record present");
                    assert_eq!(got.id, *r.1);
                    assert_eq!(got.embedding.as_ref().unwrap(), v);
                    assert_eq!(got.document, *doc);
                }
                None => assert!(r.0.is_none()),
            }
        }
        let stored: Vec<(Id, Embedding)> = want.iter().map(|(i, w)| (i.clone(), w.0.clone())).collect();
        let q = rand_embedding(&mut rng, DIM);
        assert_eq!(query_top_k(&engine, &id, &q, 5, None), brute_force_top_k(&stored, &q, 5));
    }
}

/// No damage to the segment file or to the places of its vectors loses a
/// vector: what the file does not hold comes with the records.
#[test]
fn damaged_segments_lose_nothing() {
    for damage in 0..6 {
        let dir = new_dir();
        let mut rng = Lcg::new(71);
        let (mut engine, id) = test_engine(&dir, 2);
        let (names, _, mut stored) = add_n(&mut engine, &id, &mut rng, 6, "d");
        engine.checkpoint(&id).unwrap();
        let older = dir.borrow().checkpoints[&id].segment.clone();
        // The second checkpoint is taken while vectors are on file alone.
        assert!(engine.core.collection(id).unwrap().load_vector(None, "d0").is_none());
        stored.extend(add_n(&mut engine, &id, &mut rng, 2, "a").2);
        engine.checkpoint(&id).unwrap();
        {
            let mut disk = dir.borrow_mut();
            let saved = disk.checkpoints.get_mut(&id).unwrap();
            assert_eq!(saved.places.len(), 8);
            match damage {
                0 => {}
                1 => saved.places.clear(),
                2 => saved.segment = None,
                3 => saved.segment = older,
                4 => saved.places.iter_mut().for_each(|p| p.1 = (p.1 + 1) % 8),
                _ => saved.places.iter_mut().for_each(|p| p.1 += 100),
            }
        }
        drop(engine);
        let engine = open_engine(&dir);
        let in_memory = engine.core.collection(id).unwrap().load_vector(None, "d0").is_some();
        assert_eq!(in_memory, damage != 0);
        let got = engine.get(&id, &names).unwrap();
        for (g, (_, v)) in got.iter().zip(&stored) {
            assert_eq!(g.as_ref().unwrap().embedding.as_ref().unwrap(), v);
        }
        let q = rand_embedding(&mut rng, DIM);
        assert_eq!(query_top_k(&engine, &id, &q, 8, None), brute_force_top_k(&stored, &q, 8));
    }
}

/// What a snapshot holds is there after it was restored elsewhere.
#[test]
fn snapshots_are_restored() {
    let dir = new_dir();
    let (mut engine, id) = test_engine(&dir, 2);
    let mut rng = Lcg::new(8);
    add_n(&mut engine, &id, &mut rng, 5, "s");
    engine.update(&id, &["s1".into()], Some(&[Some(meta_score(9))]), None).unwrap();
    engine.checkpoint(&id).unwrap();
    let segment = engine.files[&id].segment.clone();
    let records = engine.core.snapshot(id, mapped(&segment)).unwrap();
    assert_eq!(records.len(), 5);

    let other = new_dir();
    let (mut follower, fid) = test_engine(&other, 1000);
    assert!(follower.core.restore_snapshot(12345, &records).is_empty());
    assert!(follower.core.restore_snapshot(fid, &records).is_empty());
    assert_eq!(follower.count(&fid).unwrap(), 5);
    let names: Vec<Id> = (0..5).map(|i| format!("s{i}")).collect();
    let a = engine.get(&id, &names).unwrap();
    let b = follower.get(&fid, &names).unwrap();
    for (x, y) in a.iter().zip(&b) {
        let (x, y) = (x.as_ref().unwrap(), y.as_ref().unwrap());
        assert_eq!(x.embedding, y.embedding);
        assert_eq!(x.seq, y.seq);
        assert_eq!(x.metadata.is_some(), y.metadata.is_some());
    }
}

/// Collections do not touch each other.
#[test]
fn collections_are_apart() {
    let dir = new_dir();
    let (mut engine, a) = test_engine(&dir, 2);
    let b = create_collection(&mut engine, "other", DIM, Distance::Cosine, 2);
    let mut rng = Lcg::new(4);
    add_n(&mut engine, &a, &mut rng, 4, "k");
    assert_eq!(engine.count(&b).unwrap(), 0);
    add_n(&mut engine, &b, &mut rng, 3, "k");
    engine.delete(&a, &["k0".into(), "k1".into()]).unwrap();
    assert_eq!((engine.count(&a).unwrap(), engine.count(&b).unwrap()), (2, 3));
    engine.delete_collection(&a).unwrap();
    assert_eq!(engine.count(&b).unwrap(), 3);
    assert!(matches!(engine.count(&a), Err(EngineError::CollectionNotFound(_))));
    assert_eq!(
        engine.count(&0).unwrap_err().message(),
        "collection `00000000-0000-0000-0000-000000000000` not found"
    );
}

/// The catalog's watermark follows checkpoints and never goes back.
#[test]
fn watermarks_follow_checkpoints() {
    let dir = new_dir();
    let (mut engine, id) = test_engine(&dir, 2);
    let mut rng = Lcg::new(6);
    add_n(&mut engine, &id, &mut rng, 4, "w");
    assert_eq!(engine.core.flushed_seq(id).unwrap(), 4);
    assert_eq!(engine.core.get_collection_by_id(id).unwrap().max_seq_id, 0);
    engine.checkpoint(&id).unwrap();
    assert_eq!(engine.core.get_collection_by_id(id).unwrap().max_seq_id, 4);
    engine.checkpoint(&id).unwrap();
    assert_eq!(engine.core.get_collection_by_id(id).unwrap().max_seq_id, 4);
}

/// A vector that does not fit the index stops a flush.
#[test]
fn engine_errors_have_messages() {
    let dir = new_dir();
    let (mut engine, id) = test_engine(&dir, 2);
    let e = engine.add(&id, &["a".into()], &[vec![0.0; 3]], None, None).unwrap_err();
    assert_eq!(e.status(), 400);
    assert!(e.message().starts_with("validation: "));
    let mut config = CollectionConfig::new("coll".to_owned(), DIM, Distance::L2);
    config.hnsw.batch_size = 1;
    let e = engine.create_collection(&config).unwrap_err();
    assert_eq!(e.message(), "catalog: already exists");
    assert_eq!(e.status(), 500);
    assert_eq!(engine.count(&9).unwrap_err().status(), 404);
    assert_eq!(EngineError::Io("disk".into()).message(), "io: disk");
    assert_eq!(EngineError::Serialization("x".into()).message(), "serialization: x");
    let q = engine.query(&id, &vec![0.0; 3], 5, &QueryOptions::default());
    assert_eq!(q.err().unwrap().status(), 400);
}
