//! What a client of the remote procedure interface sends, and what it makes of
//! the answers.

use vstd::prelude::*;
use vstd::string::*;

use crate::num::F32;
use crate::types::Embedding;

verus! {

/// How many replicas have to take part.
#[derive(Debug, Clone, Copy, PartialEq, Eq, Structural)]
pub enum ConsistencyLevel {
    One,
    Quorum,
}

/// Why a request failed.
#[derive(Debug, PartialEq)]
pub enum RekhaError {
    /// The server was not reached.
    Unavailable(String),
    /// The server refused the request.
    InvalidArgument(String),
    /// The server failed.
    Internal(String),
}

// ---------------------------------------------------------------------------
// Requests
// ---------------------------------------------------------------------------

/// Who a request comes from.
pub const ORIGIN: &'static str = "client";

/// How the bytes of a payload are to be taken.
pub const PAYLOAD_TYPE: &'static str = "application/octet-stream";

/// What every write carries along.
#[derive(Debug, PartialEq)]
pub struct Envelope {
    pub is_replication: bool,
    pub timestamp: u64,
    pub consistency: ConsistencyLevel,
    pub origin_node_id: String,
}

/// Whether a write comes from a client.
pub open spec fn from_client(e: Envelope, timestamp: u64, consistency: ConsistencyLevel) -> bool {
    &&& !e.is_replication
    &&& e.timestamp == timestamp
    &&& e.consistency == consistency
    &&& e.origin_node_id@ == ORIGIN@
}

fn envelope(timestamp: u64, consistency: ConsistencyLevel) -> (e: Envelope)
    ensures
        from_client(e, timestamp, consistency),
{
    Envelope { is_replication: false, timestamp, consistency, origin_node_id: ORIGIN.to_owned() }
}

/// A request for a new collection with a configuration.
#[derive(Debug, PartialEq)]
pub struct CreateCollection<C> {
    pub name: String,
    pub config: C,
    pub envelope: Envelope,
}

/// A request to drop a collection.
#[derive(Debug, PartialEq)]
pub struct DropCollection {
    pub name: String,
    pub envelope: Envelope,
}

/// Bytes that go along with a vector.
#[derive(Debug, PartialEq)]
pub struct Payload {
    pub content_type: String,
    pub data: Vec<u8>,
}

/// A request to insert a vector.
#[derive(Debug, PartialEq)]
pub struct Insert {
    pub id: u64,
    pub vector: Embedding,
    pub payload: Option<Payload>,
    pub collection_name: String,
    pub envelope: Envelope,
}

/// A request to delete vectors.
#[derive(Debug, PartialEq)]
pub struct Delete {
    pub ids: Vec<u64>,
    pub collection_name: String,
    pub envelope: Envelope,
}

/// A request for vectors by their ids.
#[derive(Debug, PartialEq)]
pub struct Fetch {
    pub ids: Vec<u64>,
    pub include_payloads: bool,
    pub collection_name: String,
    pub consistency: ConsistencyLevel,
}

/// A request for the vectors nearest to one.
#[derive(Debug, PartialEq)]
pub struct Search {
    pub query_vector: Embedding,
    pub top_k: u32,
    pub ef_search: u32,
    pub nprobe: u32,
    pub include_payloads: bool,
    pub local_only: bool,
    pub collection_name: String,
    pub consistency: ConsistencyLevel,
}

/// A sign of life.
#[derive(Debug, PartialEq)]
pub struct Heartbeat {
    pub node_id: String,
    pub address: String,
    pub storage_bytes: u64,
}

/// A request for a part of a collection.
#[derive(Debug, PartialEq)]
pub struct Export {
    pub collection_name: String,
    pub offset: u64,
    pub limit: u64,
    pub include_vectors: bool,
    pub include_payloads: bool,
}

/// A request to move a shard to a node.
#[derive(Debug, PartialEq)]
pub struct TransferShard {
    pub shard_id: u64,
    pub collection_name: String,
    pub target_node_id: String,
}

/// A client of the remote procedure interface. A request is built here and sent
/// by the caller.
pub struct Client {}

impl Client {
    /// Asks for a new collection.
    pub fn create_collection<C>(name: &str, config: C) -> (r: CreateCollection<C>)
        ensures
            r.name@ == name@,
            r.config == config,
            from_client(r.envelope, 0, ConsistencyLevel::Quorum),
    {
        CreateCollection {
            name: name.to_owned(),
            config,
            envelope: envelope(0, ConsistencyLevel::Quorum),
        }
    }

    /// Asks to drop a collection.
    pub fn drop_collection(name: &str) -> (r: DropCollection)
        ensures
            r.name@ == name@,
            from_client(r.envelope, 0, ConsistencyLevel::Quorum),
    {
        DropCollection { name: name.to_owned(), envelope: envelope(0, ConsistencyLevel::Quorum) }
    }

    /// Inserts a vector.
    pub fn insert(
        collection: &str,
        id: u64,
        vector: Embedding,
        payload: Option<Vec<u8>>,
        timestamp: u64,
        consistency: ConsistencyLevel,
    ) -> (r: Insert)
        ensures
            r.id == id,
            r.vector == vector,
            r.payload is Some <==> payload is Some,
            r.payload matches Some(p) ==> Some(p.data) == payload && p.content_type@ == PAYLOAD_TYPE@,
            r.collection_name@ == collection@,
            from_client(r.envelope, timestamp, consistency),
    {
        Insert {
            id,
            vector,
            payload: match payload {
                Some(data) => Some(Payload { content_type: PAYLOAD_TYPE.to_owned(), data }),
                None => None,
            },
            collection_name: collection.to_owned(),
            envelope: envelope(timestamp, consistency),
        }
    }

    /// Deletes vectors.
    pub fn delete(collection: &str, ids: Vec<u64>, timestamp: u64, consistency: ConsistencyLevel) -> (r: Delete)
        ensures
            r.ids == ids,
            r.collection_name@ == collection@,
            from_client(r.envelope, timestamp, consistency),
    {
        Delete { ids, collection_name: collection.to_owned(), envelope: envelope(timestamp, consistency) }
    }

    /// Asks for vectors by their ids.
    pub fn fetch(collection: &str, ids: Vec<u64>, include_payloads: bool) -> (r: Fetch)
        ensures
            r.ids == ids,
            r.include_payloads == include_payloads,
            r.collection_name@ == collection@,
            r.consistency == ConsistencyLevel::One,
    {
        Fetch {
            ids,
            include_payloads,
            collection_name: collection.to_owned(),
            consistency: ConsistencyLevel::One,
        }
    }

    /// Asks for the vectors nearest to one.
    pub fn search(collection: &str, query: Embedding, top_k: u32, nprobe: u32, include_payloads: bool) -> (r:
        Search)
        ensures
            r.query_vector == query,
            r.top_k == top_k,
            r.ef_search == 0,
            r.nprobe == nprobe,
            r.include_payloads == include_payloads,
            !r.local_only,
            r.collection_name@ == collection@,
            r.consistency == ConsistencyLevel::Quorum,
    {
        Search {
            query_vector: query,
            top_k,
            ef_search: 0,
            nprobe,
            include_payloads,
            local_only: false,
            collection_name: collection.to_owned(),
            consistency: ConsistencyLevel::Quorum,
        }
    }

    /// Gives a sign of life.
    pub fn send_heartbeat(node_id: &str, address: &str) -> (r: Heartbeat)
        ensures
            r.node_id@ == node_id@,
            r.address@ == address@,
            r.storage_bytes == 0,
    {
        Heartbeat { node_id: node_id.to_owned(), address: address.to_owned(), storage_bytes: 0 }
    }

    /// Asks whether a server is well.
    pub fn health() -> (r: Heartbeat)
        ensures
            r.node_id@ == ORIGIN@,
            r.address@ == Seq::<char>::empty(),
            r.storage_bytes == 0,
    {
        proof {
            reveal_strlit("");
            assert(""@ =~= Seq::<char>::empty());
        }
        Client::send_heartbeat(ORIGIN, "")
    }

    /// Asks for a part of a collection.
    pub fn export(collection: &str, offset: u64, limit: u64, include_vectors: bool, include_payloads: bool)
        -> (r: Export)
        ensures
            r.collection_name@ == collection@,
            r.offset == offset,
            r.limit == limit,
            r.include_vectors == include_vectors,
            r.include_payloads == include_payloads,
    {
        Export { collection_name: collection.to_owned(), offset, limit, include_vectors, include_payloads }
    }

    /// Asks to move a shard to a node.
    pub fn transfer_shard(collection: &str, target_node_id: &str) -> (r: TransferShard)
        ensures
            r.shard_id == 0,
            r.collection_name@ == collection@,
            r.target_node_id@ == target_node_id@,
    {
        TransferShard {
            shard_id: 0,
            collection_name: collection.to_owned(),
            target_node_id: target_node_id.to_owned(),
        }
    }
}

// ---------------------------------------------------------------------------
// Answers
// ---------------------------------------------------------------------------

/// What the answer to a request for or against a collection means.
pub fn collection_outcome(success: bool, error: String) -> (r: Result<bool, RekhaError>)
    ensures
        success ==> r == Result::<bool, RekhaError>::Ok(true),
        !success ==> r == Result::<bool, RekhaError>::Err(RekhaError::InvalidArgument(error)),
{
    if success {
        Ok(true)
    } else {
        Err(RekhaError::InvalidArgument(error))
    }
}

/// What the answer to an insertion means.
pub fn insert_outcome(success: bool, error: String) -> (r: Result<bool, RekhaError>)
    ensures
        success ==> r == Result::<bool, RekhaError>::Ok(true),
        !success ==> r == Result::<bool, RekhaError>::Err(RekhaError::Internal(error)),
{
    if success {
        Ok(true)
    } else {
        Err(RekhaError::Internal(error))
    }
}

/// A vector that a server found.
#[derive(Debug, PartialEq)]
pub struct FoundPoint {
    pub id: u64,
    pub score: F32,
    pub payload: Option<Payload>,
    pub timestamp: u64,
}

/// A vector as a client gets it.
#[derive(Debug, PartialEq)]
pub struct ScoredPoint {
    pub id: u64,
    pub score: F32,
    pub payload: Option<Vec<u8>>,
    pub timestamp: i64,
}

/// Whether a vector is what a client gets of one that was found. Its time is
/// taken with a sign, bit by bit.
pub open spec fn handed_over(found: FoundPoint, got: ScoredPoint) -> bool {
    &&& got.id == found.id
    &&& got.score == found.score
    &&& got.payload is Some <==> found.payload is Some
    &&& got.payload matches Some(data) ==> data@ == found.payload->0.data@
    &&& got.timestamp == found.timestamp as i64
}

/// The vectors that a server found, in their order.
pub fn points(found: Vec<FoundPoint>) -> (r: Vec<ScoredPoint>)
    ensures
        r@.len() == found@.len(),
        forall|i: int| 0 <= i < found@.len() ==> handed_over(found@[i], #[trigger] r@[i]),
{
    let mut out: Vec<ScoredPoint> = Vec::new();
    let mut i: usize = 0;
    while i < found.len()
        invariant
            i <= found.len(),
            out@.len() == i,
            forall|j: int| 0 <= j < i ==> handed_over(found@[j], #[trigger] out@[j]),
        decreases found.len() - i,
    {
        let payload: Option<Vec<u8>> = match &found[i].payload {
            Some(p) => Some(copy_bytes(&p.data)),
            None => None,
        };
        #[verifier::truncate]
        let timestamp: i64 = found[i].timestamp as i64;
        out.push(ScoredPoint { id: found[i].id, score: found[i].score, payload, timestamp });
        i += 1;
    }
    out
}

fn copy_bytes(v: &Vec<u8>) -> (r: Vec<u8>)
    ensures
        r@ == v@,
{
    let mut r: Vec<u8> = Vec::new();
    let mut i: usize = 0;
    while i < v.len()
        invariant
            i <= v.len(),
            r@ == v@.take(i as int),
        decreases v.len() - i,
    {
        r.push(v[i]);
        i += 1;
        assert(v@.take(i as int) =~= v@.take(i - 1).push(v@[i - 1]));
    }
    assert(v@.take(i as int) =~= v@);
    r
}

/// Chunks one behind the other.
pub open spec fn run_together<T>(chunks: Seq<Vec<T>>) -> Seq<T>
    decreases chunks.len(),
{
    if chunks.len() == 0 {
        Seq::empty()
    } else {
        run_together(chunks.drop_last()) + chunks.last()@
    }
}

/// What comes in chunks, in one list.
pub fn gather<T>(chunks: Vec<Vec<T>>) -> (r: Vec<T>)
    ensures
        r@ == run_together(chunks@),
{
    let ghost all = chunks@;
    let mut out: Vec<T> = Vec::new();
    let mut chunks: Vec<Vec<T>> = chunks;
    let mut i: usize = 0;
    assert(all.take(0) =~= Seq::empty());
    while i < chunks.len()
        invariant
            i <= chunks.len(),
            chunks@.len() == all.len(),
            forall|j: int| i <= j < all.len() ==> chunks@[j] == all[j],
            out@ == run_together(all.take(i as int)),
        decreases chunks.len() - i,
    {
        let mut chunk: Vec<T> = Vec::new();
        chunks.set_and_swap(i, &mut chunk);
        proof {
            assert(all.take(i + 1).drop_last() =~= all.take(i as int));
            assert(all.take(i + 1).last() == all[i as int]);
        }
        out.append(&mut chunk);
        i += 1;
    }
    assert(all.take(i as int) =~= all);
    out
}

/// A point is handed over whole: under its id, with its score, its payload and
/// its time.
pub proof fn points_are_handed_over_whole(found: FoundPoint, got: ScoredPoint)
    requires
        handed_over(found, got),
    ensures
        got.id == found.id,
        got.score == found.score,
        found.payload matches Some(p) ==> (got.payload matches Some(data) && data@ == p.data@),
        found.payload is None ==> got.payload is None,
        found.timestamp <= i64::MAX ==> got.timestamp == found.timestamp,
{
}

/// Chunks run together hold all their parts, chunk by chunk.
pub proof fn chunks_run_on<T>(chunks: Seq<Vec<T>>, more: Seq<Vec<T>>, one: Vec<T>)
    ensures
        run_together(chunks + more) == run_together(chunks) + run_together(more),
        run_together(seq![one]) == one@,
        run_together(Seq::<Vec<T>>::empty()).len() == 0,
    decreases more.len(),
{
    let none = Seq::<Vec<T>>::empty();
    assert(seq![one].drop_last() =~= none);
    assert(run_together(none) + one@ =~= one@);
    if more.len() == 0 {
        assert(chunks + more =~= chunks);
        assert(run_together(chunks) + run_together(more) =~= run_together(chunks));
    } else {
        chunks_run_on(chunks, more.drop_last(), one);
        assert((chunks + more).drop_last() =~= chunks + more.drop_last());
        assert((chunks + more).last() == more.last());
        assert(run_together(chunks + more) =~= run_together(chunks) + run_together(more));
    }
}

/// What a client sends is no replication, and carries the client's time and
/// consistency.
pub proof fn clients_send_no_replication(e: Envelope, timestamp: u64, consistency: ConsistencyLevel)
    requires
        from_client(e, timestamp, consistency),
    ensures
        !e.is_replication,
        e.timestamp == timestamp,
        e.consistency == consistency,
        e.origin_node_id@ == "client"@,
{
}

} // verus!
