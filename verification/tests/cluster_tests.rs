use std::collections::HashMap;

use rekha::cluster::{wal_delta, ClockMap, ClusterConfig, WalDelta};
use rekha::log_store::{Edge, LogState, MemoryLogStore, SerializedState};
use rekha::network::{answer, backed_off, RaftNetworkFactoryImpl, RaftNetworkImpl, Rpc, RpcHttpError};
use rekha::op::Operation;
use rekha::raft_types::{ClusterOperation, Entry, LogId, Members, NodeInfo, Payload, Vote};
use rekha::replication::{given_up, refused, Retry, WalReplication};
use rekha::state_machine::{
    build_snapshot, frame, unframe, ClusterStateMachine, EngineSnapshotProvider, Response,
};
use rekha::tags::{ClockTag, Epoch};
use rekha::wal::{build_header, Wal, WalOptions, WalRecord};

// ---------------------------------------------------------------------------
// Clocks
// ---------------------------------------------------------------------------

#[test]
fn clock_map_advance() {
    let mut cm = ClockMap::new();
    assert!(cm.is_empty());
    cm.advance(1, ClockTag { node: 1, seq: 5 });
    assert_eq!(cm.len(), 1);
    assert_eq!(cm.get(1).unwrap().seq, 5);
    cm.advance(1, ClockTag { node: 1, seq: 10 });
    assert_eq!(cm.get(1).unwrap().seq, 10);
    cm.advance(1, ClockTag { node: 1, seq: 3 });
    assert_eq!(cm.get(1).unwrap().seq, 10);
}

#[test]
fn clock_map_high_water() {
    let mut cm = ClockMap::new();
    cm.advance(1, ClockTag { node: 1, seq: 5 });
    cm.advance(2, ClockTag { node: 2, seq: 8 });
    let hw = cm.global_high_water().unwrap();
    assert_eq!(hw.node, 2);
    assert_eq!(hw.seq, 8);
}

#[test]
fn clock_map_lists_its_nodes() {
    let mut cm = ClockMap::default();
    assert!(cm.global_high_water().is_none());
    assert!(cm.get(3).is_none());
    for n in [3u64, 1, 2, 3] {
        cm.advance(n, ClockTag { node: n, seq: 100 - n });
    }
    let mut nodes = cm.nodes();
    nodes.sort();
    assert_eq!(nodes, vec![1, 2, 3]);
    assert_eq!(*cm.global_high_water().unwrap(), ClockTag { node: 3, seq: 97 });
}

// ---------------------------------------------------------------------------
// Shipping
// ---------------------------------------------------------------------------

#[test]
fn wal_delta_roundtrip() {
    let payload = bincode::serialize(&("add", "t", vec![1.0f32])).unwrap();
    let delta = WalDelta::from_wal_records(
        42,
        vec![WalRecord {
            seq: 1,
            epoch: 1,
            payload,
        }],
        1,
    );
    assert_eq!(delta.leader_node, 42);
    let decoded = delta
        .records
        .iter()
        .map(|r| {
            let (kind, id, v): (String, String, Vec<f32>) = bincode::deserialize(&r.payload).ok()?;
            assert_eq!(kind, "add");
            Some(Operation::Add {
                id,
                embedding: v.iter().map(|x| x.to_bits()).collect(),
                metadata: None,
                document: None,
            })
        })
        .collect();
    let ops = delta.decode_ops(decoded);
    assert_eq!(ops.len(), 1);
    assert_eq!(ops[0].seq, 1);
    assert_eq!(ops[0].op.id(), "t");
}

#[test]
fn undecodable_records_are_left_out() {
    let record = |seq| WalRecord { seq, epoch: 1, payload: vec![] };
    let delta = WalDelta::from_wal_records(1, vec![record(1), record(2), record(3)], 3);
    let delete = |id: &str| Some(Operation::Delete { id: id.into() });
    let ops = delta.decode_ops(vec![delete("a"), None, delete("c")]);
    let got: Vec<(u64, String)> = ops.iter().map(|o| (o.seq, o.op.id().to_string())).collect();
    assert_eq!(got, vec![(1, "a".to_string()), (3, "c".to_string())]);
}

#[test]
fn deltas_start_where_they_are_asked_to() {
    let mut image = build_header(1);
    let mut wal = Wal::open(&[], 0, Epoch(1), WalOptions::new(false)).unwrap();
    for p in [b"one".as_slice(), b"two", b"three"] {
        let a = wal.append(p).unwrap();
        image.extend_from_slice(&a.bytes);
    }
    let d = wal_delta(&wal, &image, 0, 2).unwrap();
    assert_eq!(d.target_seq, 3);
    let got: Vec<(u64, Vec<u8>)> = d.records.iter().map(|r| (r.seq, r.payload.clone())).collect();
    assert_eq!(got, vec![(2, b"two".to_vec()), (3, b"three".to_vec())]);
    let d = wal_delta(&wal, &image, 7, 4).unwrap();
    assert_eq!((d.leader_node, d.target_seq, d.records.len()), (7, 3, 0));
}

#[test]
fn cluster_config_defaults() {
    let c = ClusterConfig::default();
    assert_eq!(c.node_id, 0);
    assert!(c.peers.is_empty() && c.owned_collections.is_empty());
}

#[test]
fn replication_next_seq_defaults_to_1() {
    let repl = WalReplication::new("http://127.0.0.1:8000".into(), 1000);
    let id = 0x1234u128;
    assert_eq!(repl.next_seq(id), 1);
}

#[test]
fn replication_mark_applied_advances_next_seq() {
    let mut repl = WalReplication::new("http://127.0.0.1:8000".into(), 1000);
    let id = 0x1234u128;
    assert_eq!(repl.next_seq(id), 1);
    repl.mark_applied(id, 10);
    assert_eq!(repl.next_seq(id), 11);
    assert_eq!(repl.next_seq(5), 1);
    assert_eq!(repl.poll_interval(), 1000);
}

#[test]
fn the_highest_mark_counts() {
    let mut repl = WalReplication::new("http://127.0.0.1:8000".into(), 1000);
    repl.mark_applied(0, 10);
    repl.mark_applied(0, 3);
    repl.mark_applied(1, 2);
    assert_eq!((repl.next_seq(0), repl.next_seq(1), repl.next_seq(2)), (11, 3, 1));
}

#[test]
fn replication_asks_and_retries() {
    let repl = WalReplication::new("http://h:1".into(), 1000);
    assert_eq!(
        repl.delta_url(0x0123_4567_89ab_cdef_0011_2233_4455_6677, 9),
        "http://h:1/internal/wal/01234567-89ab-cdef-0011-223344556677/delta?from_seq=9"
    );
    assert_eq!(WalReplication::after_failure(0, 3), Retry::After(100));
    assert_eq!(WalReplication::after_failure(1, 3), Retry::After(200));
    assert_eq!(WalReplication::after_failure(2, 3), Retry::GiveUp);
    assert_eq!(WalReplication::after_failure(10, 30), Retry::After(102_400));
    assert_eq!(refused("404 Not Found", "gone"), "HTTP 404 Not Found: gone");
    assert_eq!(given_up(3, "boom"), "Failed after 3 retries: boom");
}

// ---------------------------------------------------------------------------
// Network
// ---------------------------------------------------------------------------

#[test]
fn rpc_http_error_display() {
    let e = RpcHttpError {
        status: 500,
        body: "internal error".into(),
    };
    assert_eq!(e.message(), "HTTP 500: internal error");
}

#[test]
fn peers_are_reached_at_their_addresses() {
    let mut peers = HashMap::new();
    peers.insert(2u64, "host2:9000".to_string());
    let f = RaftNetworkFactoryImpl::new(peers);
    assert_eq!(
        f.new_client(2).rpc_url(Rpc::Vote),
        "http://host2:9000/internal/raft/vote"
    );
    assert_eq!(
        f.new_client(3).rpc_url(Rpc::AppendEntries),
        "http://127.0.0.1:8003/internal/raft/append_entries"
    );
    assert_eq!(
        RaftNetworkImpl::new("h:1".into()).rpc_url(Rpc::InstallSnapshot),
        "http://h:1/internal/raft/install_snapshot"
    );
}

#[test]
fn answers_are_errors_unless_they_report_success() {
    assert_eq!(answer(204, "b".into()).unwrap(), "b");
    assert_eq!(answer(300, "b".into()).unwrap_err().message(), "HTTP 300: b");
    assert_eq!(answer(199, "b".into()).unwrap_err().status, 199);
}

#[test]
fn backoff_is_limited() {
    for i in 0..10u32 {
        assert_eq!(RaftNetworkImpl::backoff(i), 500);
    }
    let delays: Vec<u64> = (0..6u32).map(|i| backed_off(1000, 50, i)).collect();
    assert_eq!(delays, vec![50, 100, 200, 400, 400, 400]);
}

// ---------------------------------------------------------------------------
// Log
// ---------------------------------------------------------------------------

fn make_log_id(index: u64) -> LogId {
    LogId { term: 1, node: 0, index }
}

fn blank(index: u64) -> Entry {
    Entry { log_id: make_log_id(index), payload: Payload::Blank }
}

#[test]
fn test_new_log_store_is_empty() {
    let store = MemoryLogStore::new();
    let state = store.get_log_state();
    assert_eq!(state.last_purged_log_id, None);
    assert_eq!(state.last_log_id, None);
}

#[test]
fn test_append_and_read() {
    let mut store = MemoryLogStore::new();

    let entries = vec![Entry {
        log_id: make_log_id(0),
        payload: Payload::Normal(ClusterOperation::AddNode {
            node_id: 1,
            addr: "127.0.0.1:8001".into(),
        }),
    }];

    store.append(entries);

    let got = store.try_get_log_entries(Edge::Included(0), Edge::Excluded(1));
    assert_eq!(got.len(), 1);
    assert_eq!(got[0].log_id.index, 0);
    match &got[0].payload {
        Payload::Normal(ClusterOperation::AddNode { addr, .. }) => assert_eq!(addr, "127.0.0.1:8001"),
        _ => panic!("expected the operation"),
    }
}

#[test]
fn test_truncate() {
    let mut store = MemoryLogStore::new();
    store.append(vec![blank(0), blank(1)]);
    store.truncate(make_log_id(1));

    let state = store.get_log_state();
    assert_eq!(state.last_log_id, Some(make_log_id(0)));
}

#[test]
fn test_purge() {
    let mut store = MemoryLogStore::new();
    store.append(vec![blank(0), blank(1)]);
    store.purge(make_log_id(0));

    let state = store.get_log_state();
    assert_eq!(state.last_purged_log_id, Some(make_log_id(0)));
    assert_eq!(state.last_log_id, Some(make_log_id(1)));
}

#[test]
fn test_vote_roundtrip() {
    let mut store = MemoryLogStore::new();
    assert_eq!(store.read_vote(), None);

    let vote = Vote { term: 3, node: 42, committed: false };
    store.save_vote(vote);
    assert_eq!(store.read_vote(), Some(vote));
}

#[test]
fn test_committed_roundtrip() {
    let mut store = MemoryLogStore::new();
    assert_eq!(store.read_committed(), None);

    store.save_committed(Some(make_log_id(5)));
    assert_eq!(store.read_committed(), Some(make_log_id(5)));
}

#[test]
fn ranges_of_the_log_are_read() {
    let mut store = MemoryLogStore::default();
    store.append((0..10).map(blank).collect());
    let of = |a: Edge, b: Edge| -> Vec<u64> {
        store.try_get_log_entries(a, b).iter().map(|e| e.log_id.index).collect()
    };
    assert_eq!(of(Edge::Included(3), Edge::Included(5)), vec![3, 4, 5]);
    assert_eq!(of(Edge::Excluded(3), Edge::Excluded(6)), vec![4, 5]);
    assert_eq!(of(Edge::Unbounded, Edge::Excluded(2)), vec![0, 1]);
    assert_eq!(of(Edge::Included(8), Edge::Unbounded), vec![8, 9]);
    assert!(of(Edge::Included(5), Edge::Excluded(5)).is_empty());
}

#[test]
fn a_purged_log_remembers_its_end() {
    let mut store = MemoryLogStore::new();
    store.append(vec![blank(0), blank(1)]);
    store.purge(make_log_id(1));
    assert_eq!(
        store.get_log_state(),
        LogState {
            last_purged_log_id: Some(make_log_id(1)),
            last_log_id: Some(make_log_id(1)),
        }
    );
}

#[test]
fn the_kept_place_drops_the_node() {
    let id = LogId { term: 4, node: 9, index: 17 };
    assert_eq!(
        SerializedState::of(Some(id)).last_purged_log_id(),
        Some(LogId { term: 4, node: 0, index: 17 })
    );
    assert_eq!(SerializedState::of(None).last_purged_log_id(), None);
    let half = SerializedState { last_purged_index: Some(1), last_purged_term: None };
    assert_eq!(half.last_purged_log_id(), None);
}

// ---------------------------------------------------------------------------
// State machine
// ---------------------------------------------------------------------------

#[test]
fn test_apply_add_node() {
    let mut sm = ClusterStateMachine::new();
    let op = ClusterOperation::AddNode {
        node_id: 1,
        addr: "127.0.0.1:8001".into(),
    };
    sm.apply_operation(&op);
    assert_eq!(sm.nodes().len(), 1);
    assert_eq!(sm.node(1).unwrap().addr, "127.0.0.1:8001");
    assert!(!sm.node(1).unwrap().is_leader);
}

#[test]
fn test_apply_remove_node() {
    let mut sm = ClusterStateMachine::new();
    sm.apply_operation(&ClusterOperation::AddNode {
        node_id: 1,
        addr: "127.0.0.1:8001".into(),
    });
    sm.apply_operation(&ClusterOperation::RemoveNode { node_id: 1 });
    assert!(sm.nodes().is_empty());
}

#[test]
fn test_apply_add_collection() {
    let mut sm = ClusterStateMachine::new();
    let cid = 0xfeedu128;
    sm.apply_operation(&ClusterOperation::AddCollection {
        collection_id: cid,
        name: "test".into(),
        dimension: 128,
        distance: "l2".into(),
        tenant: "default".into(),
        database: "default".into(),
        owner_nodes: vec![1, 2],
    });
    assert_eq!(*sm.owners(cid).unwrap(), vec![1, 2]);
    sm.apply_operation(&ClusterOperation::RemoveCollection { collection_id: cid });
    assert!(sm.owners(cid).is_none());
}

#[test]
fn test_apply_transfer_leadership() {
    let mut sm = ClusterStateMachine::new();
    sm.apply_operation(&ClusterOperation::AddNode {
        node_id: 1,
        addr: "a".into(),
    });
    sm.apply_operation(&ClusterOperation::AddNode {
        node_id: 2,
        addr: "b".into(),
    });
    sm.apply_operation(&ClusterOperation::TransferLeadership { new_leader: 2 });
    assert!(!sm.node(1).unwrap().is_leader);
    assert!(sm.node(2).unwrap().is_leader);
    sm.apply_operation(&ClusterOperation::TransferLeadership { new_leader: 1 });
    assert!(sm.node(1).unwrap().is_leader);
    assert!(!sm.node(2).unwrap().is_leader);
}

#[test]
fn test_apply_entries() {
    let mut sm = ClusterStateMachine::new();

    let op = ClusterOperation::AddNode {
        node_id: 1,
        addr: "127.0.0.1:8001".into(),
    };

    let entries = vec![Entry {
        log_id: make_log_id(0),
        payload: Payload::Normal(op),
    }];

    let responses = sm.apply(&entries);
    assert_eq!(responses.len(), 1);
    assert_eq!(responses[0], Response::Applied);
    assert_eq!(sm.nodes().len(), 1);
    assert_eq!(sm.applied_state().0, Some(make_log_id(0)));
}

#[test]
fn test_applied_state() {
    let sm = ClusterStateMachine::new();
    let (last_applied, _membership) = sm.applied_state();
    assert_eq!(last_applied, None);
}

#[test]
fn members_are_kept_with_the_entry_that_named_them() {
    let mut sm = ClusterStateMachine::default();
    let members = Members {
        log_id: None,
        configs: vec![vec![1, 2, 3]],
        nodes: vec![(1, 0), (2, 0), (3, 0)],
    };
    let r = sm.apply(&vec![
        blank(4),
        Entry { log_id: make_log_id(5), payload: Payload::Membership(members) },
    ]);
    assert_eq!(r, vec![Response::Blank, Response::Membership]);
    let (last, m) = sm.applied_state();
    assert_eq!(last, Some(make_log_id(5)));
    assert_eq!(m.log_id, Some(make_log_id(5)));
    assert_eq!(m.configs, vec![vec![1, 2, 3]]);
}

#[test]
fn snapshots_are_framed() {
    let b = frame(b"cluster", b"engine");
    assert_eq!(&b[..4], &7u32.to_le_bytes());
    let p = unframe(&b).unwrap();
    assert_eq!(p.cluster.unwrap(), b"cluster");
    assert_eq!(p.engine.unwrap(), b"engine");
    let p = unframe(&frame(b"c", b"")).unwrap();
    assert_eq!(p.cluster.unwrap(), b"c");
    assert!(p.engine.is_none());
    assert!(unframe(&b[..3]).is_none());
    let p = unframe(&b[..8]).unwrap();
    assert!(p.cluster.is_none() && p.engine.is_none());
}

struct Provider(Result<Vec<u8>, String>);

impl EngineSnapshotProvider for Provider {
    fn snapshot(&self) -> Result<Vec<u8>, String> {
        self.0.clone()
    }

    fn restore_snapshot(&self, _data: &[u8]) -> Result<(), String> {
        Ok(())
    }
}

#[test]
fn snapshots_hold_what_the_engine_hands_over() {
    let none: Option<&Provider> = None;
    assert_eq!(build_snapshot(b"c", none).unwrap(), frame(b"c", b""));
    let good = Provider(Ok(b"e".to_vec()));
    assert_eq!(build_snapshot(b"c", Some(&good)).unwrap(), frame(b"c", b"e"));
    let bad = Provider(Err("lock".into()));
    assert_eq!(build_snapshot(b"c", Some(&bad)).unwrap_err(), "engine snapshot failed: lock");
}

#[test]
fn snapshots_replace_the_metadata() {
    let mut sm = ClusterStateMachine::new();
    sm.apply_operation(&ClusterOperation::AddNode { node_id: 1, addr: "a".into() });
    sm.install_snapshot(None, Some(make_log_id(3)), Members::none());
    assert_eq!(sm.nodes().len(), 1);
    assert_eq!(sm.applied_state().0, Some(make_log_id(3)));
    let other = ClusterStateMachine::from_parts(
        vec![(7, NodeInfo { node_id: 7, addr: "g".into(), is_leader: true })],
        vec![(9, vec![7])],
        ClockMap::new(),
        None,
        Members::none(),
    );
    sm.install_snapshot(Some(other), Some(make_log_id(8)), Members::none());
    assert_eq!(sm.node(7).unwrap().addr, "g");
    assert!(sm.node(1).is_none());
    assert_eq!(sm.collections().len(), 1);
    assert!(sm.clock_map().is_empty());
    assert_eq!(sm.applied_state().0, Some(make_log_id(8)));
}
