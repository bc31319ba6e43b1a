use std::collections::hash_map::DefaultHasher;
use std::hash::{Hash, Hasher};

use rekha::chord::{advance, between, hash_to_chord_id, ChordNode};
use rekha::membership::Membership;
use rekha::peer_state::{NodeInfo, PeerState};

// ---------------------------------------------------------------------------
// Membership
// ---------------------------------------------------------------------------

#[test]
fn test_add_and_get_peer() {
    let mut m = Membership::new("self", 5000);
    m.add_peer("node1", "127.0.0.1:5001", 10);
    let peer = m.get_peer("node1").unwrap();
    assert_eq!(peer.node_id, "node1");
    assert!(peer.is_alive);
    assert_eq!(peer.address, "127.0.0.1:5001");
    assert_eq!(peer.last_seen, 10);
}

#[test]
fn test_mark_dead() {
    let mut m = Membership::new("self", 5000);
    m.add_peer("node1", "127.0.0.1:5001", 10);
    m.mark_dead("node1");
    let peer = m.get_peer("node1").unwrap();
    assert!(!peer.is_alive);
}

#[test]
fn test_remove_peer() {
    let mut m = Membership::new("self", 5000);
    m.add_peer("node1", "127.0.0.1:5001", 10);
    m.remove_peer("node1");
    assert!(m.get_peer("node1").is_none());
}

#[test]
fn test_rebuild_ring() {
    let mut m = Membership::new("self", 5000);
    m.add_peer("node1", "127.0.0.1:5001", 10);
    m.add_peer("node2", "127.0.0.1:5002", 10);
    m.rebuild_ring();
    let replicas = m.replicas_for(42, 2);
    assert!(
        replicas.len() <= 2,
        "should return up to 2 non-self replicas"
    );
}

#[test]
fn peers_that_are_silent_are_given_up() {
    let mut m = Membership::new("self", 5000);
    assert_eq!(m.self_id(), "self");
    m.add_peer("old", "a", 100);
    m.add_peer("new", "b", 950);
    m.check_timeouts(500, 1000);
    assert!(!m.get_peer("old").unwrap().is_alive);
    assert!(m.get_peer("new").unwrap().is_alive);
    let alive: Vec<String> = m.alive_peers().iter().map(|p| p.node_id.clone()).collect();
    assert_eq!(alive, vec!["new"]);
    assert_eq!(m.all_peers().len(), 2);
    m.mark_alive("old", 1000);
    assert!(m.get_peer("old").unwrap().is_alive);
    assert_eq!(m.get_peer("old").unwrap().last_seen, 1000);
    m.mark_alive("unknown", 1000);
    assert!(m.get_peer("unknown").is_none());
}

#[test]
fn heartbeats_and_departures_rebuild_the_ring() {
    let mut m = Membership::new("self", 5000);
    m.handle_heartbeat("n1", "a1", 1);
    m.handle_heartbeat("n2", "a2", 2);
    for shard in 0..50u64 {
        let mut r = m.replicas_for(shard, 3);
        r.sort();
        assert_eq!(r, vec!["n1", "n2"]);
    }
    m.handle_heartbeat("n1", "moved", 9);
    assert_eq!(m.get_peer("n1").unwrap().address, "a1");
    assert_eq!(m.get_peer("n1").unwrap().last_seen, 9);
    m.handle_peer_leaving("n2");
    for shard in 0..50u64 {
        assert_eq!(m.replicas_for(shard, 3), vec!["n1"]);
        assert!(m.replicas_for(shard, 0).is_empty());
    }
}

#[test]
fn peers_are_heard_of_now() {
    let info = NodeInfo { node_id: "n".into(), address: "a".into(), is_alive: true };
    let p = PeerState::new(info, 77);
    assert_eq!(p.last_seen, 77);
    assert_eq!(p.info.node_id, "n");
}

// ---------------------------------------------------------------------------
// Chord
// ---------------------------------------------------------------------------

fn test_chord() -> ChordNode {
    let id = hash_to_chord_id(b"test-node");
    ChordNode::new(id, "127.0.0.1:5000")
}

#[test]
fn test_replicas_for_chord_id_returns_addresses() {
    let mut chord = test_chord();
    chord.add_successor("nodeA", "addrA:5001");
    chord.add_successor("nodeB", "addrB:5002");

    let replicas = chord.replicas_for_chord_id(3);
    assert_eq!(replicas.len(), 3, "should return self + 2 successors");

    assert_eq!(replicas[0].node_id, chord.self_id_string(), "first should be self");
    assert!(!replicas[1].address.is_empty(), "successor address must not be empty");
    assert!(!replicas[2].address.is_empty(), "successor address must not be empty");
    assert_eq!(replicas[1].address, "addrA:5001", "address should match successor_addresses entry");
    assert_eq!(replicas[2].address, "addrB:5002", "address should match successor_addresses entry");
}

#[test]
fn test_replicas_for_chord_id_with_empty_successors() {
    let chord = test_chord();
    let replicas = chord.replicas_for_chord_id(3);
    assert_eq!(replicas.len(), 1, "only self when no successors");
    assert_eq!(replicas[0].node_id, chord.self_id_string());
}

#[test]
fn test_replicas_for_chord_id_truncates_by_rf() {
    let mut chord = test_chord();
    for i in 0..5 {
        chord.add_successor(&format!("node{}", i), &format!("addr{}.local:{}", i, 5000 + i));
    }

    // rf=3 means 3 total entries (1 self + up to 2 successors)
    let replicas = chord.replicas_for_chord_id(3);
    assert_eq!(replicas.len(), 3, "rf=3 should return self + 2 successors = 3");
    assert_eq!(replicas[0].node_id, chord.self_id_string());
    assert_eq!(replicas[1].node_id, "node0");
    assert_eq!(replicas[2].node_id, "node1");
}

#[test]
fn chord_keys_join_two_hashes() {
    let data: &[u8] = b"some-node";
    let mut h = DefaultHasher::new();
    data.hash(&mut h);
    let low = h.finish() as u128;
    let mut h = DefaultHasher::new();
    (data, 1u8).hash(&mut h);
    let high = h.finish() as u128;
    assert_eq!(hash_to_chord_id(data), (high << 64) | low);
}

#[test]
fn keys_lie_between_others() {
    assert!(between(5, 3, 9, false, false));
    assert!(!between(3, 3, 9, false, false));
    assert!(between(3, 3, 9, true, false));
    assert!(!between(9, 3, 9, false, false));
    assert!(between(9, 3, 9, false, true));
    assert!(between(1, 4, 4, false, false));
    assert!(between(u128::MAX, 9, 3, false, false));
    assert!(between(2, 9, 3, false, false));
    assert!(!between(5, 9, 3, true, true));
    assert_eq!(advance(u128::MAX, 2), 1);
    assert_eq!(advance(5, 1 << 100), 5 + (1 << 100));
}

#[test]
fn a_lonely_node_owns_everything() {
    let n = test_chord();
    assert!(n.is_owner(0) && n.is_owner(u128::MAX));
    assert_eq!(
        n.handle_find_successor(7),
        Some((n.id().to_string(), "127.0.0.1:5000".to_string()))
    );
    assert_eq!(n.successor(), None);
    assert_eq!(n.address(), "127.0.0.1:5000");
}

#[test]
fn closer_predecessors_are_taken() {
    let names = ["a", "b", "c", "d", "e", "f"];
    let mut keys: Vec<(u128, &str)> = names.iter().map(|n| (hash_to_chord_id(n.as_bytes()), *n)).collect();
    keys.sort();
    let mut n = ChordNode::new(keys[5].0, "x");
    assert!(n.notify(keys[1].1, "a1"));
    assert!(n.notify(keys[3].1, "a3"));
    assert!(!n.notify(keys[2].1, "a2"));
    assert_eq!(n.predecessor().unwrap(), keys[3].1);
    assert!(n.is_owner(keys[4].0) && n.is_owner(keys[5].0));
    assert!(!n.is_owner(keys[3].0) && !n.is_owner(keys[2].0));
    n.check_predecessor(true);
    assert!(n.predecessor().is_some());
    n.check_predecessor(false);
    assert!(n.predecessor().is_none());
}

#[test]
fn fingers_lead_to_closer_nodes() {
    let names = ["a", "b", "c", "d", "e", "f"];
    let mut keys: Vec<(u128, &str)> = names.iter().map(|n| (hash_to_chord_id(n.as_bytes()), *n)).collect();
    keys.sort();
    let id = keys[0].0;
    let mut n = ChordNode::new(id, "x");
    n.notify(keys[5].1, "a5");
    n.set_successor(keys[1].1, "a1");
    assert_eq!(n.successor(), Some((keys[1].1.to_string(), "a1".to_string())));
    for i in 0..128u32 {
        assert_eq!(n.next_finger_start(), advance(id, 1u128 << i));
        let found = if i == 127 { Some((keys[3].1.to_string(), "a3".to_string())) } else { None };
        n.fix_next_finger(found);
    }
    assert_eq!(n.next_finger_start(), advance(id, 1));
    assert_eq!(
        n.handle_find_successor(keys[4].0),
        Some((keys[3].1.to_string(), "a3".to_string()))
    );
    assert_eq!(
        n.handle_find_successor(keys[2].0),
        Some((keys[1].1.to_string(), "a1".to_string()))
    );
    n.stabilize_with(keys[4].1, "a4");
    n.run_stabilize(&Some((keys[2].1.to_string(), "a2".to_string())));
    assert_eq!(n.successor().unwrap().0, keys[2].1);
    n.run_stabilize(&Some((keys[3].1.to_string(), "a3".to_string())));
    assert_eq!(n.successor().unwrap().0, keys[2].1);
    n.run_stabilize(&None);
    assert_eq!(n.successor().unwrap().0, keys[2].1);
}
