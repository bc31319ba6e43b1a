use std::collections::hash_map::DefaultHasher;
use std::collections::BTreeMap;
use std::hash::{Hash, Hasher};

use rekha::ring::HashRing;

#[test]
fn test_add_node() {
    let mut ring = HashRing::new();
    ring.add_node("node1");
    ring.add_node("node2");
    assert_eq!(ring.nodes().len(), 2);
}

#[test]
fn test_remove_node() {
    let mut ring = HashRing::new();
    ring.add_node("node1");
    ring.add_node("node2");
    ring.remove_node("node1");
    assert_eq!(ring.nodes().len(), 1);
}

#[test]
fn test_replicas_for() {
    let mut ring = HashRing::new();
    ring.add_node("node1");
    ring.add_node("node2");
    ring.add_node("node3");
    let replicas = ring.replicas_for(42, 2);
    assert_eq!(replicas.len(), 2);
}

#[test]
fn test_replicas_for_rf_larger_than_nodes() {
    let mut ring = HashRing::new();
    ring.add_node("node1");
    let replicas = ring.replicas_for(42, 3);
    assert_eq!(replicas.len(), 1);
}

#[test]
fn test_replicas_for_empty_ring() {
    let ring = HashRing::new();
    let replicas = ring.replicas_for(42, 2);
    assert!(replicas.is_empty());
}

#[test]
fn test_duplicate_add() {
    let mut ring = HashRing::new();
    ring.add_node("node1");
    ring.add_node("node1");
    assert_eq!(ring.nodes().len(), 1);
}

#[test]
fn test_deterministic_replicas() {
    let mut ring = HashRing::new();
    ring.add_node("node1");
    ring.add_node("node2");
    ring.add_node("node3");
    let r1 = ring.replicas_for(42, 2);
    let r2 = ring.replicas_for(42, 2);
    assert_eq!(r1, r2);
}

fn hash_of(data: &[u8]) -> u64 {
    let mut h = DefaultHasher::new();
    data.hash(&mut h);
    h.finish()
}

#[test]
fn replicas_follow_the_points_on_the_ring() {
    let nodes = ["alpha", "beta", "gamma", "delta"];
    let mut ring = HashRing::new();
    let mut points: BTreeMap<u64, String> = BTreeMap::new();
    for n in nodes {
        ring.add_node(n);
        for v in 0..128u32 {
            points.insert(hash_of(format!("{n}:{v}").as_bytes()), n.to_string());
        }
    }
    for shard in 0..200u64 {
        let from = hash_of(&shard.to_le_bytes());
        let mut want: Vec<String> = Vec::new();
        for (_, n) in points.range(from..).chain(points.iter()) {
            if !want.contains(n) {
                want.push(n.clone());
            }
        }
        for rf in 0..5usize {
            let got = ring.replicas_for(shard, rf);
            assert_eq!(got, want[..rf.min(want.len())].to_vec());
        }
    }
}

#[test]
fn a_walk_goes_once_around() {
    let mut ring = HashRing::new();
    ring.place("a", &vec![10, 30]);
    ring.place("b", &vec![20, 40]);
    ring.place("c", &vec![50]);
    assert_eq!(ring.walk(0, 9), vec!["a", "b", "c"]);
    assert_eq!(ring.walk(20, 9), vec!["b", "a", "c"]);
    assert_eq!(ring.walk(21, 2), vec!["a", "b"]);
    assert_eq!(ring.walk(45, 9), vec!["c", "a", "b"]);
    assert_eq!(ring.walk(51, 1), vec!["a"]);
    ring.lift(&vec![50, 10]);
    assert_eq!(ring.walk(45, 9), vec!["b", "a"]);
    ring.place("d", &vec![20]);
    assert_eq!(ring.walk(0, 9), vec!["d", "a", "b"]);
}

#[test]
fn removed_nodes_hold_no_replicas() {
    let mut ring = HashRing::new();
    for n in ["n1", "n2", "n3"] {
        ring.add_node(n);
    }
    ring.remove_node("n2");
    for shard in 0..100u64 {
        let r = ring.replicas_for(shard, 3);
        assert_eq!(r.len(), 2);
        assert!(!r.contains(&"n2".to_string()));
    }
}

#[test]
fn more_replicas_keep_the_others() {
    let mut ring = HashRing::new();
    for n in ["n1", "n2", "n3", "n4"] {
        ring.add_node(n);
    }
    for shard in 0..50u64 {
        let all = ring.replicas_for(shard, 4);
        for rf in 1..4usize {
            assert_eq!(ring.replicas_for(shard, rf), all[..rf].to_vec());
        }
    }
}

/// A shard has as many replicas as asked for, or as many as there are nodes.
#[test]
fn replicas_are_as_many_as_can_be() {
    let mut ring = HashRing::new();
    for i in 0..6 {
        ring.add_node(&format!("n{i}"));
    }
    ring.remove_node("n2");
    ring.add_node("n2");
    ring.remove_node("n4");
    for shard in 0..200 {
        for rf in 0..8 {
            let r = ring.replicas_for(shard, rf);
            assert_eq!(r.len(), rf.min(5));
            assert!(r.iter().all(|n| ring.nodes().contains(n)));
        }
    }
}

/// A new node displaces at most the last replica of a shard, and nothing is left
/// of it when it goes again.
#[test]
fn new_nodes_displace_one_replica() {
    let mut ring = HashRing::new();
    for i in 0..4 {
        ring.add_node(&format!("n{i}"));
    }
    let before: Vec<Vec<String>> = (0..200).map(|s| ring.replicas_for(s, 3)).collect();
    ring.add_node("new");
    let mut moved = 0;
    for (s, old) in before.iter().enumerate() {
        let mut now = ring.replicas_for(s as u64, 3);
        if now.iter().any(|n| n == "new") {
            moved += 1;
        }
        now.retain(|n| n != "new");
        assert!(now.len() + 1 >= old.len());
        assert_eq!(now[..], old[..now.len()]);
    }
    assert!(moved > 0);
    ring.remove_node("new");
    assert_eq!(ring.nodes().len(), 4);
    let after: Vec<Vec<String>> = (0..200).map(|s| ring.replicas_for(s, 3)).collect();
    assert_eq!(after, before);
}
