//! What is known of a peer.

use vstd::prelude::*;
use vstd::string::*;

verus! {

/// A node that holds replicas.
#[derive(Debug, Clone)]
pub struct NodeInfo {
    pub node_id: String,
    pub address: String,
    pub is_alive: bool,
}

/// A node as a mathematical value.
pub struct NodeView {
    pub node_id: Seq<char>,
    pub address: Seq<char>,
    pub is_alive: bool,
}

impl View for NodeInfo {
    type V = NodeView;

    open spec fn view(&self) -> NodeView {
        NodeView { node_id: self.node_id@, address: self.address@, is_alive: self.is_alive }
    }
}

/// A peer, and when it was last heard of, in milliseconds.
#[derive(Debug, Clone)]
pub struct PeerState {
    pub info: NodeInfo,
    pub last_seen: u64,
}

impl PeerState {
    /// A peer that is heard of now.
    pub fn new(info: NodeInfo, now: u64) -> (p: PeerState)
        ensures
            p.info == info,
            p.last_seen == now,
    {
        PeerState { info, last_seen: now }
    }
}

} // verus!
