//! What the cluster agrees on: nodes, collections, and log entries.

use vstd::prelude::*;
use vstd::string::*;

use crate::ids::CollectionId;

verus! {

/// A change of the cluster's metadata.
#[derive(Debug)]
pub enum ClusterOperation {
    AddNode { node_id: u64, addr: String },
    RemoveNode { node_id: u64 },
    AddCollection {
        collection_id: CollectionId,
        name: String,
        dimension: u32,
        distance: String,
        tenant: String,
        database: String,
        owner_nodes: Vec<u64>,
    },
    RemoveCollection { collection_id: CollectionId },
    TransferLeadership { new_leader: u64 },
}

/// A change of the cluster's metadata as a mathematical value.
pub enum ClusterChange {
    AddNode { node_id: u64, addr: Seq<char> },
    RemoveNode { node_id: u64 },
    AddCollection {
        collection_id: CollectionId,
        name: Seq<char>,
        dimension: u32,
        distance: Seq<char>,
        tenant: Seq<char>,
        database: Seq<char>,
        owner_nodes: Seq<u64>,
    },
    RemoveCollection { collection_id: CollectionId },
    TransferLeadership { new_leader: u64 },
}

impl View for ClusterOperation {
    type V = ClusterChange;

    open spec fn view(&self) -> ClusterChange {
        match self {
            ClusterOperation::AddNode { node_id, addr } => ClusterChange::AddNode {
                node_id: *node_id,
                addr: addr@,
            },
            ClusterOperation::RemoveNode { node_id } => ClusterChange::RemoveNode {
                node_id: *node_id,
            },
            ClusterOperation::AddCollection {
                collection_id,
                name,
                dimension,
                distance,
                tenant,
                database,
                owner_nodes,
            } => ClusterChange::AddCollection {
                collection_id: *collection_id,
                name: name@,
                dimension: *dimension,
                distance: distance@,
                tenant: tenant@,
                database: database@,
                owner_nodes: owner_nodes@,
            },
            ClusterOperation::RemoveCollection { collection_id } => ClusterChange::RemoveCollection {
                collection_id: *collection_id,
            },
            ClusterOperation::TransferLeadership { new_leader } => ClusterChange::TransferLeadership {
                new_leader: *new_leader,
            },
        }
    }
}

/// Copies a list of numbers.
pub fn copy_numbers(v: &Vec<u64>) -> (r: Vec<u64>)
    ensures
        r@ == v@,
{
    let mut r: Vec<u64> = Vec::new();
    let mut i: usize = 0;
    while i < v.len()
        invariant
            i <= v.len(),
            r@ == v@.take(i as int),
        decreases v.len() - i,
    {
        r.push(v[i]);
        i += 1;
        assert(v@.take(i as int) =~= v@.take(i - 1).push(v@[i - 1]));
    }
    assert(v@.take(v@.len() as int) =~= v@);
    r
}

impl ClusterOperation {
    /// Copies a change.
    pub fn copy(&self) -> (r: ClusterOperation)
        ensures
            r@ == self@,
    {
        match self {
            ClusterOperation::AddNode { node_id, addr } => ClusterOperation::AddNode {
                node_id: *node_id,
                addr: addr.clone(),
            },
            ClusterOperation::RemoveNode { node_id } => ClusterOperation::RemoveNode {
                node_id: *node_id,
            },
            ClusterOperation::AddCollection {
                collection_id,
                name,
                dimension,
                distance,
                tenant,
                database,
                owner_nodes,
            } => ClusterOperation::AddCollection {
                collection_id: *collection_id,
                name: name.clone(),
                dimension: *dimension,
                distance: distance.clone(),
                tenant: tenant.clone(),
                database: database.clone(),
                owner_nodes: copy_numbers(owner_nodes),
            },
            ClusterOperation::RemoveCollection { collection_id } => ClusterOperation::RemoveCollection {
                collection_id: *collection_id,
            },
            ClusterOperation::TransferLeadership { new_leader } => ClusterOperation::TransferLeadership {
                new_leader: *new_leader,
            },
        }
    }
}

/// A node of the cluster.
#[derive(Debug)]
pub struct NodeInfo {
    pub node_id: u64,
    pub addr: String,
    pub is_leader: bool,
}

/// A node as a mathematical value.
pub struct NodeView {
    pub node_id: u64,
    pub addr: Seq<char>,
    pub is_leader: bool,
}

impl View for NodeInfo {
    type V = NodeView;

    open spec fn view(&self) -> NodeView {
        NodeView { node_id: self.node_id, addr: self.addr@, is_leader: self.is_leader }
    }
}

/// The place of an entry in the log: its index, and the leader that wrote it.
#[derive(Debug, Clone, Copy, PartialEq, Eq, Structural)]
pub struct LogId {
    pub term: u64,
    pub node: u64,
    pub index: u64,
}

/// A vote for a leader.
#[derive(Debug, Clone, Copy, PartialEq, Eq, Structural)]
pub struct Vote {
    pub term: u64,
    pub node: u64,
    pub committed: bool,
}

/// The members of the cluster, and the log entry that named them.
#[derive(Debug)]
pub struct Members {
    pub log_id: Option<LogId>,
    /// Groups of voters, of which each has to agree.
    pub configs: Vec<Vec<u64>>,
    /// The nodes, voters and learners.
    pub nodes: Vec<(u64, u64)>,
}

/// Groups of numbers as mathematical values.
pub open spec fn groups(configs: Seq<Vec<u64>>) -> Seq<Seq<u64>> {
    Seq::new(configs.len(), |i: int| configs[i]@)
}

/// Members as mathematical values.
pub struct MembersView {
    pub log_id: Option<LogId>,
    pub configs: Seq<Seq<u64>>,
    pub nodes: Seq<(u64, u64)>,
}

impl View for Members {
    type V = MembersView;

    open spec fn view(&self) -> MembersView {
        MembersView {
            log_id: self.log_id,
            configs: groups(self.configs@),
            nodes: self.nodes@,
        }
    }
}

impl Members {
    /// Nobody.
    pub fn none() -> (m: Members)
        ensures
            m@ == (MembersView { log_id: None, configs: Seq::empty(), nodes: Seq::empty() }),
    {
        let m = Members { log_id: None, configs: Vec::new(), nodes: Vec::new() };
        assert(groups(m.configs@) =~= Seq::empty());
        m
    }

    /// Copies members, as named by a log entry.
    pub fn named_by(&self, log_id: Option<LogId>) -> (r: Members)
        ensures
            r@ == (MembersView { log_id, ..self@ }),
    {
        let mut configs: Vec<Vec<u64>> = Vec::new();
        let mut i: usize = 0;
        while i < self.configs.len()
            invariant
                i <= self.configs.len(),
                configs@.len() == i,
                forall|j: int| 0 <= j < i ==> (#[trigger] configs@[j])@ == self.configs@[j]@,
            decreases self.configs.len() - i,
        {
            configs.push(copy_numbers(&self.configs[i]));
            i += 1;
        }
        let mut nodes: Vec<(u64, u64)> = Vec::new();
        let mut i: usize = 0;
        while i < self.nodes.len()
            invariant
                i <= self.nodes.len(),
                nodes@ == self.nodes@.take(i as int),
            decreases self.nodes.len() - i,
        {
            nodes.push((self.nodes[i].0, self.nodes[i].1));
            i += 1;
            assert(self.nodes@.take(i as int) =~= self.nodes@.take(i - 1).push(self.nodes@[i - 1]));
        }
        assert(self.nodes@.take(self.nodes@.len() as int) =~= self.nodes@);
        assert(groups(configs@) =~= groups(self.configs@));
        Members { log_id, configs, nodes }
    }

    /// Copies members.
    pub fn copy(&self) -> (r: Members)
        ensures
            r@ == self@,
    {
        self.named_by(self.log_id)
    }
}

/// What a log entry holds.
#[derive(Debug)]
pub enum Payload {
    /// Nothing.
    Blank,
    /// A change of the metadata.
    Normal(ClusterOperation),
    /// A change of the members.
    Membership(Members),
}

/// What a log entry holds, as a mathematical value.
pub enum PayloadView {
    Blank,
    Normal(ClusterChange),
    Membership(MembersView),
}

impl View for Payload {
    type V = PayloadView;

    open spec fn view(&self) -> PayloadView {
        match self {
            Payload::Blank => PayloadView::Blank,
            Payload::Normal(op) => PayloadView::Normal(op@),
            Payload::Membership(m) => PayloadView::Membership(m@),
        }
    }
}

/// A log entry.
#[derive(Debug)]
pub struct Entry {
    pub log_id: LogId,
    pub payload: Payload,
}

/// A log entry as a mathematical value.
pub struct EntryView {
    pub log_id: LogId,
    pub payload: PayloadView,
}

impl View for Entry {
    type V = EntryView;

    open spec fn view(&self) -> EntryView {
        EntryView { log_id: self.log_id, payload: self.payload@ }
    }
}

impl Entry {
    /// Copies an entry.
    pub fn copy(&self) -> (r: Entry)
        ensures
            r@ == self@,
    {
        Entry {
            log_id: self.log_id,
            payload: match &self.payload {
                Payload::Blank => Payload::Blank,
                Payload::Normal(op) => Payload::Normal(op.copy()),
                Payload::Membership(m) => Payload::Membership(m.copy()),
            },
        }
    }
}

/// Log entries as mathematical values.
pub open spec fn entry_views(entries: Seq<Entry>) -> Seq<EntryView> {
    Seq::new(entries.len(), |i: int| entries[i]@)
}

} // verus!
