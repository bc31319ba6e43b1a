//! The metadata that the cluster agrees on, and its snapshots.

use vstd::bytes::*;
use vstd::prelude::*;
use vstd::string::*;

use crate::bytes::{append_bytes, copy_range, read_u32};
use crate::bytes;
use crate::cluster::ClockMap;
use crate::raft_types;
use crate::raft_types::{
    copy_numbers, ClusterChange, ClusterOperation, Entry, EntryView, LogId, Members, MembersView,
    NodeInfo, NodeView, Payload, PayloadView,
};
use crate::table;
use crate::table::Table;
use crate::tags::ClockTag;

verus! {

/// What the engine hands over for a snapshot, and takes back.
pub trait EngineSnapshotProvider {
    fn snapshot(&self) -> Result<Vec<u8>, String>;

    fn restore_snapshot(&self, data: &[u8]) -> Result<(), String>;
}

/// The metadata of the cluster.
pub struct ClusterStateMachine {
    nodes: Table<u64, NodeInfo>,
    collections: Table<u128, Vec<u64>>,
    clock_map: ClockMap,
    last_applied: Option<LogId>,
    membership: Members,
}

/// The metadata of the cluster as a mathematical value.
pub struct ClusterView {
    pub nodes: Map<u64, NodeView>,
    /// The nodes that own each collection.
    pub collections: Map<u128, Seq<u64>>,
    pub clocks: Map<u64, ClockTag>,
    pub last_applied: Option<LogId>,
    pub membership: MembersView,
}

/// Nodes as mathematical values.
pub open spec fn node_views(nodes: Map<u64, NodeInfo>) -> Map<u64, NodeView> {
    nodes.map_values(|n: NodeInfo| n@)
}

/// Owners as mathematical values.
pub open spec fn owner_views(owners: Map<u128, Vec<u64>>) -> Map<u128, Seq<u64>> {
    owners.map_values(|v: Vec<u64>| v@)
}

impl View for ClusterStateMachine {
    type V = ClusterView;

    closed spec fn view(&self) -> ClusterView {
        ClusterView {
            nodes: node_views(self.nodes@),
            collections: owner_views(self.collections@),
            clocks: self.clock_map@,
            last_applied: self.last_applied,
            membership: self.membership@,
        }
    }
}

/// The empty cluster.
pub open spec fn no_cluster() -> ClusterView {
    ClusterView {
        nodes: Map::empty(),
        collections: Map::empty(),
        clocks: Map::empty(),
        last_applied: None,
        membership: MembersView { log_id: None, configs: Seq::empty(), nodes: Seq::empty() },
    }
}

/// A node as it is under a leader.
pub open spec fn led_by(leader: u64) -> spec_fn(NodeView) -> NodeView {
    |n: NodeView| NodeView { is_leader: n.node_id == leader, ..n }
}

/// The cluster after a change.
pub open spec fn changed(c: ClusterView, op: ClusterChange) -> ClusterView {
    match op {
        ClusterChange::AddNode { node_id, addr } => ClusterView {
            nodes: c.nodes.insert(node_id, NodeView { node_id, addr, is_leader: false }),
            ..c
        },
        ClusterChange::RemoveNode { node_id } => ClusterView { nodes: c.nodes.remove(node_id), ..c },
        ClusterChange::AddCollection { collection_id, owner_nodes, .. } => ClusterView {
            collections: c.collections.insert(collection_id, owner_nodes),
            ..c
        },
        ClusterChange::RemoveCollection { collection_id } => ClusterView {
            collections: c.collections.remove(collection_id),
            ..c
        },
        ClusterChange::TransferLeadership { new_leader } => ClusterView {
            nodes: c.nodes.map_values(led_by(new_leader)),
            ..c
        },
    }
}

/// The cluster after a log entry.
pub open spec fn stepped(c: ClusterView, e: EntryView) -> ClusterView {
    let c = ClusterView { last_applied: Some(e.log_id), ..c };
    match e.payload {
        PayloadView::Blank => c,
        PayloadView::Normal(op) => changed(c, op),
        PayloadView::Membership(m) => ClusterView {
            membership: MembersView { log_id: Some(e.log_id), ..m },
            ..c
        },
    }
}

/// The cluster after log entries.
pub open spec fn stepped_all(c: ClusterView, entries: Seq<EntryView>) -> ClusterView
    decreases entries.len(),
{
    if entries.len() == 0 {
        c
    } else {
        stepped(stepped_all(c, entries.drop_last()), entries.last())
    }
}

/// What is answered for a log entry.
#[derive(Debug, Clone, Copy, PartialEq, Eq, Structural)]
pub enum Response {
    Blank,
    Applied,
    Membership,
}

/// The answer for a log entry.
pub open spec fn answer_to(p: PayloadView) -> Response {
    match p {
        PayloadView::Blank => Response::Blank,
        PayloadView::Normal(_) => Response::Applied,
        PayloadView::Membership(_) => Response::Membership,
    }
}

impl ClusterStateMachine {
    /// The empty cluster.
    pub fn new() -> (c: ClusterStateMachine)
        ensures
            c@ == no_cluster(),
    {
        let c = ClusterStateMachine {
            nodes: Table::new(),
            collections: Table::new(),
            clock_map: ClockMap::new(),
            last_applied: None,
            membership: Members::none(),
        };
        assert(node_views(c.nodes@) =~= Map::empty());
        assert(owner_views(c.collections@) =~= Map::empty());
        c
    }

    /// A cluster with these parts.
    pub fn from_parts(
        nodes: Vec<(u64, NodeInfo)>,
        collections: Vec<(u128, Vec<u64>)>,
        clock_map: ClockMap,
        last_applied: Option<LogId>,
        membership: Members,
    ) -> (c: ClusterStateMachine)
        requires
            table::keys_apart(nodes@),
            table::keys_apart(collections@),
        ensures
            c@ == (ClusterView {
                nodes: node_views(table::table_map(nodes@)),
                collections: owner_views(table::table_map(collections@)),
                clocks: clock_map@,
                last_applied,
                membership: membership@,
            }),
    {
        ClusterStateMachine {
            nodes: Table::from_entries(nodes),
            collections: Table::from_entries(collections),
            clock_map,
            last_applied,
            membership,
        }
    }

    /// The nodes.
    pub fn nodes(&self) -> (r: &Vec<(u64, NodeInfo)>)
        ensures
            table::keys_apart(r@),
            node_views(table::table_map(r@)) == self@.nodes,
    {
        self.nodes.entries()
    }

    /// A node, if it is known.
    pub fn node(&self, id: u64) -> (r: Option<&NodeInfo>)
        ensures
            match r {
                Some(n) => self@.nodes.contains_key(id) && n@ == self@.nodes[id],
                None => !self@.nodes.contains_key(id),
            },
    {
        self.nodes.get(&id)
    }

    /// The collections with the nodes that own them.
    pub fn collections(&self) -> (r: &Vec<(u128, Vec<u64>)>)
        ensures
            table::keys_apart(r@),
            owner_views(table::table_map(r@)) == self@.collections,
    {
        self.collections.entries()
    }

    /// The nodes that own a collection, if it is known.
    pub fn owners(&self, id: u128) -> (r: Option<&Vec<u64>>)
        ensures
            match r {
                Some(v) => self@.collections.contains_key(id) && v@ == self@.collections[id],
                None => !self@.collections.contains_key(id),
            },
    {
        self.collections.get(&id)
    }

    /// The clocks of the nodes.
    pub fn clock_map(&self) -> (r: &ClockMap)
        ensures
            r@ == self@.clocks,
    {
        &self.clock_map
    }

    /// The last log entry that was applied, and the members.
    pub fn applied_state(&self) -> (r: (Option<LogId>, &Members))
        ensures
            r.0 == self@.last_applied,
            r.1@ == self@.membership,
    {
        (self.last_applied, &self.membership)
    }

    /// Applies a change.
    pub fn apply_operation(&mut self, op: &ClusterOperation)
        ensures
            final(self)@ == changed(old(self)@, op@),
            rest_stays(old(self)@, final(self)@),
            match op {
                ClusterOperation::AddNode { node_id, addr } => {
                    &&& final(self)@.nodes.contains_key(*node_id)
                    &&& final(self)@.nodes[*node_id].addr == addr@
                    &&& other_nodes_stay(old(self)@, final(self)@, *node_id)
                    &&& final(self)@.collections == old(self)@.collections
                },
                ClusterOperation::RemoveNode { node_id } => {
                    &&& !final(self)@.nodes.contains_key(*node_id)
                    &&& other_nodes_stay(old(self)@, final(self)@, *node_id)
                    &&& final(self)@.collections == old(self)@.collections
                },
                ClusterOperation::AddCollection { collection_id, owner_nodes, .. } => {
                    &&& final(self)@.collections.contains_key(*collection_id)
                    &&& final(self)@.collections[*collection_id] == owner_nodes@
                    &&& other_collections_stay(old(self)@, final(self)@, *collection_id)
                    &&& final(self)@.nodes == old(self)@.nodes
                },
                ClusterOperation::RemoveCollection { collection_id } => {
                    &&& !final(self)@.collections.contains_key(*collection_id)
                    &&& other_collections_stay(old(self)@, final(self)@, *collection_id)
                    &&& final(self)@.nodes == old(self)@.nodes
                },
                ClusterOperation::TransferLeadership { new_leader } => final(self)@.collections
                    == old(self)@.collections,
            },
    {
        let ghost before = self.nodes@;
        let ghost owned = self.collections@;
        match op {
            ClusterOperation::AddNode { node_id, addr } => {
                let n = NodeInfo { node_id: *node_id, addr: addr.clone(), is_leader: false };
                let ghost view = n@;
                self.nodes.insert(*node_id, n);
                assert(node_views(self.nodes@) =~= node_views(before).insert(*node_id, view));
            },
            ClusterOperation::RemoveNode { node_id } => {
                self.nodes.remove(node_id);
                assert(node_views(self.nodes@) =~= node_views(before).remove(*node_id));
            },
            ClusterOperation::AddCollection { collection_id, owner_nodes, .. } => {
                self.collections.insert(*collection_id, copy_numbers(owner_nodes));
                assert(owner_views(self.collections@) =~= owner_views(owned).insert(
                    *collection_id,
                    owner_nodes@,
                ));
            },
            ClusterOperation::RemoveCollection { collection_id } => {
                self.collections.remove(collection_id);
                assert(owner_views(self.collections@) =~= owner_views(owned).remove(*collection_id));
            },
            ClusterOperation::TransferLeadership { new_leader } => {
                let led: Table<u64, NodeInfo> = under_leader(&self.nodes, *new_leader);
                self.nodes = led;
            },
        }
    }

    /// Applies log entries, and answers each.
    pub fn apply(&mut self, entries: &Vec<Entry>) -> (r: Vec<Response>)
        ensures
            final(self)@ == stepped_all(old(self)@, raft_types::entry_views(entries@)),
            r@.len() == entries@.len(),
            forall|i: int| 0 <= i < r@.len() ==> #[trigger] r@[i] == answer_to(entries@[i].payload@),
    {
        let ghost start = self@;
        let ghost all = raft_types::entry_views(entries@);
        let mut r: Vec<Response> = Vec::new();
        let mut i: usize = 0;
        assert(all.take(0) =~= Seq::empty());
        while i < entries.len()
            invariant
                i <= entries.len(),
                all == raft_types::entry_views(entries@),
                self@ == stepped_all(start, all.take(i as int)),
                r@.len() == i,
                forall|j: int| 0 <= j < i ==> #[trigger] r@[j] == answer_to(entries@[j].payload@),
            decreases entries.len() - i,
        {
            let e: &Entry = &entries[i];
            proof {
                assert(all.take(i + 1).drop_last() =~= all.take(i as int));
                assert(all.take(i + 1).last() == e@);
            }
            self.last_applied = Some(e.log_id);
            match &e.payload {
                Payload::Blank => {
                    r.push(Response::Blank);
                },
                Payload::Normal(op) => {
                    self.apply_operation(op);
                    r.push(Response::Applied);
                },
                Payload::Membership(m) => {
                    self.membership = m.named_by(Some(e.log_id));
                    r.push(Response::Membership);
                },
            }
            i += 1;
        }
        assert(all.take(i as int) =~= all);
        r
    }

    /// Takes over a snapshot: the metadata it holds, if it holds any, and the
    /// place in the log and the members that it was made for.
    pub fn install_snapshot(
        &mut self,
        decoded: Option<ClusterStateMachine>,
        last_log_id: Option<LogId>,
        membership: Members,
    )
        ensures
            final(self)@ == (ClusterView {
                last_applied: last_log_id,
                membership: membership@,
                ..(match decoded {
                    Some(c) => c@,
                    None => old(self)@,
                })
            }),
    {
        match decoded {
            Some(c) => {
                *self = c;
            },
            None => {},
        }
        self.last_applied = last_log_id;
        self.membership = membership;
    }
}

impl Default for ClusterStateMachine {
    fn default() -> (c: ClusterStateMachine)
        ensures
            c@ == no_cluster(),
    {
        ClusterStateMachine::new()
    }
}

fn under_leader(nodes: &Table<u64, NodeInfo>, leader: u64) -> (r: Table<u64, NodeInfo>)
    ensures
        node_views(r@) == node_views(nodes@).map_values(led_by(leader)),
{
    let entries: &Vec<(u64, NodeInfo)> = nodes.entries();
    let mut r: Table<u64, NodeInfo> = Table::new();
    let mut i: usize = 0;
    while i < entries.len()
        invariant
            i <= entries.len(),
            table::keys_apart(entries@),
            forall|k: u64|
                #[trigger] r@.contains_key(k) <==> exists|j: int|
                    0 <= j < i && (#[trigger] entries@[j]).0 == k,
            forall|j: int|
                0 <= j < i ==> r@.contains_key((#[trigger] entries@[j]).0) && r@[entries@[j].0]@
                    == led_by(leader)(entries@[j].1@),
        decreases entries.len() - i,
    {
        let n: &NodeInfo = &entries[i].1;
        let ghost before = r@;
        r.insert(
            entries[i].0,
            NodeInfo { node_id: n.node_id, addr: n.addr.clone(), is_leader: n.node_id == leader },
        );
        proof {
            assert forall|k: u64| #[trigger] r@.contains_key(k) <==> exists|j: int|
                0 <= j < i + 1 && (#[trigger] entries@[j]).0 == k by {
                if r@.contains_key(k) {
                    if before.contains_key(k) {
                        let j = choose|j: int| 0 <= j < i && (#[trigger] entries@[j]).0 == k;
                        assert(entries@[j].0 == k);
                    } else {
                        assert(entries@[i as int].0 == k);
                    }
                }
                if exists|j: int| 0 <= j < i + 1 && (#[trigger] entries@[j]).0 == k {
                    let j = choose|j: int| 0 <= j < i + 1 && (#[trigger] entries@[j]).0 == k;
                    if j < i {
                        assert(before.contains_key(entries@[j].0));
                    }
                }
            }
            assert forall|j: int| 0 <= j < i + 1 implies r@.contains_key((#[trigger] entries@[j]).0)
                && r@[entries@[j].0]@ == led_by(leader)(entries@[j].1@) by {
                if j < i {
                    assert(before.contains_key(entries@[j].0));
                    assert(entries@[j].0@ != entries@[i as int].0@);
                }
            }
        }
        i += 1;
    }
    proof {
        let want = node_views(nodes@).map_values(led_by(leader));
        assert forall|k: u64| #[trigger] node_views(r@).contains_key(k) <==> want.contains_key(k) by {
            if r@.contains_key(k) {
                let j = choose|j: int| 0 <= j < i && (#[trigger] entries@[j]).0 == k;
                table::lemma_seated(entries@, j);
            }
            if nodes@.contains_key(k) {
                let j = table::seat(entries@, k);
                assert(entries@[j].0@ == k);
            }
        }
        assert forall|k: u64| #[trigger] want.contains_key(k) implies node_views(r@)[k] == want[k] by {
            let j = table::seat(entries@, k);
            assert(entries@[j].0@ == k);
            table::lemma_seated(entries@, j);
        }
        assert(node_views(r@) =~= want);
    }
    r
}

/// The bytes of a snapshot: the length of the cluster's part, and the two parts.
pub open spec fn framed(cluster: Seq<u8>, engine: Seq<u8>) -> Seq<u8> {
    spec_u32_to_le_bytes(cluster.len() as u32) + cluster + engine
}

/// The parts of a snapshot.
pub struct Parts {
    pub cluster: Option<Vec<u8>>,
    pub engine: Option<Vec<u8>>,
}

/// The parts of a snapshot as mathematical values.
pub struct PartsView {
    pub cluster: Option<Seq<u8>>,
    pub engine: Option<Seq<u8>>,
}

/// Optional bytes as mathematical values.
pub open spec fn bytes_opt(b: Option<Vec<u8>>) -> Option<Seq<u8>> {
    match b {
        Some(b) => Some(b@),
        None => None,
    }
}

impl View for Parts {
    type V = PartsView;

    open spec fn view(&self) -> PartsView {
        PartsView { cluster: bytes_opt(self.cluster), engine: bytes_opt(self.engine) }
    }
}

/// The parts of a snapshot's bytes. Bytes that are too short for a length hold
/// no snapshot; a part that is cut off is missing.
pub open spec fn parted(data: Seq<u8>) -> Option<PartsView> {
    if data.len() < 4 {
        None
    } else {
        let n = bytes::u32_at(data, 0);
        Some(
            PartsView {
                cluster: if data.len() >= 4 + n {
                    Some(data.subrange(4, 4 + n))
                } else {
                    None
                },
                engine: if data.len() > 4 + n {
                    Some(data.skip(4 + n))
                } else {
                    None
                },
            },
        )
    }
}

/// Puts the parts of a snapshot together.
pub fn frame(cluster: &[u8], engine: &[u8]) -> (r: Vec<u8>)
    requires
        cluster@.len() <= u32::MAX,
    ensures
        r@ == framed(cluster@, engine@),
{
    let mut r: Vec<u8> = u32_to_le_bytes(cluster.len() as u32);
    append_bytes(&mut r, cluster);
    append_bytes(&mut r, engine);
    r
}

/// Takes a snapshot apart.
pub fn unframe(data: &[u8]) -> (r: Option<Parts>)
    ensures
        match r {
            Some(p) => parted(data@) == Some(p@),
            None => parted(data@) is None,
        },
{
    if data.len() < 4 {
        return None;
    }
    let n: u64 = read_u32(data, 0) as u64;
    let len: u64 = data.len() as u64;
    let cluster: Option<Vec<u8>> = if len >= 4 + n {
        Some(copy_range(data, 4, (4 + n) as usize))
    } else {
        None
    };
    let engine: Option<Vec<u8>> = if len > 4 + n {
        let part: Vec<u8> = copy_range(data, (4 + n) as usize, data.len());
        assert(part@ =~= data@.skip(4 + n));
        Some(part)
    } else {
        None
    };
    Some(Parts { cluster, engine })
}

/// A snapshot of the cluster and of its engine, if it has one.
pub fn build_snapshot<P: EngineSnapshotProvider>(cluster: &[u8], engine: Option<&P>) -> (r: Result<
    Vec<u8>,
    String,
>)
    requires
        cluster@.len() <= u32::MAX,
    ensures
        engine is None ==> (r matches Ok(b) && b@ == framed(cluster@, Seq::empty())),
        engine is Some ==> match r {
            Ok(b) => exists|e: Vec<u8>|
                b@ == framed(cluster@, e@) && #[trigger] call_ensures(
                    P::snapshot,
                    (engine->0,),
                    Ok(e),
                ),
            Err(m) => exists|e: String|
                m@ == "engine snapshot failed: "@ + e@ && #[trigger] call_ensures(
                    P::snapshot,
                    (engine->0,),
                    Err(e),
                ),
        },
{
    match engine {
        Some(p) => {
            match p.snapshot() {
                Ok(e) => Ok(frame(cluster, e.as_slice())),
                Err(e) => {
                    let mut m: String = "engine snapshot failed: ".to_owned();
                    m.append(e.as_str());
                    Err(m)
                },
            }
        },
        None => {
            let none: Vec<u8> = Vec::new();
            assert(none@ =~= Seq::empty());
            Ok(frame(cluster, none.as_slice()))
        },
    }
}

/// A snapshot is taken apart into the parts that it was put together from. An
/// empty part of the engine is not told apart from a missing one.
pub proof fn snapshots_come_apart(cluster: Seq<u8>, engine: Seq<u8>)
    requires
        cluster.len() <= u32::MAX,
    ensures
        parted(framed(cluster, engine)) == Some(
            PartsView {
                cluster: Some(cluster),
                engine: if engine.len() > 0 {
                    Some(engine)
                } else {
                    None
                },
            },
        ),
{
    let data = framed(cluster, engine);
    lemma_auto_spec_u32_to_from_le_bytes();
    assert(data.subrange(0, 4) =~= spec_u32_to_le_bytes(cluster.len() as u32));
    assert(data.subrange(4, 4 + cluster.len() as int) =~= cluster);
    assert(data.skip(4 + cluster.len() as int) =~= engine);
}

/// Applying entries in two runs is applying them in one.
pub proof fn runs_of_entries_add_up(c: ClusterView, a: Seq<EntryView>, b: Seq<EntryView>)
    ensures
        stepped_all(c, a + b) == stepped_all(stepped_all(c, a), b),
    decreases b.len(),
{
    if b.len() == 0 {
        assert(a + b =~= a);
    } else {
        assert((a + b).drop_last() =~= a + b.drop_last());
        runs_of_entries_add_up(c, a, b.drop_last());
    }
}

/// After a transfer of leadership, a node leads if and only if it was named.
pub proof fn one_leader_at_most(c: ClusterView, leader: u64, n: u64)
    requires
        c.nodes.contains_key(n),
    ensures
        ({
            let after = changed(c, ClusterChange::TransferLeadership { new_leader: leader });
            after.nodes.contains_key(n) && (after.nodes[n].is_leader <==> c.nodes[n].node_id == leader)
                && after.nodes[n].addr == c.nodes[n].addr
        }),
{
}

/// Whether two clusters know the same nodes but for one, with the same
/// addresses and leadership.
pub open spec fn other_nodes_stay(a: ClusterView, b: ClusterView, node_id: u64) -> bool {
    forall|n: u64|
        n != node_id ==> (#[trigger] a.nodes.contains_key(n) <==> b.nodes.contains_key(n)) && (
        a.nodes.contains_key(n) ==> a.nodes[n] == b.nodes[n])
}

/// Whether two clusters know the same collections but for one, with the same
/// owners.
pub open spec fn other_collections_stay(a: ClusterView, b: ClusterView, id: u128) -> bool {
    forall|k: u128|
        k != id ==> (#[trigger] a.collections.contains_key(k) <==> b.collections.contains_key(k)) && (
        a.collections.contains_key(k) ==> a.collections[k] == b.collections[k])
}

/// Whether the members, the clocks and the place in the log are the same.
pub open spec fn rest_stays(a: ClusterView, b: ClusterView) -> bool {
    a.clocks == b.clocks && a.last_applied == b.last_applied && a.membership == b.membership
}

/// Adding a node makes it known with its address, leading nothing, and touches
/// nothing else.
pub proof fn an_added_node_is_known(c: ClusterView, node_id: u64, addr: Seq<char>)
    ensures
        ({
            let after = changed(c, ClusterChange::AddNode { node_id, addr });
            &&& after.nodes.contains_key(node_id)
            &&& after.nodes[node_id].node_id == node_id
            &&& after.nodes[node_id].addr == addr
            &&& !after.nodes[node_id].is_leader
            &&& other_nodes_stay(c, after, node_id)
            &&& after.collections == c.collections
            &&& rest_stays(c, after)
        }),
{
}

/// Removing a node makes that node unknown, and touches nothing else.
pub proof fn a_removed_node_alone_is_gone(c: ClusterView, node_id: u64)
    ensures
        ({
            let after = changed(c, ClusterChange::RemoveNode { node_id });
            &&& !after.nodes.contains_key(node_id)
            &&& other_nodes_stay(c, after, node_id)
            &&& after.collections == c.collections
            &&& rest_stays(c, after)
        }),
{
}

/// Adding a collection makes its owners known, and touches nothing else.
pub proof fn an_added_collection_has_its_owners(c: ClusterView, op: ClusterChange)
    requires
        op is AddCollection,
    ensures
        ({
            let after = changed(c, op);
            let id = op->AddCollection_collection_id;
            &&& after.collections.contains_key(id)
            &&& after.collections[id] == op->owner_nodes
            &&& other_collections_stay(c, after, id)
            &&& after.nodes == c.nodes
            &&& rest_stays(c, after)
        }),
{
}

/// Removing a collection makes that collection unknown, and touches nothing
/// else.
pub proof fn a_removed_collection_alone_is_gone(c: ClusterView, collection_id: u128)
    ensures
        ({
            let after = changed(c, ClusterChange::RemoveCollection { collection_id });
            &&& !after.collections.contains_key(collection_id)
            &&& other_collections_stay(c, after, collection_id)
            &&& after.nodes == c.nodes
            &&& rest_stays(c, after)
        }),
{
}

/// A transfer of leadership changes who leads, and nothing else: no node comes
/// or goes or changes its address.
pub proof fn a_transfer_changes_leadership_alone(c: ClusterView, leader: u64)
    ensures
        ({
            let after = changed(c, ClusterChange::TransferLeadership { new_leader: leader });
            &&& forall|n: u64| #[trigger] c.nodes.contains_key(n) <==> after.nodes.contains_key(n)
            &&& forall|n: u64| #[trigger]
                c.nodes.contains_key(n) ==> after.nodes[n].node_id == c.nodes[n].node_id
                    && after.nodes[n].addr == c.nodes[n].addr && (after.nodes[n].is_leader
                    <==> c.nodes[n].node_id == leader)
            &&& after.collections == c.collections
            &&& rest_stays(c, after)
        }),
{
    let after = changed(c, ClusterChange::TransferLeadership { new_leader: leader });
    assert forall|n: u64| #[trigger] c.nodes.contains_key(n) implies after.nodes[n].addr
        == c.nodes[n].addr by {
        one_leader_at_most(c, leader, n);
    }
}

/// Every entry of the log moves the place in the log to itself. An entry of
/// members names them and nothing else; one without content changes nothing
/// else; a change leaves the members as they are.
pub proof fn entries_move_the_place(c: ClusterView, e: EntryView)
    ensures
        ({
            let after = stepped(c, e);
            &&& after.last_applied == Some(e.log_id)
            &&& after.clocks == c.clocks
            &&& e.payload is Blank ==> after.nodes == c.nodes && after.collections == c.collections
                && after.membership == c.membership
            &&& e.payload matches PayloadView::Membership(m) ==> after.nodes == c.nodes
                && after.collections == c.collections && after.membership.log_id == Some(e.log_id)
                && after.membership.configs == m.configs && after.membership.nodes == m.nodes
            &&& e.payload matches PayloadView::Normal(op) ==> after.membership == c.membership
                && after.nodes == changed(c, op).nodes && after.collections == changed(c, op).collections
        }),
{
}

/// The last entry of a run decides the place in the log.
pub proof fn the_last_entry_is_the_place(c: ClusterView, entries: Seq<EntryView>)
    ensures
        stepped_all(c, entries).last_applied == (if entries.len() == 0 {
            c.last_applied
        } else {
            Some(entries.last().log_id)
        }),
        entries.len() == 1 ==> stepped_all(c, entries) == stepped(c, entries[0]),
{
    if entries.len() > 0 {
        entries_move_the_place(stepped_all(c, entries.drop_last()), entries.last());
        if entries.len() == 1 {
            assert(entries.drop_last().len() == 0);
            assert(stepped_all(c, entries.drop_last()) == c);
        }
    }
}

/// Every entry is answered by its kind.
pub proof fn entries_are_answered_by_kind(p: PayloadView)
    ensures
        answer_to(p) is Blank <==> p is Blank,
        answer_to(p) is Applied <==> p is Normal,
        answer_to(p) is Membership <==> p is Membership,
{
}

/// A new cluster knows nothing.
pub proof fn a_new_cluster_knows_nothing(n: u64, name: Seq<char>)
    ensures
        !no_cluster().nodes.contains_key(n),
        no_cluster().nodes.dom().is_empty(),
        no_cluster().collections.dom().is_empty(),
        no_cluster().last_applied is None,
{
    assert(no_cluster().nodes.dom() =~= Set::empty());
    assert(no_cluster().collections.dom() =~= Set::empty());
}

} // verus!
