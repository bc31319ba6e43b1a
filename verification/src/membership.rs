//! The peers of a node, and the ring of those that are alive.

use dashmap::DashMap;
use vstd::prelude::*;
use vstd::string::*;

use crate::ring;
use crate::ring::{HashRing, RingView};
use crate::text;
use crate::text::same_text;

verus! {

/// `dashmap::DashMap`, a map that many threads can share.
#[verifier::external_type_specification]
#[verifier::external_body]
#[verifier::reject_recursive_types(K)]
#[verifier::reject_recursive_types(V)]
#[verifier::reject_recursive_types(S)]
pub struct ExDashMap<K, V, S>(dashmap::DashMap<K, V, S>);

/// What a map of peers holds: under each id the address, whether the peer is
/// alive, and when it was last heard of.
pub uninterp spec fn peers_in(m: DashMap<String, (String, bool, u64)>) -> Map<
    Seq<char>,
    (Seq<char>, bool, u64),
>;

/// The empty map of peers.
pub open spec fn no_entries() -> Map<Seq<char>, (Seq<char>, bool, u64)> {
    Map::empty()
}

/// `DashMap::new`. Claimed: the map is empty.
#[verifier::external_body]
fn no_peers() -> (m: DashMap<String, (String, bool, u64)>)
    ensures
        peers_in(m) == no_entries(),
{
    DashMap::new()
}

/// `DashMap::insert`. Claimed: the value stands under the key afterwards, in
/// place of any other, and the rest stays.
#[verifier::external_body]
fn put_peer(m: &mut DashMap<String, (String, bool, u64)>, id: String, peer: (String, bool, u64))
    ensures
        peers_in(*final(m)) == peers_in(*old(m)).insert(id@, (peer.0@, peer.1, peer.2)),
{
    m.insert(id, peer);
}

/// `DashMap::remove`. Claimed: nothing stands under the key afterwards, and the
/// rest stays.
#[verifier::external_body]
fn drop_peer(m: &mut DashMap<String, (String, bool, u64)>, id: &str)
    ensures
        peers_in(*final(m)) == peers_in(*old(m)).remove(id@),
{
    m.remove(id);
}

/// `DashMap::get`. Claimed: the value under the key, if there is one.
#[verifier::external_body]
fn find_peer(m: &DashMap<String, (String, bool, u64)>, id: &str) -> (r: Option<(String, bool, u64)>)
    ensures
        match r {
            Some(p) => peers_in(*m).contains_key(id@) && peers_in(*m)[id@] == (p.0@, p.1, p.2),
            None => !peers_in(*m).contains_key(id@),
        },
{
    m.get(id).map(|p| p.value().clone())
}

/// `DashMap::contains_key`. Claimed: whether something stands under the key.
#[verifier::external_body]
fn knows_peer(m: &DashMap<String, (String, bool, u64)>, id: &str) -> (r: bool)
    ensures
        r == peers_in(*m).contains_key(id@),
{
    m.contains_key(id)
}

/// `DashMap::iter`. Claimed: it hands out every entry of the map once, in an
/// order that is not said.
#[verifier::external_body]
fn list_peers(m: &DashMap<String, (String, bool, u64)>) -> (r: Vec<(String, (String, bool, u64))>)
    ensures
        listed(r@, peers_in(*m)),
{
    m.iter().map(|e| (e.key().clone(), e.value().clone())).collect()
}

/// Whether a list holds each entry of a map of peers once.
pub open spec fn listed(
    r: Seq<(String, (String, bool, u64))>,
    m: Map<Seq<char>, (Seq<char>, bool, u64)>,
) -> bool {
    &&& forall|i: int|
        0 <= i < r.len() ==> m.contains_key((#[trigger] r[i]).0@) && m[r[i].0@] == (
            r[i].1.0@,
            r[i].1.1,
            r[i].1.2,
        )
    &&& forall|i: int, j: int|
        0 <= i < j < r.len() ==> (#[trigger] r[i]).0@ != (#[trigger] r[j]).0@
    &&& forall|k: Seq<char>| #[trigger]
        m.contains_key(k) ==> exists|i: int| 0 <= i < r.len() && (#[trigger] r[i]).0@ == k
}

/// A peer, and when it was last heard of, in milliseconds.
#[derive(Debug)]
pub struct NodeInfo {
    pub node_id: String,
    pub address: String,
    pub is_alive: bool,
    pub last_seen: u64,
}

/// A peer as a mathematical value.
pub struct PeerView {
    pub node_id: Seq<char>,
    pub address: Seq<char>,
    pub is_alive: bool,
    pub last_seen: u64,
}

impl View for NodeInfo {
    type V = PeerView;

    open spec fn view(&self) -> PeerView {
        PeerView {
            node_id: self.node_id@,
            address: self.address@,
            is_alive: self.is_alive,
            last_seen: self.last_seen,
        }
    }
}

/// The peers of a node and their ring.
pub struct Membership {
    nodes: DashMap<String, (String, bool, u64)>,
    ring: HashRing,
    self_id: String,
    heartbeat_timeout_ms: u64,
}

/// The peers of a node and their ring as a mathematical value.
pub struct MembershipView {
    pub peers: Map<Seq<char>, PeerView>,
    pub ring: RingView,
    pub self_id: Seq<char>,
    pub heartbeat_timeout_ms: u64,
}

/// An entry of the map as a peer.
pub open spec fn peer(id: Seq<char>, p: (Seq<char>, bool, u64)) -> PeerView {
    PeerView { node_id: id, address: p.0, is_alive: p.1, last_seen: p.2 }
}

/// The entries of the map as peers.
pub open spec fn peer_views(m: Map<Seq<char>, (Seq<char>, bool, u64)>) -> Map<Seq<char>, PeerView> {
    Map::new(|id: Seq<char>| m.contains_key(id), |id: Seq<char>| peer(id, m[id]))
}

impl View for Membership {
    type V = MembershipView;

    closed spec fn view(&self) -> MembershipView {
        MembershipView {
            peers: peer_views(peers_in(self.nodes)),
            ring: self.ring@,
            self_id: self.self_id@,
            heartbeat_timeout_ms: self.heartbeat_timeout_ms,
        }
    }
}

/// The peers after a change of one that is known.
pub open spec fn changed(
    peers: Map<Seq<char>, PeerView>,
    id: Seq<char>,
    change: spec_fn(PeerView) -> PeerView,
) -> Map<Seq<char>, PeerView> {
    if peers.contains_key(id) {
        peers.insert(id, change(peers[id]))
    } else {
        peers
    }
}

/// A peer that is heard of.
pub open spec fn alive_at(now: u64) -> spec_fn(PeerView) -> PeerView {
    |p: PeerView| PeerView { is_alive: true, last_seen: now, ..p }
}

/// A peer that is given up.
pub open spec fn dead() -> spec_fn(PeerView) -> PeerView {
    |p: PeerView| PeerView { is_alive: false, ..p }
}

/// A peer that is given up where it was not heard of for a time.
pub open spec fn timed_out(now: u64, timeout_ms: u64) -> spec_fn(PeerView) -> PeerView {
    |p: PeerView|
        if now - p.last_seen >= timeout_ms || (p.last_seen > now && timeout_ms == 0) {
            PeerView { is_alive: false, ..p }
        } else {
            p
        }
}

/// Whether peers are listed, each once, that are wanted.
pub open spec fn lists(
    r: Seq<NodeInfo>,
    peers: Map<Seq<char>, PeerView>,
    wanted: spec_fn(PeerView) -> bool,
) -> bool {
    &&& forall|i: int|
        0 <= i < r.len() ==> peers.contains_key((#[trigger] r[i]).node_id@) && r[i]@
            == peers[r[i].node_id@] && wanted(r[i]@)
    &&& forall|i: int, j: int|
        0 <= i < j < r.len() ==> (#[trigger] r[i]).node_id@ != (#[trigger] r[j]).node_id@
    &&& forall|k: Seq<char>|
        #[trigger] peers.contains_key(k) && wanted(peers[k]) ==> exists|i: int|
            0 <= i < r.len() && (#[trigger] r[i]).node_id@ == k
}

/// Every peer.
pub open spec fn any_peer() -> spec_fn(PeerView) -> bool {
    |p: PeerView| true
}

/// The peers that are alive.
pub open spec fn alive() -> spec_fn(PeerView) -> bool {
    |p: PeerView| p.is_alive
}

/// The ring of nodes that came in an order.
pub open spec fn ring_of(names: Seq<Seq<char>>) -> RingView
    decreases names.len(),
{
    if names.len() == 0 {
        RingView { nodes: Seq::empty(), points: Seq::empty() }
    } else {
        ring::added(ring_of(names.drop_last()), names.last())
    }
}

/// Whether a ring was built of a node and of those of its peers that are
/// alive, in some order.
pub open spec fn built(r: RingView, self_id: Seq<char>, peers: Map<Seq<char>, PeerView>) -> bool {
    exists|order: Seq<NodeInfo>|
        lists(order, peers, alive()) && r == #[trigger] ring_of(seq![self_id] + ids_of(order))
}

/// The ids of listed peers.
pub open spec fn ids_of(order: Seq<NodeInfo>) -> Seq<Seq<char>> {
    Seq::new(order.len(), |i: int| order[i].node_id@)
}

/// Builds the ring of a node and of peers in an order.
pub fn build_ring(self_id: &str, order: &Vec<NodeInfo>) -> (r: HashRing)
    ensures
        r.wf(),
        r@ == ring_of(seq![self_id@] + ids_of(order@)),
{
    let ghost names = seq![self_id@] + ids_of(order@);
    let mut r: HashRing = HashRing::new();
    proof {
        assert(names.take(0) =~= Seq::empty());
        assert(names.take(1).drop_last() =~= names.take(0));
    }
    r.add_node(self_id);
    proof {
        assert(names.take(1).last() == self_id@);
        assert(ring_of(names.take(0)).nodes =~= Seq::empty());
        assert(ring_of(names.take(1)) == ring::added(ring_of(names.take(0)), self_id@));
    }
    let mut i: usize = 0;
    while i < order.len()
        invariant
            i <= order.len(),
            names == seq![self_id@] + ids_of(order@),
            r.wf(),
            r@ == ring_of(names.take(i + 1)),
        decreases order.len() - i,
    {
        proof {
            assert(names.take(i + 2).drop_last() =~= names.take(i + 1));
            assert(names[i + 1] == order@[i as int].node_id@);
        }
        r.add_node(order[i].node_id.as_str());
        i += 1;
    }
    assert(names.take(i + 1) =~= names);
    r
}

impl Membership {
    /// Whether the ring is in order.
    pub closed spec fn wf(self) -> bool {
        self.ring.wf()
    }

    /// A node without peers.
    pub fn new(self_id: &str, heartbeat_timeout_ms: u64) -> (m: Membership)
        ensures
            m.wf(),
            m@ == (MembershipView {
                peers: Map::empty(),
                ring: RingView { nodes: Seq::empty(), points: Seq::empty() },
                self_id: self_id@,
                heartbeat_timeout_ms,
            }),
    {
        let m = Membership {
            nodes: no_peers(),
            ring: HashRing::new(),
            self_id: self_id.to_owned(),
            heartbeat_timeout_ms,
        };
        assert(m@.peers =~= Map::empty());
        m
    }

    /// The node's own id.
    pub fn self_id(&self) -> (r: &str)
        ensures
            r@ == self@.self_id,
    {
        self.self_id.as_str()
    }

    /// Takes note of a peer that is alive.
    pub fn add_peer(&mut self, node_id: &str, address: &str, now: u64)
        requires
            old(self).wf(),
        ensures
            final(self).wf(),
            final(self)@ == (MembershipView {
                peers: old(self)@.peers.insert(
                    node_id@,
                    PeerView { node_id: node_id@, address: address@, is_alive: true, last_seen: now },
                ),
                ..old(self)@
            }),
    {
        self.put(node_id, (address.to_owned(), true, now));
    }

    fn put(&mut self, node_id: &str, p: (String, bool, u64))
        requires
            old(self).wf(),
        ensures
            final(self).wf(),
            final(self)@ == (MembershipView {
                peers: old(self)@.peers.insert(node_id@, peer(node_id@, (p.0@, p.1, p.2))),
                ..old(self)@
            }),
    {
        let ghost before = peers_in(self.nodes);
        let ghost view = (p.0@, p.1, p.2);
        put_peer(&mut self.nodes, node_id.to_owned(), p);
        assert(peer_views(peers_in(self.nodes)) =~= peer_views(before).insert(
            node_id@,
            peer(node_id@, view),
        ));
    }

    /// Takes note that a peer was heard of.
    pub fn mark_alive(&mut self, node_id: &str, now: u64)
        requires
            old(self).wf(),
        ensures
            final(self).wf(),
            final(self)@ == (MembershipView {
                peers: changed(old(self)@.peers, node_id@, alive_at(now)),
                ..old(self)@
            }),
    {
        match find_peer(&self.nodes, node_id) {
            Some(p) => {
                self.put(node_id, (p.0, true, now));
            },
            None => {},
        }
    }

    /// Gives a peer up.
    pub fn mark_dead(&mut self, node_id: &str)
        requires
            old(self).wf(),
        ensures
            final(self).wf(),
            final(self)@ == (MembershipView {
                peers: changed(old(self)@.peers, node_id@, dead()),
                ..old(self)@
            }),
    {
        match find_peer(&self.nodes, node_id) {
            Some(p) => {
                self.put(node_id, (p.0, false, p.2));
            },
            None => {},
        }
    }

    /// Forgets a peer.
    pub fn remove_peer(&mut self, node_id: &str)
        requires
            old(self).wf(),
        ensures
            final(self).wf(),
            final(self)@ == (MembershipView { peers: old(self)@.peers.remove(node_id@), ..old(self)@ }),
    {
        let ghost before = peers_in(self.nodes);
        drop_peer(&mut self.nodes, node_id);
        assert(peer_views(peers_in(self.nodes)) =~= peer_views(before).remove(node_id@));
    }

    /// A peer, if it is known.
    pub fn get_peer(&self, node_id: &str) -> (r: Option<NodeInfo>)
        ensures
            match r {
                Some(n) => self@.peers.contains_key(node_id@) && n@ == self@.peers[node_id@],
                None => !self@.peers.contains_key(node_id@),
            },
    {
        match find_peer(&self.nodes, node_id) {
            Some(p) => Some(
                NodeInfo {
                    node_id: node_id.to_owned(),
                    address: p.0,
                    is_alive: p.1,
                    last_seen: p.2,
                },
            ),
            None => None,
        }
    }

    fn peers_where(&self, alive_only: bool) -> (r: Vec<NodeInfo>)
        ensures
            alive_only ==> lists(r@, self@.peers, alive()),
            !alive_only ==> lists(r@, self@.peers, any_peer()),
    {
        let items: Vec<(String, (String, bool, u64))> = list_peers(&self.nodes);
        let ghost wanted = if alive_only {
            alive()
        } else {
            any_peer()
        };
        let mut r: Vec<NodeInfo> = Vec::new();
        let mut i: usize = 0;
        while i < items.len()
            invariant
                i <= items.len(),
                listed(items@, peers_in(self.nodes)),
                wanted == (if alive_only {
                    alive()
                } else {
                    any_peer()
                }),
                forall|j: int|
                    0 <= j < r@.len() ==> self@.peers.contains_key((#[trigger] r@[j]).node_id@) && r@[j]@
                        == self@.peers[r@[j].node_id@] && wanted(r@[j]@),
                forall|j: int|
                    0 <= j < r@.len() ==> exists|k: int|
                        0 <= k < i && (#[trigger] items@[k]).0@ == (#[trigger] r@[j]).node_id@,
                forall|j: int, k: int|
                    0 <= j < k < r@.len() ==> (#[trigger] r@[j]).node_id@ != (
                    #[trigger] r@[k]).node_id@,
                forall|k: int|
                    0 <= k < i && wanted(self@.peers[(#[trigger] items@[k]).0@]) ==> exists|j: int|
                        0 <= j < r@.len() && (#[trigger] r@[j]).node_id@ == items@[k].0@,
            decreases items.len() - i,
        {
            let id: &String = &items[i].0;
            let ghost before = r@;
            assert(self@.peers.contains_key(items@[i as int].0@));
            if !alive_only || items[i].1.1 {
                r.push(
                    NodeInfo {
                        node_id: id.clone(),
                        address: items[i].1.0.clone(),
                        is_alive: items[i].1.1,
                        last_seen: items[i].1.2,
                    },
                );
            }
            proof {
                assert forall|j: int| 0 <= j < r@.len() implies exists|k: int|
                    0 <= k < i + 1 && (#[trigger] items@[k]).0@ == (#[trigger] r@[j]).node_id@ by {
                    if j < before.len() {
                        let k = choose|k: int|
                            0 <= k < i && (#[trigger] items@[k]).0@ == before[j].node_id@;
                        assert(items@[k].0@ == r@[j].node_id@);
                    } else {
                        assert(items@[i as int].0@ == r@[j].node_id@);
                    }
                }
                assert forall|j: int, k: int| 0 <= j < k < r@.len() implies (#[trigger] r@[j]).node_id@ != (
                #[trigger] r@[k]).node_id@ by {
                    assert(r@[j] == before[j]);
                    if k == before.len() {
                        let m = choose|m: int|
                            0 <= m < i && (#[trigger] items@[m]).0@ == before[j].node_id@;
                        assert(items@[m].0@ != items@[i as int].0@);
                    } else {
                        assert(r@[k] == before[k]);
                    }
                }
                assert forall|k: int|
                    0 <= k < i + 1 && wanted(self@.peers[(#[trigger] items@[k]).0@]) implies exists|j: int|
                    0 <= j < r@.len() && (#[trigger] r@[j]).node_id@ == items@[k].0@ by {
                    if k < i {
                        let j = choose|j: int|
                            0 <= j < before.len() && (#[trigger] before[j]).node_id@ == items@[k].0@;
                        assert(r@[j] == before[j]);
                    } else {
                        assert(r@[before.len() as int].node_id@ == items@[k].0@);
                    }
                }
            }
            i += 1;
        }
        proof {
            assert forall|k: Seq<char>| #[trigger] self@.peers.contains_key(k) && wanted(
                self@.peers[k],
            ) implies exists|j: int| 0 <= j < r@.len() && (#[trigger] r@[j]).node_id@ == k by {
                assert(peers_in(self.nodes).contains_key(k));
                let m = choose|m: int| 0 <= m < items@.len() && (#[trigger] items@[m]).0@ == k;
                assert(wanted(self@.peers[items@[m].0@]));
            }
        }
        r
    }

    /// The peers that are alive.
    pub fn alive_peers(&self) -> (r: Vec<NodeInfo>)
        ensures
            lists(r@, self@.peers, alive()),
    {
        self.peers_where(true)
    }

    /// All peers.
    pub fn all_peers(&self) -> (r: Vec<NodeInfo>)
        ensures
            lists(r@, self@.peers, any_peer()),
    {
        self.peers_where(false)
    }

    /// Builds the ring anew, of this node and of the peers that are alive.
    pub fn rebuild_ring(&mut self)
        requires
            old(self).wf(),
        ensures
            final(self).wf(),
            final(self)@ == (MembershipView { ring: final(self)@.ring, ..old(self)@ }),
            built(final(self)@.ring, old(self)@.self_id, old(self)@.peers),
    {
        let order: Vec<NodeInfo> = self.alive_peers();
        let r: HashRing = build_ring(self.self_id.as_str(), &order);
        self.ring = r;
    }

    /// The other nodes that hold the replicas of a shard.
    pub fn replicas_for(&self, shard: u64, rf: usize) -> (r: Vec<String>)
        requires
            self.wf(),
        ensures
            text::views(r@) == ring::replicas(self@.ring, shard, rf as nat).filter(
                ring::other_node(self@.self_id),
            ),
    {
        let all: Vec<String> = self.ring.replicas_for(shard, rf);
        let mut r: Vec<String> = Vec::new();
        let mut i: usize = 0;
        let ghost names = text::views(all@);
        proof {
            reveal(Seq::filter);
            assert(names.take(0).filter(ring::other_node(self@.self_id)) =~= Seq::empty());
            assert(text::views(r@) =~= Seq::empty());
        }
        while i < all.len()
            invariant
                i <= all.len(),
                names == text::views(all@),
                text::views(r@) == names.take(i as int).filter(ring::other_node(self@.self_id)),
            decreases all.len() - i,
        {
            let ghost before = r@;
            proof {
                reveal(Seq::filter);
                assert(names.take(i + 1).drop_last() =~= names.take(i as int));
                assert(names.take(i + 1).last() == all@[i as int]@);
            }
            if !same_text(all[i].as_str(), self.self_id.as_str()) {
                r.push(all[i].clone());
                assert(text::views(r@) =~= text::views(before).push(all@[i as int]@));
            }
            i += 1;
        }
        assert(names.take(i as int) =~= names);
        r
    }

    /// Gives up the peers that were not heard of for a time.
    pub fn check_timeouts(&mut self, timeout_ms: u64, now: u64)
        requires
            old(self).wf(),
        ensures
            final(self).wf(),
            final(self)@ == (MembershipView {
                peers: old(self)@.peers.map_values(timed_out(now, timeout_ms)),
                ..old(self)@
            }),
    {
        let items: Vec<(String, (String, bool, u64))> = list_peers(&self.nodes);
        let ghost start = self@;
        let ghost fate = timed_out(now, timeout_ms);
        let ghost m = peers_in(self.nodes);
        let mut i: usize = 0;
        while i < items.len()
            invariant
                i <= items.len(),
                self.wf(),
                listed(items@, m),
                start.peers == peer_views(m),
                fate == timed_out(now, timeout_ms),
                self@ == (MembershipView { peers: self@.peers, ..start }),
                forall|k: Seq<char>| self@.peers.contains_key(k) <==> #[trigger] m.contains_key(k),
                forall|j: int|
                    0 <= j < i ==> self@.peers[(#[trigger] items@[j]).0@] == fate(
                        start.peers[items@[j].0@],
                    ),
                forall|j: int|
                    i <= j < items@.len() ==> self@.peers[(#[trigger] items@[j]).0@]
                        == start.peers[items@[j].0@],
            decreases items.len() - i,
        {
            let last_seen: u64 = items[i].1.2;
            let age: u64 = if now >= last_seen {
                now - last_seen
            } else {
                0
            };
            let ghost before = self@.peers;
            let ghost id = items@[i as int].0@;
            assert(m.contains_key(items@[i as int].0@));
            if age >= timeout_ms {
                self.mark_dead(items[i].0.as_str());
            }
            proof {
                assert(self@.peers[id] == fate(start.peers[id]));
                assert forall|j: int| 0 <= j < i + 1 implies self@.peers[(#[trigger] items@[j]).0@] == fate(
                    start.peers[items@[j].0@],
                ) by {
                    if j < i {
                        assert(items@[j].0@ != items@[i as int].0@);
                    }
                }
                assert forall|j: int| i + 1 <= j < items@.len() implies self@.peers[(
                #[trigger] items@[j]).0@] == start.peers[items@[j].0@] by {
                    assert(items@[i as int].0@ != items@[j].0@);
                }
            }
            i += 1;
        }
        proof {
            let want = start.peers.map_values(fate);
            assert forall|k: Seq<char>| #[trigger] want.contains_key(k) implies self@.peers[k] == want[k] by {
                assert(m.contains_key(k));
                let j = choose|j: int| 0 <= j < items@.len() && (#[trigger] items@[j]).0@ == k;
                assert(items@[j].0@ == k);
            }
            assert forall|k: Seq<char>| self@.peers.contains_key(k) <==> #[trigger] want.contains_key(k) by {
                assert(m.contains_key(k) <==> self@.peers.contains_key(k));
            }
            assert(self@.peers =~= want);
        }
    }

    /// Hears from a node: one that is new joins, and the ring is built anew.
    pub fn handle_heartbeat(&mut self, node_id: &str, address: &str, now: u64)
        requires
            old(self).wf(),
        ensures
            final(self).wf(),
            old(self)@.peers.contains_key(node_id@) ==> final(self)@ == (MembershipView {
                peers: changed(old(self)@.peers, node_id@, alive_at(now)),
                ..old(self)@
            }),
            !old(self)@.peers.contains_key(node_id@) ==> {
                &&& final(self)@ == (MembershipView {
                    peers: old(self)@.peers.insert(
                        node_id@,
                        PeerView {
                            node_id: node_id@,
                            address: address@,
                            is_alive: true,
                            last_seen: now,
                        },
                    ),
                    ring: final(self)@.ring,
                    ..old(self)@
                })
                &&& built(final(self)@.ring, old(self)@.self_id, final(self)@.peers)
            },
    {
        if knows_peer(&self.nodes, node_id) {
            self.mark_alive(node_id, now);
        } else {
            self.add_peer(node_id, address, now);
            self.rebuild_ring();
        }
    }

    /// Hears that a node leaves: it is forgotten, and the ring is built anew.
    pub fn handle_peer_leaving(&mut self, node_id: &str)
        requires
            old(self).wf(),
        ensures
            final(self).wf(),
            final(self)@ == (MembershipView {
                peers: old(self)@.peers.remove(node_id@),
                ring: final(self)@.ring,
                ..old(self)@
            }),
            built(final(self)@.ring, old(self)@.self_id, final(self)@.peers),
    {
        self.remove_peer(node_id);
        self.rebuild_ring();
    }
}

// ---------------------------------------------------------------------------
// Laws
// ---------------------------------------------------------------------------

/// A ring of nodes that came in an order is sound, and holds these nodes.
pub proof fn rings_are_sound(names: Seq<Seq<char>>)
    ensures
        ring::sound(ring_of(names)),
        forall|n: Seq<char>| #[trigger] ring_of(names).nodes.contains(n) <==> names.contains(n),
    decreases names.len(),
{
    if names.len() > 0 {
        let rest = names.drop_last();
        let before = ring_of(rest);
        rings_are_sound(rest);
        if !before.nodes.contains(names.last()) {
            ring::adding_keeps_the_ring_sound(before, names.last());
        }
        assert forall|n: Seq<char>| #[trigger] ring_of(names).nodes.contains(n) <==> names.contains(n) by {
            let after = ring_of(names);
            if after.nodes.contains(n) {
                let i = choose|i: int| 0 <= i < after.nodes.len() && after.nodes[i] == n;
                if i < before.nodes.len() {
                    assert(before.nodes[i] == n);
                    assert(before.nodes.contains(n));
                    let j = choose|j: int| 0 <= j < rest.len() && rest[j] == n;
                    assert(names[j] == n);
                } else {
                    assert(names[names.len() - 1] == n);
                }
            }
            if names.contains(n) {
                let j = choose|j: int| 0 <= j < names.len() && names[j] == n;
                if j < rest.len() {
                    assert(rest[j] == n);
                    assert(rest.contains(n));
                    assert(before.nodes.contains(n));
                }
                if before.nodes.contains(n) {
                    let i = choose|i: int| 0 <= i < before.nodes.len() && before.nodes[i] == n;
                    assert(after.nodes[i] == n);
                } else {
                    assert(after.nodes[before.nodes.len() as int] == n);
                }
            }
        }
    }
}

/// Once the ring was built, the replicas of a shard are this node and peers
/// that are alive.
pub proof fn replicas_are_alive(
    r: RingView,
    self_id: Seq<char>,
    peers: Map<Seq<char>, PeerView>,
    from: u64,
    limit: nat,
    node: Seq<char>,
)
    requires
        built(r, self_id, peers),
        ring::firsts(ring::clockwise(r.points, from), limit).contains(node),
    ensures
        node == self_id || (peers.contains_key(node) && peers[node].is_alive),
{
    let order = choose|order: Seq<NodeInfo>|
        lists(order, peers, alive()) && r == #[trigger] ring_of(seq![self_id] + ids_of(order));
    let names = seq![self_id] + ids_of(order);
    rings_are_sound(names);
    ring::replicas_are_members(r, from, limit, node);
    let i = choose|i: int| 0 <= i < names.len() && names[i] == node;
    if i > 0 {
        assert(order[i - 1].node_id@ == node);
    }
}

/// A peer that is heard of is alive, from that time on, at its address.
pub proof fn heard_peers_are_alive(peers: Map<Seq<char>, PeerView>, id: Seq<char>, now: u64, other: Seq<char>)
    requires
        peers.contains_key(id),
    ensures
        ({
            let after = changed(peers, id, alive_at(now));
            &&& after.contains_key(id) && after[id].is_alive && after[id].last_seen == now
            &&& after[id].address == peers[id].address && after[id].node_id == peers[id].node_id
            &&& other != id ==> (after.contains_key(other) <==> peers.contains_key(other)) && (
            peers.contains_key(other) ==> after[other] == peers[other])
        }),
{
}

/// A peer that is given up stays known, at its address, as not alive.
pub proof fn dead_peers_stay_known(peers: Map<Seq<char>, PeerView>, id: Seq<char>, other: Seq<char>)
    requires
        peers.contains_key(id),
    ensures
        ({
            let after = changed(peers, id, dead());
            &&& after.contains_key(id) && !after[id].is_alive && after[id].last_seen == peers[id].last_seen
            &&& after[id].address == peers[id].address && after[id].node_id == peers[id].node_id
            &&& other != id ==> (after.contains_key(other) <==> peers.contains_key(other)) && (
            peers.contains_key(other) ==> after[other] == peers[other])
        }),
{
}

/// A peer that is not known does not become known by a change.
pub proof fn unknown_peers_stay_unknown(
    peers: Map<Seq<char>, PeerView>,
    id: Seq<char>,
    change: spec_fn(PeerView) -> PeerView,
)
    requires
        !peers.contains_key(id),
    ensures
        changed(peers, id, change) == peers,
{
}

/// A peer times out when it was not heard of for the given time, and not before;
/// it keeps its address, and a dead one does not come to life.
pub proof fn silence_decides_the_timeout(p: PeerView, now: u64, timeout_ms: u64)
    ensures
        ({
            let q = timed_out(now, timeout_ms)(p);
            &&& q.node_id == p.node_id && q.address == p.address && q.last_seen == p.last_seen
            &&& q.is_alive ==> p.is_alive
            &&& p.last_seen <= now && now - p.last_seen >= timeout_ms ==> !q.is_alive
            &&& p.last_seen <= now && now - p.last_seen < timeout_ms ==> q == p
            &&& p.last_seen > now && timeout_ms > 0 ==> q == p
        }),
{
}

/// A list of the peers that are alive holds each of them once and no other.
pub proof fn lists_hold_the_living(r: Seq<NodeInfo>, peers: Map<Seq<char>, PeerView>, k: Seq<char>)
    requires
        lists(r, peers, alive()),
    ensures
        (exists|i: int| 0 <= i < r.len() && (#[trigger] r[i]).node_id@ == k) <==> peers.contains_key(k)
            && peers[k].is_alive,
        forall|i: int, j: int|
            0 <= i < j < r.len() ==> (#[trigger] r[i]).node_id@ != (#[trigger] r[j]).node_id@,
{
    if exists|i: int| 0 <= i < r.len() && (#[trigger] r[i]).node_id@ == k {
        let i = choose|i: int| 0 <= i < r.len() && (#[trigger] r[i]).node_id@ == k;
        assert(r[i]@ == peers[r[i].node_id@] && alive()(r[i]@));
    }
    if peers.contains_key(k) && peers[k].is_alive {
        assert(alive()(peers[k]));
    }
}

/// A list of all peers holds each of them.
pub proof fn lists_of_all_hold_all(r: Seq<NodeInfo>, peers: Map<Seq<char>, PeerView>, k: Seq<char>)
    requires
        lists(r, peers, any_peer()),
        peers.contains_key(k),
    ensures
        exists|i: int| 0 <= i < r.len() && (#[trigger] r[i]).node_id@ == k && r[i]@ == peers[k],
{
    assert(any_peer()(peers[k]));
    let i = choose|i: int| 0 <= i < r.len() && (#[trigger] r[i]).node_id@ == k;
    assert(r[i]@ == peers[r[i].node_id@]);
}

/// The ring that is built holds this node and the peers that are alive, and no
/// other.
pub proof fn the_ring_holds_the_living(r: RingView, self_id: Seq<char>, peers: Map<Seq<char>, PeerView>, n: Seq<char>)
    requires
        built(r, self_id, peers),
    ensures
        r.nodes.contains(n) <==> n == self_id || (peers.contains_key(n) && peers[n].is_alive),
{
    let order = choose|order: Seq<NodeInfo>|
        lists(order, peers, alive()) && r == #[trigger] ring_of(seq![self_id] + ids_of(order));
    let names = seq![self_id] + ids_of(order);
    rings_are_sound(names);
    lists_hold_the_living(order, peers, n);
    if r.nodes.contains(n) {
        let i = choose|i: int| 0 <= i < names.len() && names[i] == n;
        if i > 0 {
            assert(order[i - 1].node_id@ == n);
        }
    }
    if n == self_id {
        assert(names[0] == n);
    } else if peers.contains_key(n) && peers[n].is_alive {
        let i = choose|i: int| 0 <= i < order.len() && (#[trigger] order[i]).node_id@ == n;
        assert(names[i + 1] == n);
    }
}

} // verus!
