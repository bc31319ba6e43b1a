//! A ring of hashes that spreads shards over nodes.

use vstd::bytes::*;
use vstd::prelude::*;
use vstd::string::*;
use vstd::utf8::*;

use crate::hashing;
use crate::hashing::sip_hash;
use crate::text;
use crate::text::{decimal, same_text};

verus! {

/// Number of points that a node has on the ring.
pub const VNODE_COUNT: u32 = 128;

/// Nodes on a ring.
pub struct HashRing {
    ring: Vec<(u64, String)>,
    nodes: Vec<String>,
}

/// A ring as a mathematical value.
pub struct RingView {
    /// The nodes in the order in which they came.
    pub nodes: Seq<Seq<char>>,
    /// The points in ascending order, each with its node.
    pub points: Seq<(u64, Seq<char>)>,
}

/// Points as mathematical values.
pub open spec fn point_views(ring: Seq<(u64, String)>) -> Seq<(u64, Seq<char>)> {
    Seq::new(ring.len(), |i: int| (ring[i].0, ring[i].1@))
}

impl View for HashRing {
    type V = RingView;

    closed spec fn view(&self) -> RingView {
        RingView { nodes: text::views(self.nodes@), points: point_views(self.ring@) }
    }
}

/// Whether points stand in ascending order, none twice.
pub open spec fn ascending(points: Seq<(u64, Seq<char>)>) -> bool {
    forall|i: int, j: int|
        0 <= i < j < points.len() ==> (#[trigger] points[i]).0 < (#[trigger] points[j]).0
}

/// Number of ascending points that come before a key.
pub open spec fn rank(points: Seq<(u64, Seq<char>)>, key: u64) -> nat
    decreases points.len(),
{
    if points.len() == 0 {
        0
    } else if points.last().0 < key {
        points.len()
    } else {
        rank(points.drop_last(), key)
    }
}

/// Whether a key is one of ascending points.
pub open spec fn taken(points: Seq<(u64, Seq<char>)>, key: u64) -> bool {
    rank(points, key) < points.len() && points[rank(points, key) as int].0 == key
}

/// The points with a node at a key, in place of another one.
pub open spec fn placed(points: Seq<(u64, Seq<char>)>, key: u64, node: Seq<char>) -> Seq<
    (u64, Seq<char>),
> {
    let i = rank(points, key) as int;
    if taken(points, key) {
        points.update(i, (key, node))
    } else {
        points.insert(i, (key, node))
    }
}

/// The points without a key.
pub open spec fn lifted(points: Seq<(u64, Seq<char>)>, key: u64) -> Seq<(u64, Seq<char>)> {
    if taken(points, key) {
        points.remove(rank(points, key) as int)
    } else {
        points
    }
}

/// The points with a node at each of some keys.
pub open spec fn placed_all(points: Seq<(u64, Seq<char>)>, keys: Seq<u64>, node: Seq<char>) -> Seq<
    (u64, Seq<char>),
>
    decreases keys.len(),
{
    if keys.len() == 0 {
        points
    } else {
        placed(placed_all(points, keys.drop_last(), node), keys.last(), node)
    }
}

/// The points without some keys.
pub open spec fn lifted_all(points: Seq<(u64, Seq<char>)>, keys: Seq<u64>) -> Seq<(u64, Seq<char>)>
    decreases keys.len(),
{
    if keys.len() == 0 {
        points
    } else {
        lifted(lifted_all(points, keys.drop_last()), keys.last())
    }
}

/// The nodes of the points that follow a key, once around the ring and on.
pub open spec fn clockwise(points: Seq<(u64, Seq<char>)>, from: u64) -> Seq<Seq<char>> {
    let order = points.skip(rank(points, from) as int) + points;
    Seq::new(order.len(), |i: int| order[i].1)
}

/// The first different ones of some nodes, at most `limit`.
pub open spec fn firsts(names: Seq<Seq<char>>, limit: nat) -> Seq<Seq<char>>
    decreases names.len(),
{
    if names.len() == 0 {
        Seq::empty()
    } else {
        let before = firsts(names.drop_last(), limit);
        if before.len() >= limit || before.contains(names.last()) {
            before
        } else {
            before.push(names.last())
        }
    }
}

/// The key of a node's point.
pub open spec fn vnode_hash(node: Seq<char>, vnode: nat) -> u64 {
    hashing::slice_hash(encode_utf8(node + ":"@ + text::decimal_text(vnode)))
}

/// The keys of a node's points.
pub open spec fn vnode_hashes(node: Seq<char>) -> Seq<u64> {
    Seq::new(128, |v: int| vnode_hash(node, v as nat))
}

/// The key that a shard starts at.
pub open spec fn shard_hash(shard: u64) -> u64 {
    hashing::slice_hash(spec_u64_to_le_bytes(shard))
}

/// The nodes that hold the replicas of a shard.
pub open spec fn replicas(r: RingView, shard: u64, rf: nat) -> Seq<Seq<char>> {
    if r.nodes.len() == 0 || rf == 0 {
        Seq::empty()
    } else {
        firsts(clockwise(r.points, shard_hash(shard)), rf)
    }
}

/// A ring with a node more, unless it is already there.
pub open spec fn added(r: RingView, node: Seq<char>) -> RingView {
    if r.nodes.contains(node) {
        r
    } else {
        RingView { nodes: r.nodes.push(node), points: placed_all(r.points, vnode_hashes(node), node) }
    }
}

/// A ring without a node.
pub open spec fn removed(r: RingView, node: Seq<char>) -> RingView {
    RingView {
        nodes: r.nodes.filter(other_node(node)),
        points: lifted_all(r.points, vnode_hashes(node)),
    }
}

/// Whether a node is another one.
pub open spec fn other_node(node: Seq<char>) -> spec_fn(Seq<char>) -> bool {
    |n: Seq<char>| n != node
}

impl HashRing {
    /// Whether the points stand in ascending order.
    pub closed spec fn wf(self) -> bool {
        ascending(self@.points)
    }

    /// A ring without nodes.
    pub fn new() -> (r: HashRing)
        ensures
            r.wf(),
            r@ == (RingView { nodes: Seq::empty(), points: Seq::empty() }),
    {
        let r = HashRing { ring: Vec::new(), nodes: Vec::new() };
        assert(r@.nodes =~= Seq::empty());
        assert(r@.points =~= Seq::empty());
        r
    }

    /// The nodes in the order in which they came.
    pub fn nodes(&self) -> (r: &Vec<String>)
        ensures
            text::views(r@) == self@.nodes,
    {
        &self.nodes
    }

    fn position(&self, key: u64) -> (i: usize)
        ensures
            i == rank(self@.points, key),
            i <= self.ring@.len(),
    {
        let mut i: usize = self.ring.len();
        assert(self@.points.take(i as int) =~= self@.points);
        while i > 0 && self.ring[i - 1].0 >= key
            invariant
                i <= self.ring@.len(),
                rank(self@.points, key) == rank(self@.points.take(i as int), key),
            decreases i,
        {
            proof {
                assert(self@.points.take(i as int).drop_last() =~= self@.points.take(i - 1));
            }
            i -= 1;
        }
        i
    }

    /// Puts a node at each of some keys.
    pub fn place(&mut self, node_id: &str, keys: &Vec<u64>)
        requires
            old(self).wf(),
        ensures
            final(self).wf(),
            final(self)@ == (RingView {
                points: placed_all(old(self)@.points, keys@, node_id@),
                ..old(self)@
            }),
    {
        let ghost start = self@;
        let mut v: usize = 0;
        assert(keys@.take(0) =~= Seq::empty());
        while v < keys.len()
            invariant
                v <= keys.len(),
                self.wf(),
                self@.nodes == start.nodes,
                self@.points == placed_all(start.points, keys@.take(v as int), node_id@),
            decreases keys.len() - v,
        {
            let key: u64 = keys[v];
            let i: usize = self.position(key);
            let ghost before = self@.points;
            proof {
                assert(keys@.take(v + 1).drop_last() =~= keys@.take(v as int));
                assert(keys@.take(v + 1).last() == key);
                lemma_placed(before, key, node_id@);
            }
            if i < self.ring.len() && self.ring[i].0 == key {
                self.ring.set(i, (key, node_id.to_owned()));
            } else {
                self.ring.insert(i, (key, node_id.to_owned()));
            }
            assert(self@.points =~= placed(before, key, node_id@));
            v += 1;
        }
        assert(keys@.take(v as int) =~= keys@);
    }

    /// Takes the points with some keys off the ring.
    pub fn lift(&mut self, keys: &Vec<u64>)
        requires
            old(self).wf(),
        ensures
            final(self).wf(),
            final(self)@ == (RingView {
                points: lifted_all(old(self)@.points, keys@),
                ..old(self)@
            }),
    {
        let ghost start = self@;
        let mut v: usize = 0;
        assert(keys@.take(0) =~= Seq::empty());
        while v < keys.len()
            invariant
                v <= keys.len(),
                self.wf(),
                self@.nodes == start.nodes,
                self@.points == lifted_all(start.points, keys@.take(v as int)),
            decreases keys.len() - v,
        {
            let key: u64 = keys[v];
            let i: usize = self.position(key);
            let ghost before = self@.points;
            proof {
                assert(keys@.take(v + 1).drop_last() =~= keys@.take(v as int));
                assert(keys@.take(v + 1).last() == key);
                lemma_lifted(before, key);
            }
            if i < self.ring.len() && self.ring[i].0 == key {
                self.ring.remove(i);
            }
            assert(self@.points =~= lifted(before, key));
            v += 1;
        }
        assert(keys@.take(v as int) =~= keys@);
    }

    fn vnode_keys(node_id: &str) -> (r: Vec<u64>)
        ensures
            r@ == vnode_hashes(node_id@),
    {
        let mut r: Vec<u64> = Vec::new();
        let mut v: u32 = 0;
        while v < VNODE_COUNT
            invariant
                v <= 128,
                r@.len() == v,
                forall|i: int| 0 <= i < v ==> #[trigger] r@[i] == vnode_hash(node_id@, i as nat),
            decreases 128 - v,
        {
            let mut data: String = node_id.to_owned();
            data.append(":");
            data.append(decimal(v as u64).as_str());
            r.push(sip_hash(data.as_str().as_bytes()));
            v += 1;
        }
        assert(r@ =~= vnode_hashes(node_id@));
        r
    }

    fn holds(&self, node_id: &str) -> (r: bool)
        ensures
            r == self@.nodes.contains(node_id@),
    {
        let mut i: usize = 0;
        while i < self.nodes.len()
            invariant
                i <= self.nodes.len(),
                forall|j: int| 0 <= j < i ==> #[trigger] self@.nodes[j] != node_id@,
            decreases self.nodes.len() - i,
        {
            if same_text(self.nodes[i].as_str(), node_id) {
                assert(self@.nodes[i as int] == node_id@);
                return true;
            }
            i += 1;
        }
        false
    }

    /// Adds a node, unless it is already there.
    pub fn add_node(&mut self, node_id: &str)
        requires
            old(self).wf(),
        ensures
            final(self).wf(),
            final(self)@ == added(old(self)@, node_id@),
    {
        if self.holds(node_id) {
            return ;
        }
        let ghost before = self@;
        let keys: Vec<u64> = Self::vnode_keys(node_id);
        self.place(node_id, &keys);
        self.nodes.push(node_id.to_owned());
        assert(self@.nodes =~= before.nodes.push(node_id@));
    }

    /// Removes a node.
    pub fn remove_node(&mut self, node_id: &str)
        requires
            old(self).wf(),
        ensures
            final(self).wf(),
            final(self)@ == removed(old(self)@, node_id@),
    {
        let keys: Vec<u64> = Self::vnode_keys(node_id);
        self.lift(&keys);
        let mut kept: Vec<String> = Vec::new();
        let mut i: usize = 0;
        let ghost all = self@.nodes;
        proof {
            reveal(Seq::filter);
            assert(all.take(0).filter(other_node(node_id@)) =~= Seq::empty());
            assert(text::views(kept@) =~= Seq::empty());
        }
        while i < self.nodes.len()
            invariant
                i <= self.nodes.len(),
                all == self@.nodes,
                text::views(kept@) == all.take(i as int).filter(other_node(node_id@)),
            decreases self.nodes.len() - i,
        {
            let ghost before = kept@;
            proof {
                reveal(Seq::filter);
                assert(all.take(i + 1).drop_last() =~= all.take(i as int));
                assert(all.take(i + 1).last() == self.nodes@[i as int]@);
            }
            if !same_text(self.nodes[i].as_str(), node_id) {
                kept.push(self.nodes[i].clone());
                assert(text::views(kept@) =~= text::views(before).push(self.nodes@[i as int]@));
            }
            i += 1;
        }
        assert(all.take(i as int) =~= all);
        self.nodes = kept;
    }

    /// The nodes that are met first from a key on, at most `rf`.
    pub fn walk(&self, from: u64, rf: usize) -> (r: Vec<String>)
        requires
            self.wf(),
        ensures
            text::views(r@) == firsts(clockwise(self@.points, from), rf as nat),
    {
        let start: usize = self.position(from);
        let n: usize = self.ring.len();
        let ghost names = clockwise(self@.points, from);
        let mut r: Vec<String> = Vec::new();
        let mut i: usize = start;
        assert(names.take(0) =~= Seq::empty());
        assert(text::views(r@) =~= Seq::empty());
        while i < n
            invariant
                start <= i <= n,
                n == self.ring@.len(),
                start == rank(self@.points, from),
                names == clockwise(self@.points, from),
                names.len() == 2 * n - start,
                text::views(r@) == firsts(names.take(i - start), rf as nat),
            decreases n - i,
        {
            proof {
                assert(names[i - start] == self.ring@[i as int].1@);
                assert(names.take(i - start + 1).drop_last() =~= names.take(i - start));
            }
            Self::meet(&mut r, self.ring[i].1.as_str(), rf);
            i += 1;
        }
        let mut i: usize = 0;
        while i < n
            invariant
                start <= n,
                i <= n,
                n == self.ring@.len(),
                start == rank(self@.points, from),
                names == clockwise(self@.points, from),
                names.len() == 2 * n - start,
                text::views(r@) == firsts(names.take(n - start + i), rf as nat),
            decreases n - i,
        {
            proof {
                assert(names[n - start + i] == self.ring@[i as int].1@);
                assert(names.take(n - start + i + 1).drop_last() =~= names.take(n - start + i));
            }
            Self::meet(&mut r, self.ring[i].1.as_str(), rf);
            i += 1;
        }
        assert(names.take(names.len() as int) =~= names);
        r
    }

    fn meet(r: &mut Vec<String>, node: &str, rf: usize)
        ensures
            text::views(final(r)@) == (if old(r)@.len() >= rf || text::views(old(r)@).contains(node@) {
                text::views(old(r)@)
            } else {
                text::views(old(r)@).push(node@)
            }),
    {
        if r.len() >= rf {
            return ;
        }
        let ghost before = r@;
        let mut i: usize = 0;
        while i < r.len()
            invariant
                i <= r.len(),
                before == r@,
                r@ == old(r)@,
                r@.len() < rf,
                forall|j: int| 0 <= j < i ==> (#[trigger] text::views(r@)[j]) != node@,
            decreases r.len() - i,
        {
            if same_text(r[i].as_str(), node) {
                assert(text::views(r@)[i as int] == node@);
                return ;
            }
            i += 1;
        }
        r.push(node.to_owned());
        assert(text::views(r@) =~= text::views(before).push(node@));
    }

    /// The nodes that hold the replicas of a shard, at most `rf`.
    pub fn replicas_for(&self, shard: u64, rf: usize) -> (r: Vec<String>)
        requires
            self.wf(),
        ensures
            text::views(r@) == replicas(self@, shard, rf as nat),
    {
        if self.nodes.len() == 0 || rf == 0 {
            let r: Vec<String> = Vec::new();
            assert(text::views(r@) =~= Seq::empty());
            return r;
        }
        let data: Vec<u8> = u64_to_le_bytes(shard);
        self.walk(sip_hash(data.as_slice()), rf)
    }
}

impl Default for HashRing {
    fn default() -> (r: HashRing)
        ensures
            r.wf(),
            r@ == (RingView { nodes: Seq::empty(), points: Seq::empty() }),
    {
        HashRing::new()
    }
}

proof fn lemma_rank(points: Seq<(u64, Seq<char>)>, key: u64)
    requires
        ascending(points),
    ensures
        rank(points, key) <= points.len(),
        forall|i: int| 0 <= i < rank(points, key) ==> (#[trigger] points[i]).0 < key,
        forall|i: int| rank(points, key) <= i < points.len() ==> (#[trigger] points[i]).0 >= key,
    decreases points.len(),
{
    if points.len() > 0 {
        let rest = points.drop_last();
        assert(ascending(rest));
        lemma_rank(rest, key);
        assert forall|i: int| 0 <= i < rank(points, key) implies (#[trigger] points[i]).0 < key by {
            if points.last().0 < key {
                if i < points.len() - 1 {
                    assert(points[i].0 < points[points.len() - 1].0);
                }
            } else {
                assert(rest[i].0 < key);
            }
        }
        assert forall|i: int| rank(points, key) <= i < points.len() implies (#[trigger] points[i]).0
            >= key by {
            if i < points.len() - 1 {
                assert(rest[i].0 >= key);
            }
        }
    }
}

proof fn lemma_placed(points: Seq<(u64, Seq<char>)>, key: u64, node: Seq<char>)
    requires
        ascending(points),
    ensures
        ascending(placed(points, key, node)),
        placed(points, key, node).contains((key, node)),
        forall|k: u64, n: Seq<char>|
            k != key ==> (#[trigger] placed(points, key, node).contains((k, n)) <==> points.contains((k, n))),
        forall|n: Seq<char>| #[trigger] placed(points, key, node).contains((key, n)) ==> n == node,
{
    lemma_rank(points, key);
    let i = rank(points, key) as int;
    let after = placed(points, key, node);
    assert(after[i] == (key, node));
    assert forall|k: u64, n: Seq<char>| k != key implies (#[trigger] after.contains((k, n)) <==> points.contains(
        (k, n),
    )) by {
        if after.contains((k, n)) {
            let j = choose|j: int| 0 <= j < after.len() && after[j] == (k, n);
            if taken(points, key) {
                assert(points[j] == (k, n));
            } else if j < i {
                assert(points[j] == (k, n));
            } else {
                assert(points[j - 1] == (k, n));
            }
        }
        if points.contains((k, n)) {
            let j = choose|j: int| 0 <= j < points.len() && points[j] == (k, n);
            if taken(points, key) {
                assert(after[j] == (k, n));
            } else if j < i {
                assert(after[j] == (k, n));
            } else {
                assert(after[j + 1] == (k, n));
            }
        }
    }
    assert forall|n: Seq<char>| #[trigger] after.contains((key, n)) implies n == node by {
        let j = choose|j: int| 0 <= j < after.len() && after[j] == (key, n);
        if taken(points, key) {
            if j < i {
                assert(points[j].0 < key);
            } else if j > i {
                assert(points[i].0 < points[j].0);
            }
        } else if j < i {
            assert(points[j].0 < key);
        } else if j > i {
            assert(points[j - 1].0 >= key);
            assert(points[i].0 >= key && points[i].0 != key);
        }
    }
}

proof fn lemma_lifted(points: Seq<(u64, Seq<char>)>, key: u64)
    requires
        ascending(points),
    ensures
        ascending(lifted(points, key)),
        forall|k: u64, n: Seq<char>| #[trigger]
            lifted(points, key).contains((k, n)) <==> k != key && points.contains((k, n)),
{
    lemma_rank(points, key);
    let i = rank(points, key) as int;
    let after = lifted(points, key);
    assert forall|k: u64, n: Seq<char>| #[trigger] after.contains((k, n)) <==> k != key && points.contains(
        (k, n),
    ) by {
        if after.contains((k, n)) {
            let j = choose|j: int| 0 <= j < after.len() && after[j] == (k, n);
            if taken(points, key) && j >= i {
                assert(points[j + 1] == (k, n));
                assert(points[i].0 < points[j + 1].0);
            } else {
                assert(points[j] == (k, n));
                if j >= i {
                    assert(points[i].0 >= key);
                    assert(points[j].0 >= key);
                    if j > i {
                        assert(points[i].0 < points[j].0);
                    }
                }
            }
        }
        if k != key && points.contains((k, n)) {
            let j = choose|j: int| 0 <= j < points.len() && points[j] == (k, n);
            if taken(points, key) && j > i {
                assert(after[j - 1] == (k, n));
            } else {
                assert(after[j] == (k, n));
            }
        }
    }
}

proof fn lemma_placed_all(points: Seq<(u64, Seq<char>)>, keys: Seq<u64>, node: Seq<char>)
    requires
        ascending(points),
    ensures
        ascending(placed_all(points, keys, node)),
        forall|k: u64, n: Seq<char>| #[trigger]
            placed_all(points, keys, node).contains((k, n)) <==> (if keys.contains(k) {
                n == node
            } else {
                points.contains((k, n))
            }),
    decreases keys.len(),
{
    if keys.len() > 0 {
        let rest = keys.drop_last();
        lemma_placed_all(points, rest, node);
        lemma_placed(placed_all(points, rest, node), keys.last(), node);
        assert forall|k: u64, n: Seq<char>| #[trigger] placed_all(points, keys, node).contains((k, n))
            <==> (if keys.contains(k) {
            n == node
        } else {
            points.contains((k, n))
        }) by {
            if k == keys.last() {
                assert(keys[keys.len() - 1] == k);
            } else {
                assert(placed_all(points, keys, node).contains((k, n)) <==> placed_all(
                    points,
                    rest,
                    node,
                ).contains((k, n)));
                if rest.contains(k) {
                    let j = choose|j: int| 0 <= j < rest.len() && rest[j] == k;
                    assert(keys[j] == k);
                }
                if keys.contains(k) {
                    let j = choose|j: int| 0 <= j < keys.len() && keys[j] == k;
                    assert(rest[j] == k);
                }
            }
        }
    }
}

proof fn lemma_lifted_all(points: Seq<(u64, Seq<char>)>, keys: Seq<u64>)
    requires
        ascending(points),
    ensures
        ascending(lifted_all(points, keys)),
        forall|k: u64, n: Seq<char>| #[trigger]
            lifted_all(points, keys).contains((k, n)) <==> !keys.contains(k) && points.contains((k, n)),
    decreases keys.len(),
{
    if keys.len() > 0 {
        let rest = keys.drop_last();
        lemma_lifted_all(points, rest);
        lemma_lifted(lifted_all(points, rest), keys.last());
        assert forall|k: u64, n: Seq<char>| #[trigger] lifted_all(points, keys).contains((k, n))
            <==> !keys.contains(k) && points.contains((k, n)) by {
            assert(lifted_all(points, keys).contains((k, n)) <==> k != keys.last() && lifted_all(
                points,
                rest,
            ).contains((k, n)));
            if keys.contains(k) {
                let j = choose|j: int| 0 <= j < keys.len() && keys[j] == k;
                if j < rest.len() {
                    assert(rest[j] == k);
                }
            } else {
                if rest.contains(k) {
                    let j = choose|j: int| 0 <= j < rest.len() && rest[j] == k;
                    assert(keys[j] == k);
                }
                assert(k != keys.last()) by {
                    if k == keys.last() {
                        assert(keys[keys.len() - 1] == k);
                    }
                }
            }
        }
    }
}

// ---------------------------------------------------------------------------
// Laws
// ---------------------------------------------------------------------------

/// Whether every point belongs to a node of the ring, at one of its keys.
pub open spec fn sound(r: RingView) -> bool {
    &&& ascending(r.points)
    &&& forall|k: u64, n: Seq<char>| #[trigger]
        r.points.contains((k, n)) ==> r.nodes.contains(n) && vnode_hashes(n).contains(k)
}

/// A node that is added has its points on the ring, and other nodes keep
/// theirs or lose them to the new one: the ring stays sound.
pub proof fn adding_keeps_the_ring_sound(r: RingView, node: Seq<char>)
    requires
        sound(r),
    ensures
        sound(
            (RingView {
                nodes: r.nodes.push(node),
                points: placed_all(r.points, vnode_hashes(node), node),
            }),
        ),
{
    lemma_placed_all(r.points, vnode_hashes(node), node);
    let after = RingView {
        nodes: r.nodes.push(node),
        points: placed_all(r.points, vnode_hashes(node), node),
    };
    assert forall|k: u64, n: Seq<char>| #[trigger] after.points.contains((k, n)) implies after.nodes.contains(
        n,
    ) && vnode_hashes(n).contains(k) by {
        if n == node && vnode_hashes(node).contains(k) {
            assert(after.nodes[r.nodes.len() as int] == n);
        } else {
            assert(r.points.contains((k, n)));
            let j = choose|j: int| 0 <= j < r.nodes.len() && r.nodes[j] == n;
            assert(after.nodes[j] == n);
        }
    }
}

/// A node that is removed keeps no point: the ring stays sound.
pub proof fn removing_keeps_the_ring_sound(r: RingView, node: Seq<char>)
    requires
        sound(r),
    ensures
        ({
            let after = RingView {
                nodes: r.nodes.filter(other_node(node)),
                points: lifted_all(r.points, vnode_hashes(node)),
            };
            &&& sound(after)
            &&& !after.nodes.contains(node)
            &&& forall|k: u64| !(#[trigger] after.points.contains((k, node)))
        }),
{
    lemma_lifted_all(r.points, vnode_hashes(node));
    let after = RingView {
        nodes: r.nodes.filter(other_node(node)),
        points: lifted_all(r.points, vnode_hashes(node)),
    };
    lemma_without_node(r.nodes, node);
    assert forall|k: u64, n: Seq<char>| #[trigger] after.points.contains((k, n)) implies after.nodes.contains(
        n,
    ) && vnode_hashes(n).contains(k) by {
        assert(r.points.contains((k, n)));
        assert(n != node);
    }
    assert forall|k: u64| !(#[trigger] after.points.contains((k, node))) by {
        if after.points.contains((k, node)) {
            assert(r.points.contains((k, node)));
        }
    }
}

proof fn lemma_without_node(nodes: Seq<Seq<char>>, node: Seq<char>)
    ensures
        !nodes.filter(other_node(node)).contains(node),
        forall|n: Seq<char>|
            n != node && #[trigger] nodes.contains(n) ==> nodes.filter(other_node(node)).contains(n),
    decreases nodes.len(),
{
    reveal(Seq::filter);
    let after = nodes.filter(other_node(node));
    if nodes.len() > 0 {
        let rest = nodes.drop_last();
        let kept = rest.filter(other_node(node));
        lemma_without_node(rest, node);
        if after.contains(node) {
            let j = choose|j: int| 0 <= j < after.len() && after[j] == node;
            if j < kept.len() {
                assert(kept[j] == node);
            }
        }
        assert forall|n: Seq<char>| n != node && #[trigger] nodes.contains(n) implies after.contains(n) by {
            let j = choose|j: int| 0 <= j < nodes.len() && nodes[j] == n;
            if j < rest.len() {
                assert(rest[j] == n);
                assert(rest.contains(n));
                let i = choose|i: int| 0 <= i < kept.len() && kept[i] == n;
                assert(after[i] == n);
            } else {
                assert(after[kept.len() as int] == n);
            }
        }
    }
}

/// The replicas of a shard are different nodes, as many as asked for where the
/// points have so many.
pub proof fn replicas_are_different_nodes(names: Seq<Seq<char>>, limit: nat)
    ensures
        firsts(names, limit).no_duplicates(),
        firsts(names, limit).len() <= limit,
        forall|n: Seq<char>| #[trigger] firsts(names, limit).contains(n) ==> names.contains(n),
        firsts(names, limit).len() < limit ==> forall|n: Seq<char>|
            #[trigger] names.contains(n) ==> firsts(names, limit).contains(n),
    decreases names.len(),
{
    if names.len() > 0 {
        let rest = names.drop_last();
        let before = firsts(rest, limit);
        let after = firsts(names, limit);
        replicas_are_different_nodes(rest, limit);
        assert forall|n: Seq<char>| #[trigger] after.contains(n) implies names.contains(n) by {
            let j = choose|j: int| 0 <= j < after.len() && after[j] == n;
            if j < before.len() {
                assert(before[j] == n);
                assert(before.contains(n));
                let i = choose|i: int| 0 <= i < rest.len() && rest[i] == n;
                assert(names[i] == n);
            } else {
                assert(names[names.len() - 1] == n);
            }
        }
        if after.len() < limit {
            assert forall|n: Seq<char>| #[trigger] names.contains(n) implies after.contains(n) by {
                let i = choose|i: int| 0 <= i < names.len() && names[i] == n;
                if i < rest.len() {
                    assert(rest[i] == n);
                    assert(rest.contains(n));
                    assert(before.contains(n));
                    let j = choose|j: int| 0 <= j < before.len() && before[j] == n;
                    assert(after[j] == n);
                } else if before.contains(n) {
                    let j = choose|j: int| 0 <= j < before.len() && before[j] == n;
                    assert(after[j] == n);
                } else {
                    assert(after[before.len() as int] == n);
                }
            }
        }
    }
}

/// The replicas of a shard are nodes of the ring.
pub proof fn replicas_are_members(r: RingView, from: u64, limit: nat, node: Seq<char>)
    requires
        sound(r),
        firsts(clockwise(r.points, from), limit).contains(node),
    ensures
        r.nodes.contains(node),
{
    let names = clockwise(r.points, from);
    replicas_are_different_nodes(names, limit);
    lemma_rank(r.points, from);
    let start = rank(r.points, from) as int;
    let i = choose|i: int| 0 <= i < names.len() && names[i] == node;
    let at = if i < r.points.len() - start {
        start + i
    } else {
        i - (r.points.len() - start)
    };
    assert(r.points[at].1 == node);
    assert(r.points.contains((r.points[at].0, node)));
}

/// Asking for one more replica keeps the others.
pub proof fn more_replicas_extend_fewer(names: Seq<Seq<char>>, limit: nat)
    ensures
        firsts(names, limit) == firsts(names, limit + 1) || exists|n: Seq<char>|
            firsts(names, limit + 1) == #[trigger] firsts(names, limit).push(n),
        firsts(names, limit).len() < limit ==> firsts(names, limit) == firsts(names, limit + 1),
    decreases names.len(),
{
    if names.len() > 0 {
        let rest = names.drop_last();
        more_replicas_extend_fewer(rest, limit);
        replicas_are_different_nodes(rest, limit);
        let a = firsts(rest, limit);
        let b = firsts(rest, limit + 1);
        if a != b {
            let n = choose|n: Seq<char>| b == #[trigger] a.push(n);
            assert(firsts(names, limit) == a);
            assert(firsts(names, limit + 1) == b);
            assert(firsts(names, limit + 1) == firsts(names, limit).push(n));
        } else if a.len() >= limit {
            if !b.contains(names.last()) {
                assert(firsts(names, limit + 1) == firsts(names, limit).push(names.last()));
            }
        }
    }
}

/// Whether no key of a node is on the ring.
pub open spec fn fresh(r: RingView, node: Seq<char>) -> bool {
    forall|k: u64, n: Seq<char>| #[trigger]
        r.points.contains((k, n)) ==> !vnode_hashes(node).contains(k)
}

/// Ascending points with the same members are the same.
proof fn lemma_same_points(a: Seq<(u64, Seq<char>)>, b: Seq<(u64, Seq<char>)>)
    requires
        ascending(a),
        ascending(b),
        forall|p: (u64, Seq<char>)| #[trigger] a.contains(p) <==> b.contains(p),
    ensures
        a == b,
    decreases a.len(),
{
    if a.len() == 0 {
        if b.len() > 0 {
            assert(b.contains(b[0]));
            assert(a.contains(b[0]));
        }
        assert(a =~= b);
    } else {
        let p = a.last();
        assert(a[a.len() - 1] == p);
        assert(a.contains(p));
        assert(b.contains(p));
        let q = b.last();
        assert(b[b.len() - 1] == q);
        assert(b.contains(q));
        assert(a.contains(q));
        let i = choose|i: int| 0 <= i < b.len() && b[i] == p;
        let j = choose|j: int| 0 <= j < a.len() && a[j] == q;
        assert(p == q) by {
            if i < b.len() - 1 {
                assert(b[i].0 < b[b.len() - 1].0);
                if j < a.len() - 1 {
                    assert(a[j].0 < a[a.len() - 1].0);
                }
            }
        }
        let c = a.drop_last();
        let d = b.drop_last();
        assert(ascending(c) && ascending(d));
        assert forall|x: (u64, Seq<char>)| #[trigger] c.contains(x) <==> d.contains(x) by {
            if c.contains(x) {
                let k = choose|k: int| 0 <= k < c.len() && c[k] == x;
                assert(a[k] == x);
                assert(a[k].0 < a[a.len() - 1].0);
                assert(a.contains(x));
                let l = choose|l: int| 0 <= l < b.len() && b[l] == x;
                assert(d[l] == x);
            }
            if d.contains(x) {
                let k = choose|k: int| 0 <= k < d.len() && d[k] == x;
                assert(b[k] == x);
                assert(b[k].0 < b[b.len() - 1].0);
                assert(b.contains(x));
                assert(a.contains(x));
                let l = choose|l: int| 0 <= l < a.len() && a[l] == x;
                assert(c[l] == x);
            }
        }
        lemma_same_points(c, d);
        assert(a =~= c.push(p));
        assert(b =~= d.push(q));
    }
}

/// Adding a node whose keys are not on the ring and removing it again gives the
/// old ring back.
pub proof fn adding_and_removing_changes_nothing(r: RingView, node: Seq<char>)
    requires
        ascending(r.points),
        !r.nodes.contains(node),
        fresh(r, node),
    ensures
        removed(added(r, node), node) == r,
{
    let keys = vnode_hashes(node);
    let mid = placed_all(r.points, keys, node);
    let back = lifted_all(mid, keys);
    lemma_placed_all(r.points, keys, node);
    lemma_lifted_all(mid, keys);
    assert forall|p: (u64, Seq<char>)| #[trigger] back.contains(p) <==> r.points.contains(p) by {
        let (k, n) = p;
        assert(back.contains((k, n)) <==> !keys.contains(k) && mid.contains((k, n)));
        assert(mid.contains((k, n)) <==> (if keys.contains(k) {
            n == node
        } else {
            r.points.contains((k, n))
        }));
    }
    lemma_same_points(back, r.points);
    lemma_all_kept(r.nodes, node);
    reveal(Seq::filter);
    assert(r.nodes.push(node).drop_last() =~= r.nodes);
}

proof fn lemma_all_kept(nodes: Seq<Seq<char>>, node: Seq<char>)
    requires
        !nodes.contains(node),
    ensures
        nodes.filter(other_node(node)) == nodes,
    decreases nodes.len(),
{
    reveal(Seq::filter);
    if nodes.len() > 0 {
        let rest = nodes.drop_last();
        assert(nodes[nodes.len() - 1] == nodes.last());
        assert(!rest.contains(node)) by {
            if rest.contains(node) {
                let i = choose|i: int| 0 <= i < rest.len() && rest[i] == node;
                assert(nodes[i] == node);
            }
        }
        lemma_all_kept(rest, node);
        assert(rest.push(nodes.last()) =~= nodes);
    }
}

/// Whether a point is that of another node.
spec fn other_point(node: Seq<char>) -> spec_fn((u64, Seq<char>)) -> bool {
    |p: (u64, Seq<char>)| p.1 != node
}

/// The nodes of points.
spec fn nodes_of(points: Seq<(u64, Seq<char>)>) -> Seq<Seq<char>> {
    Seq::new(points.len(), |i: int| points[i].1)
}

proof fn lemma_nodes_filtered(points: Seq<(u64, Seq<char>)>, node: Seq<char>)
    ensures
        nodes_of(points).filter(other_node(node)) == nodes_of(points.filter(other_point(node))),
    decreases points.len(),
{
    reveal(Seq::filter);
    if points.len() > 0 {
        let rest = points.drop_last();
        lemma_nodes_filtered(rest, node);
        assert(nodes_of(points).drop_last() =~= nodes_of(rest));
        let kept = rest.filter(other_point(node));
        assert(nodes_of(kept.push(points.last())) =~= nodes_of(kept).push(points.last().1));
    }
    assert(nodes_of(points).filter(other_node(node)) =~= nodes_of(points.filter(other_point(node))));
}

/// Points without those of a node stay ascending, and lose only those.
proof fn lemma_points_filtered(points: Seq<(u64, Seq<char>)>, node: Seq<char>)
    requires
        ascending(points),
    ensures
        ascending(points.filter(other_point(node))),
        forall|p: (u64, Seq<char>)| #[trigger]
            points.filter(other_point(node)).contains(p) <==> points.contains(p) && p.1 != node,
    decreases points.len(),
{
    reveal(Seq::filter);
    let after = points.filter(other_point(node));
    if points.len() > 0 {
        let rest = points.drop_last();
        let kept = rest.filter(other_point(node));
        let last = points.last();
        assert(points[points.len() - 1] == last);
        assert(ascending(rest));
        lemma_points_filtered(rest, node);
        assert forall|p: (u64, Seq<char>)| #[trigger] after.contains(p) <==> points.contains(p) && p.1 != node by {
            if after.contains(p) {
                let i = choose|i: int| 0 <= i < after.len() && after[i] == p;
                if i < kept.len() {
                    assert(kept[i] == p);
                    assert(kept.contains(p));
                    let j = choose|j: int| 0 <= j < rest.len() && rest[j] == p;
                    assert(points[j] == p);
                }
            }
            if points.contains(p) && p.1 != node {
                let j = choose|j: int| 0 <= j < points.len() && points[j] == p;
                if j < rest.len() {
                    assert(rest[j] == p);
                    assert(kept.contains(p));
                    let i = choose|i: int| 0 <= i < kept.len() && kept[i] == p;
                    assert(after[i] == p);
                } else {
                    assert(after[kept.len() as int] == p);
                }
            }
        }
        assert forall|i: int, j: int| 0 <= i < j < after.len() implies (#[trigger] after[i]).0 < (
        #[trigger] after[j]).0 by {
            if j < kept.len() {
                assert(kept[i].0 < kept[j].0);
            } else {
                assert(kept.contains(kept[i]));
                let k = choose|k: int| 0 <= k < rest.len() && rest[k] == kept[i];
                assert(points[k].0 < points[points.len() - 1].0);
            }
        }
    }
}

/// Without the points of a new node, a walk meets what it met before.
proof fn lemma_walk_without(r: RingView, node: Seq<char>, from: u64)
    requires
        sound(r),
        !r.nodes.contains(node),
        fresh(r, node),
    ensures
        clockwise(placed_all(r.points, vnode_hashes(node), node), from).filter(other_node(node))
            == clockwise(r.points, from),
{
    let keys = vnode_hashes(node);
    let old = r.points;
    let new = placed_all(old, keys, node);
    lemma_placed_all(old, keys, node);
    lemma_rank(old, from);
    lemma_rank(new, from);
    let a = rank(old, from) as int;
    let b = rank(new, from) as int;
    assert forall|p: (u64, Seq<char>)| #[trigger] old.contains(p) <==> new.contains(p) && p.1 != node by {
        let (k, n) = p;
        assert(new.contains((k, n)) <==> (if keys.contains(k) {
            n == node
        } else {
            old.contains((k, n))
        }));
        if old.contains((k, n)) {
            assert(r.nodes.contains(n));
        }
    }
    lemma_points_filtered(new, node);
    lemma_same_points(new.filter(other_point(node)), old);
    let old_tail = old.skip(a);
    let new_tail = new.skip(b);
    assert(ascending(old_tail));
    assert(ascending(new_tail));
    lemma_points_filtered(new_tail, node);
    let kept = new_tail.filter(other_point(node));
    assert forall|p: (u64, Seq<char>)| #[trigger] kept.contains(p) <==> old_tail.contains(p) by {
        assert(kept.contains(p) <==> new_tail.contains(p) && p.1 != node);
        if kept.contains(p) {
            let i = choose|i: int| 0 <= i < new_tail.len() && new_tail[i] == p;
            assert(new[b + i] == p);
            assert(new.contains(p));
            assert(old.contains(p));
            let j = choose|j: int| 0 <= j < old.len() && old[j] == p;
            assert(j >= a);
            assert(old_tail[j - a] == p);
        }
        if old_tail.contains(p) {
            let i = choose|i: int| 0 <= i < old_tail.len() && old_tail[i] == p;
            assert(old[a + i] == p);
            assert(old.contains(p));
            assert(new.contains(p));
            let j = choose|j: int| 0 <= j < new.len() && new[j] == p;
            assert(j >= b);
            assert(new_tail[j - b] == p);
        }
    }
    lemma_same_points(kept, old_tail);
    let order = new_tail + new;
    Seq::filter_distributes_over_add(new_tail, new, other_point(node));
    assert(order.filter(other_point(node)) == old_tail + old);
    lemma_nodes_filtered(order, node);
    assert(clockwise(new, from) =~= nodes_of(order));
    assert(clockwise(old, from) =~= nodes_of(old_tail + old));
}

/// What is met first with a node among the names, against what is met without.
proof fn lemma_firsts_without(names: Seq<Seq<char>>, node: Seq<char>, limit: nat)
    requires
        limit > 0,
    ensures
        ({
            let met = firsts(names, limit);
            let others = names.filter(other_node(node));
            if met.contains(node) {
                met.filter(other_node(node)) == firsts(others, (limit - 1) as nat) && met.filter(
                    other_node(node),
                ).len() == met.len() - 1
            } else {
                met == firsts(others, limit)
            }
        }),
    decreases names.len(),
{
    reveal(Seq::filter);
    let less = (limit - 1) as nat;
    if names.len() > 0 {
        let rest = names.drop_last();
        let x = names.last();
        lemma_firsts_without(rest, node, limit);
        replicas_are_different_nodes(rest, limit);
        let met = firsts(rest, limit);
        let after = firsts(names, limit);
        let others = rest.filter(other_node(node));
        if x != node {
            assert(others.push(x).drop_last() =~= others);
            if met.contains(node) {
                let kept = met.filter(other_node(node));
                assert(kept.contains(x) <==> met.contains(x)) by {
                    lemma_without_node(met, node);
                    if kept.contains(x) {
                        let i = choose|i: int| 0 <= i < kept.len() && kept[i] == x;
                        lemma_kept_was_there(met, node, i);
                    }
                }
                let j = choose|j: int| 0 <= j < met.len() && met[j] == node;
                assert(after.contains(node)) by {
                    assert(after[j] == node);
                }
                if after != met {
                    assert(met.push(x).drop_last() =~= met);
                    assert(after.filter(other_node(node)) == kept.push(x));
                }
            } else {
                if after.contains(node) {
                    let i = choose|i: int| 0 <= i < after.len() && after[i] == node;
                    if i < met.len() {
                        assert(met[i] == node);
                    }
                    assert(false);
                }
            }
        } else {
            if met.contains(node) {
                assert(after == met);
            } else if met.len() < limit {
                assert(after == met.push(node));
                assert(after[met.len() as int] == node);
                assert(met.push(node).drop_last() =~= met);
                lemma_all_kept(met, node);
                assert(after.filter(other_node(node)) == met);
                replicas_are_different_nodes(others, less);
                more_replicas_extend_fewer(others, less);
                assert(less + 1 == limit);
                let a = firsts(others, less);
                let b = firsts(others, limit);
                if a != b {
                    let n = choose|n: Seq<char>| b == #[trigger] a.push(n);
                    assert(b.len() == a.len() + 1);
                    assert(false);
                }
            }
        }
    }
}

proof fn lemma_kept_was_there(nodes: Seq<Seq<char>>, node: Seq<char>, i: int)
    requires
        0 <= i < nodes.filter(other_node(node)).len(),
    ensures
        nodes.contains(nodes.filter(other_node(node))[i]),
    decreases nodes.len(),
{
    reveal(Seq::filter);
    let rest = nodes.drop_last();
    let kept = rest.filter(other_node(node));
    let x = nodes.filter(other_node(node))[i];
    if i < kept.len() {
        lemma_kept_was_there(rest, node, i);
        let j = choose|j: int| 0 <= j < rest.len() && rest[j] == kept[i];
        assert(nodes[j] == x);
    } else {
        assert(nodes[nodes.len() - 1] == x);
    }
}

/// A new node whose keys are not on the ring displaces at most one replica of a
/// shard and reorders none: without it, the replicas are those from before, but
/// perhaps the last.
pub proof fn a_new_node_displaces_one_replica(r: RingView, node: Seq<char>, shard: u64, rf: nat)
    requires
        sound(r),
        !r.nodes.contains(node),
        fresh(r, node),
    ensures
        ({
            let before = replicas(r, shard, rf);
            let after = replicas(added(r, node), shard, rf).filter(other_node(node));
            before.len() - 1 <= after.len() <= before.len() && after == before.take(after.len() as int)
        }),
{
    reveal(Seq::filter);
    let before = replicas(r, shard, rf);
    let from = shard_hash(shard);
    let new = placed_all(r.points, vnode_hashes(node), node);
    let names = clockwise(new, from);
    let after = replicas(added(r, node), shard, rf).filter(other_node(node));
    if rf == 0 {
        assert(after =~= before.take(0));
    } else {
        lemma_walk_without(r, node, from);
        lemma_firsts_without(names, node, rf);
        let met = firsts(names, rf);
        let others = clockwise(r.points, from);
        if r.nodes.len() == 0 {
            assert(r.points.len() == 0) by {
                if r.points.len() > 0 {
                    assert(r.points.contains((r.points[0].0, r.points[0].1)));
                    assert(r.nodes.contains(r.points[0].1));
                }
            }
            assert(others =~= Seq::empty());
        }
        assert(before =~= firsts(others, rf));
        if met.contains(node) {
            let less = (rf - 1) as nat;
            more_replicas_extend_fewer(others, less);
            assert(less + 1 == rf);
            if firsts(others, less) != firsts(others, rf) {
                let n = choose|n: Seq<char>| firsts(others, rf) == #[trigger] firsts(others, less).push(n);
                assert(before.take(after.len() as int) =~= after);
            } else {
                assert(before.take(after.len() as int) =~= after);
            }
        } else {
            lemma_all_kept(met, node);
            assert(before.take(after.len() as int) =~= after);
        }
    }
}

/// A change of a ring.
pub enum RingChange {
    Add(Seq<char>),
    Remove(Seq<char>),
}

impl RingChange {
    /// The node that is named.
    pub open spec fn node(self) -> Seq<char> {
        match self {
            RingChange::Add(n) => n,
            RingChange::Remove(n) => n,
        }
    }
}

/// The ring after changes of the empty one.
pub open spec fn ring_after(changes: Seq<RingChange>) -> RingView
    decreases changes.len(),
{
    if changes.len() == 0 {
        RingView { nodes: Seq::empty(), points: Seq::empty() }
    } else {
        let before = ring_after(changes.drop_last());
        match changes.last() {
            RingChange::Add(n) => added(before, n),
            RingChange::Remove(n) => removed(before, n),
        }
    }
}

/// Whether two nodes share no key.
pub open spec fn keys_apart(a: Seq<char>, b: Seq<char>) -> bool {
    forall|k: u64| #[trigger] vnode_hashes(a).contains(k) ==> !vnode_hashes(b).contains(k)
}

/// Whether every node has all its points on the ring.
pub open spec fn complete(r: RingView) -> bool {
    &&& sound(r)
    &&& r.nodes.no_duplicates()
    &&& forall|n: Seq<char>, k: u64|
        #![trigger r.nodes.contains(n), vnode_hashes(n).contains(k)]
        r.nodes.contains(n) && vnode_hashes(n).contains(k) ==> r.points.contains((k, n))
}

proof fn lemma_stays_complete(changes: Seq<RingChange>)
    requires
        forall|i: int, j: int|
            0 <= i < changes.len() && 0 <= j < changes.len() && (#[trigger] changes[i]).node() != (
            #[trigger] changes[j]).node() ==> keys_apart(changes[i].node(), changes[j].node()),
    ensures
        complete(ring_after(changes)),
        forall|n: Seq<char>| #[trigger]
            ring_after(changes).nodes.contains(n) ==> exists|i: int|
                0 <= i < changes.len() && (#[trigger] changes[i]).node() == n,
    decreases changes.len(),
{
    if changes.len() > 0 {
        let rest = changes.drop_last();
        let before = ring_after(rest);
        let after = ring_after(changes);
        let node = changes.last().node();
        let top = changes.len() - 1;
        assert(changes[top] == changes.last());
        assert forall|i: int, j: int|
            0 <= i < rest.len() && 0 <= j < rest.len() && (#[trigger] rest[i]).node() != (
            #[trigger] rest[j]).node() implies keys_apart(rest[i].node(), rest[j].node()) by {
            assert(rest[i] == changes[i] && rest[j] == changes[j]);
        }
        lemma_stays_complete(rest);
        assert forall|n: Seq<char>| before.nodes.contains(n) && n != node implies #[trigger] keys_apart(n, node) by {
            let i = choose|i: int| 0 <= i < rest.len() && (#[trigger] rest[i]).node() == n;
            assert(changes[i].node() == n);
            assert(changes[top].node() == node);
        }
        assert forall|n: Seq<char>| before.nodes.contains(n) implies exists|i: int|
            0 <= i < changes.len() && (#[trigger] changes[i]).node() == n by {
            let i = choose|i: int| 0 <= i < rest.len() && (#[trigger] rest[i]).node() == n;
            assert(changes[i].node() == n);
        }
        let keys = vnode_hashes(node);
        match changes.last() {
            RingChange::Add(_) => {
                if !before.nodes.contains(node) {
                    adding_keeps_the_ring_sound(before, node);
                    lemma_placed_all(before.points, keys, node);
                    assert forall|n: Seq<char>| #[trigger] after.nodes.contains(n) implies n == node
                        || before.nodes.contains(n) by {
                        let i = choose|i: int| 0 <= i < after.nodes.len() && after.nodes[i] == n;
                        if i < before.nodes.len() {
                            assert(before.nodes[i] == n);
                        }
                    }
                    assert forall|n: Seq<char>, k: u64|
                        #![trigger after.nodes.contains(n), vnode_hashes(n).contains(k)]
                        after.nodes.contains(n) && vnode_hashes(n).contains(k) implies after.points.contains(
                        (k, n),
                    ) by {
                        if n != node {
                            assert(keys_apart(n, node));
                            assert(!keys.contains(k));
                            assert(before.points.contains((k, n)));
                        }
                    }
                }
            },
            RingChange::Remove(_) => {
                removing_keeps_the_ring_sound(before, node);
                lemma_lifted_all(before.points, keys);
                lemma_distinct_kept(before.nodes, node);
                assert forall|n: Seq<char>| #[trigger] after.nodes.contains(n) implies n != node
                    && before.nodes.contains(n) by {
                    let i = choose|i: int| 0 <= i < after.nodes.len() && after.nodes[i] == n;
                    lemma_kept_was_there(before.nodes, node, i);
                }
                assert forall|n: Seq<char>, k: u64|
                    #![trigger after.nodes.contains(n), vnode_hashes(n).contains(k)]
                    after.nodes.contains(n) && vnode_hashes(n).contains(k) implies after.points.contains(
                    (k, n),
                ) by {
                    assert(keys_apart(n, node));
                    assert(!keys.contains(k));
                    assert(before.points.contains((k, n)));
                }
            },
        }
    }
}

proof fn lemma_distinct_kept(nodes: Seq<Seq<char>>, node: Seq<char>)
    requires
        nodes.no_duplicates(),
    ensures
        nodes.filter(other_node(node)).no_duplicates(),
    decreases nodes.len(),
{
    reveal(Seq::filter);
    if nodes.len() > 0 {
        let rest = nodes.drop_last();
        let kept = rest.filter(other_node(node));
        lemma_distinct_kept(rest, node);
        assert forall|i: int| 0 <= i < kept.len() implies #[trigger] kept[i] != nodes.last() by {
            lemma_kept_was_there(rest, node, i);
            let j = choose|j: int| 0 <= j < rest.len() && rest[j] == kept[i];
            assert(nodes[j] != nodes[nodes.len() - 1]);
        }
    }
}

/// On a ring that was made by adding and removing nodes which share no key, a
/// shard has as many replicas as asked for, or as many as there are nodes, all
/// different and all of the ring.
pub proof fn replicas_are_as_many_as_can_be(changes: Seq<RingChange>, shard: u64, rf: nat)
    requires
        forall|i: int, j: int|
            0 <= i < changes.len() && 0 <= j < changes.len() && (#[trigger] changes[i]).node() != (
            #[trigger] changes[j]).node() ==> keys_apart(changes[i].node(), changes[j].node()),
    ensures
        ({
            let r = ring_after(changes);
            let given = replicas(r, shard, rf);
            &&& given.no_duplicates()
            &&& forall|n: Seq<char>| #[trigger] given.contains(n) ==> r.nodes.contains(n)
            &&& given.len() == if rf < r.nodes.len() {
                rf
            } else {
                r.nodes.len()
            }
        }),
{
    broadcast use vstd::seq_lib::seq_to_set_is_finite;

    let r = ring_after(changes);
    let given = replicas(r, shard, rf);
    let from = shard_hash(shard);
    let names = clockwise(r.points, from);
    lemma_stays_complete(changes);
    if r.nodes.len() > 0 && rf > 0 {
        replicas_are_different_nodes(names, rf);
        assert forall|n: Seq<char>| #[trigger] given.contains(n) implies r.nodes.contains(n) by {
            replicas_are_members(r, from, rf, n);
        }
        lemma_rank(r.points, from);
        assert forall|n: Seq<char>| #[trigger] r.nodes.contains(n) implies names.contains(n) by {
            let k = vnode_hash(n, 0);
            assert(vnode_hashes(n)[0] == k);
            assert(vnode_hashes(n).contains(k));
            assert(r.points.contains((k, n)));
            let i = choose|i: int| 0 <= i < r.points.len() && r.points[i] == (k, n);
            let tail = r.points.len() - rank(r.points, from);
            assert(names[tail + i] == n);
        }
        given.unique_seq_to_set();
        r.nodes.unique_seq_to_set();
        assert(given.to_set().subset_of(r.nodes.to_set()));
        vstd::set_lib::lemma_len_subset(given.to_set(), r.nodes.to_set());
        if given.len() < rf {
            assert(r.nodes.to_set().subset_of(given.to_set())) by {
                assert forall|n: Seq<char>| r.nodes.to_set().contains(n) implies given.to_set().contains(n) by {
                    assert(r.nodes.contains(n));
                    assert(names.contains(n));
                    assert(given.contains(n));
                }
            }
            vstd::set_lib::lemma_len_subset(r.nodes.to_set(), given.to_set());
        }
    }
}

/// The walk of a key starts at the first point that does not lie before it, or
/// at the ring's first point where all lie before it, and takes the points in
/// their order, round the ring.
pub proof fn walks_start_at_the_next_point(points: Seq<(u64, Seq<char>)>, from: u64, i: int, j: int)
    requires
        ascending(points),
        points.len() > 0,
        0 <= i <= points.len(),
        forall|k: int| 0 <= k < i ==> (#[trigger] points[k]).0 < from,
        i < points.len() ==> points[i].0 >= from,
        0 <= j < points.len(),
    ensures
        clockwise(points, from).len() >= points.len(),
        clockwise(points, from)[j] == (if i + j < points.len() {
            points[i + j].1
        } else {
            points[i + j - points.len()].1
        }),
        forall|n: Seq<char>| #[trigger]
            clockwise(points, from).contains(n) ==> exists|k: int|
                0 <= k < points.len() && (#[trigger] points[k]).1 == n,
{
    lemma_rank(points, from);
    let r = rank(points, from) as int;
    assert(r == i) by {
        if r < i {
            assert(points[r].0 < from);
        }
        if i < r {
            assert(points[i].0 < from);
        }
    }
    let order = points.skip(r) + points;
    let walk = clockwise(points, from);
    assert forall|n: Seq<char>| #[trigger] walk.contains(n) implies exists|k: int|
        0 <= k < points.len() && (#[trigger] points[k]).1 == n by {
        let x = choose|x: int| 0 <= x < walk.len() && walk[x] == n;
        if x < points.len() - r {
            assert(points[r + x].1 == n);
        } else {
            assert(points[x - (points.len() - r)].1 == n);
        }
    }
}

/// Whether a name is met on a walk before another one is.
pub open spec fn met_before(names: Seq<Seq<char>>, a: Seq<char>, b: Seq<char>) -> bool {
    exists|x: int|
        0 <= x < names.len() && #[trigger] names[x] == a && forall|y: int|
            0 <= y <= x ==> #[trigger] names[y] != b
}

/// Replicas come in the order in which the walk meets them, the first one of
/// the walk before all others.
pub proof fn replicas_are_met_in_order(names: Seq<Seq<char>>, limit: nat)
    ensures
        forall|p: int, q: int|
            0 <= p < q < firsts(names, limit).len() ==> met_before(
                names,
                #[trigger] firsts(names, limit)[p],
                #[trigger] firsts(names, limit)[q],
            ),
        names.len() > 0 && limit > 0 ==> firsts(names, limit).len() > 0 && firsts(names, limit)[0] == names[0],
        limit == 0 ==> firsts(names, limit).len() == 0,
    decreases names.len(),
{
    if names.len() > 0 {
        let rest = names.drop_last();
        let before = firsts(rest, limit);
        let after = firsts(names, limit);
        replicas_are_met_in_order(rest, limit);
        replicas_are_different_nodes(rest, limit);
        assert forall|p: int, q: int| 0 <= p < q < after.len() implies met_before(
            names,
            #[trigger] after[p],
            #[trigger] after[q],
        ) by {
            assert(after[p] == before[p]);
            if q < before.len() {
                assert(met_before(rest, before[p], before[q]));
                let x = choose|x: int|
                    0 <= x < rest.len() && #[trigger] rest[x] == before[p] && forall|y: int|
                        0 <= y <= x ==> #[trigger] rest[y] != before[q];
                assert(names[x] == before[p]);
                assert forall|y: int| 0 <= y <= x implies #[trigger] names[y] != after[q] by {
                    assert(rest[y] == names[y]);
                }
            } else {
                assert(before.contains(before[p]));
                assert(rest.contains(before[p]));
                let x = choose|x: int| 0 <= x < rest.len() && rest[x] == before[p];
                assert(names[x] == before[p]);
                assert forall|y: int| 0 <= y <= x implies #[trigger] names[y] != after[q] by {
                    assert(rest[y] == names[y]);
                    assert(rest.contains(rest[y]));
                    assert(before.contains(rest[y]));
                }
            }
        }
        if rest.len() > 0 && limit > 0 {
            assert(after[0] == before[0]);
        }
    }
}

/// The first replica of a shard is the node of the first point that does not
/// lie before the shard's key, or of the ring's first point where all lie
/// before it.
pub proof fn the_next_node_holds_the_shard(r: RingView, shard: u64, rf: nat, i: int)
    requires
        ascending(r.points),
        r.nodes.len() > 0,
        rf > 0,
        r.points.len() > 0,
        0 <= i <= r.points.len(),
        forall|k: int| 0 <= k < i ==> (#[trigger] r.points[k]).0 < hashing::slice_hash(spec_u64_to_le_bytes(shard)),
        i < r.points.len() ==> r.points[i].0 >= hashing::slice_hash(spec_u64_to_le_bytes(shard)),
    ensures
        replicas(r, shard, rf).len() > 0,
        replicas(r, shard, rf).len() <= rf,
        replicas(r, shard, rf)[0] == (if i < r.points.len() {
            r.points[i].1
        } else {
            r.points[0].1
        }),
{
    let from = shard_hash(shard);
    walks_start_at_the_next_point(r.points, from, i, 0);
    replicas_are_met_in_order(clockwise(r.points, from), rf);
    replicas_are_different_nodes(clockwise(r.points, from), rf);
}

/// A ring without nodes has no replicas to offer.
pub proof fn empty_rings_hold_nothing(r: RingView, shard: u64, rf: nat)
    requires
        r.nodes.len() == 0 || rf == 0,
    ensures
        replicas(r, shard, rf).len() == 0,
{
}

/// A key that a node has on the ring: one of the hashes of its name with a
/// number from 0 to 127 behind a colon.
pub open spec fn is_key_of(k: u64, node: Seq<char>) -> bool {
    exists|v: nat|
        v < 128 && k == hashing::slice_hash(encode_utf8(node + ":"@ + #[trigger] text::decimal_text(v)))
}

/// Adding a node puts it at its own keys and leaves every other point; nobody
/// leaves the ring.
pub proof fn added_nodes_get_their_own_keys(r: RingView, node: Seq<char>, k: u64, n: Seq<char>)
    requires
        ascending(r.points),
    ensures
        added(r, node).nodes.contains(n) <==> r.nodes.contains(n) || n == node,
        r.nodes.contains(node) ==> added(r, node) == r,
        !r.nodes.contains(node) && is_key_of(k, node) ==> (added(r, node).points.contains((k, n)) <==> n == node),
        !r.nodes.contains(node) && !is_key_of(k, node) ==> (added(r, node).points.contains((k, n))
            <==> r.points.contains((k, n))),
{
    lemma_own_keys(node, k);
    lemma_placed_all(r.points, vnode_hashes(node), node);
    let more = r.nodes.push(node);
    assert(more[r.nodes.len() as int] == node);
    if r.nodes.contains(n) {
        let j = choose|j: int| 0 <= j < r.nodes.len() && r.nodes[j] == n;
        assert(more[j] == n);
    }
    if more.contains(n) && n != node {
        let j = choose|j: int| 0 <= j < more.len() && more[j] == n;
        assert(r.nodes[j] == n);
    }
}

/// Removing a node takes away the points at its keys and leaves every other
/// one; all other nodes stay on the ring.
pub proof fn removed_nodes_give_up_their_keys(r: RingView, node: Seq<char>, k: u64, n: Seq<char>)
    requires
        ascending(r.points),
    ensures
        removed(r, node).nodes.contains(n) <==> r.nodes.contains(n) && n != node,
        is_key_of(k, node) ==> !removed(r, node).points.contains((k, n)),
        !is_key_of(k, node) ==> (removed(r, node).points.contains((k, n)) <==> r.points.contains((k, n))),
{
    lemma_own_keys(node, k);
    lemma_lifted_all(r.points, vnode_hashes(node));
    lemma_without_node(r.nodes, node);
    let kept = r.nodes.filter(other_node(node));
    if kept.contains(n) {
        let j = choose|j: int| 0 <= j < kept.len() && kept[j] == n;
        lemma_kept_was_there(r.nodes, node, j);
    }
}

proof fn lemma_own_keys(node: Seq<char>, k: u64)
    ensures
        vnode_hashes(node).contains(k) <==> is_key_of(k, node),
{
    let keys = vnode_hashes(node);
    if keys.contains(k) {
        let v = choose|v: int| 0 <= v < keys.len() && keys[v] == k;
        assert(k == hashing::slice_hash(encode_utf8(node + ":"@ + text::decimal_text(v as nat))));
    }
    if is_key_of(k, node) {
        let v = choose|v: nat|
            v < 128 && k == hashing::slice_hash(encode_utf8(node + ":"@ + #[trigger] text::decimal_text(v)));
        assert(keys[v as int] == k);
    }
}

} // verus!
