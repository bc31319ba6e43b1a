//! A node of a Chord ring: who owns a key, and whom to ask for it.

use vstd::arithmetic::power2::*;
use vstd::prelude::*;
use vstd::string::*;
use vstd::utf8::*;

use crate::hashing;
use crate::hashing::{sip_hash, sip_hash_tagged};
use crate::peer_state::{NodeInfo, NodeView};
use crate::text;
use crate::text::decimal_wide;
use crate::types;
use crate::types::clone_text;

verus! {

/// A key of the ring.
pub type ChordId = u128;

/// Number of fingers.
pub const M: usize = 128;

/// Number of successors that a node keeps.
pub const R: usize = 16;

/// The key that bytes stand for.
pub open spec fn chord_key(data: Seq<u8>) -> ChordId {
    (hashing::tagged_hash(data, 1) * 0x1_0000_0000_0000_0000int + hashing::slice_hash(data)) as u128
}

/// The key that bytes stand for: two hashes, one above the other.
pub fn hash_to_chord_id(data: &[u8]) -> (r: ChordId)
    ensures
        r == chord_key(data@),
{
    let low: u128 = sip_hash(data) as u128;
    let high: u128 = sip_hash_tagged(data, 1) as u128;
    assert((high << 64u128) | low == high * 0x1_0000_0000_0000_0000 + low) by (bit_vector)
        requires
            low <= 0xffff_ffff_ffff_ffff,
            high <= 0xffff_ffff_ffff_ffff,
    ;
    (high << 64u128) | low
}

/// Whether a key lies between two keys of the ring, going up. Where the way
/// passes the ring's end, both ends of it count.
pub open spec fn lies_between(id: ChordId, a: ChordId, b: ChordId, inclusive_a: bool, inclusive_b: bool) -> bool {
    if a == b {
        true
    } else if a < b {
        (a < id || (inclusive_a && id == a)) && (id < b || (inclusive_b && id == b))
    } else {
        id >= a || id <= b
    }
}

/// Whether a key lies between two keys of the ring, going up.
pub fn between(id: ChordId, a: ChordId, b: ChordId, inclusive_a: bool, inclusive_b: bool) -> (r: bool)
    ensures
        r == lies_between(id, a, b, inclusive_a, inclusive_b),
{
    if a == b {
        return true;
    }
    if a < b {
        let left: bool = if inclusive_a {
            id >= a
        } else {
            id > a
        };
        let right: bool = if inclusive_b {
            id <= b
        } else {
            id < b
        };
        left && right
    } else {
        id >= a || id <= b
    }
}

/// The key a number of steps up the ring.
pub open spec fn stepped(id: ChordId, step: u128) -> ChordId {
    if id + step <= u128::MAX {
        (id + step) as u128
    } else {
        (id + step - u128::MAX - 1) as u128
    }
}

/// The key a number of steps up the ring.
pub fn advance(id: ChordId, step: u128) -> (r: ChordId)
    ensures
        r == stepped(id, step),
{
    id.wrapping_add(step)
}

/// An entry of a node's finger table: the first node from a key on.
#[derive(Debug)]
pub struct FingerEntry {
    pub start: ChordId,
    pub node: Option<String>,
    pub node_address: Option<String>,
}

/// A finger as a mathematical value.
pub struct FingerView {
    pub start: ChordId,
    pub node: Option<Seq<char>>,
    pub node_address: Option<Seq<char>>,
}

impl View for FingerEntry {
    type V = FingerView;

    open spec fn view(&self) -> FingerView {
        FingerView {
            start: self.start,
            node: types::text_opt(self.node),
            node_address: types::text_opt(self.node_address),
        }
    }
}

impl FingerView {
    /// The node and its address, if both are known.
    pub open spec fn target(self) -> Option<(Seq<char>, Seq<char>)> {
        if self.node is Some && self.node_address is Some {
            Some((self.node->0, self.node_address->0))
        } else {
            None
        }
    }
}

/// Fingers as mathematical values.
pub open spec fn finger_views(f: Seq<FingerEntry>) -> Seq<FingerView> {
    Seq::new(f.len(), |i: int| f[i]@)
}

/// A node and its address as mathematical values.
pub open spec fn target_opt(t: Option<(String, String)>) -> Option<(Seq<char>, Seq<char>)> {
    match t {
        Some(t) => Some((t.0@, t.1@)),
        None => None,
    }
}

/// The key of a node.
pub open spec fn key_of(node: Seq<char>) -> ChordId {
    chord_key(encode_utf8(node))
}

/// The key that a finger starts at.
pub open spec fn finger_start(id: ChordId, i: nat) -> ChordId {
    stepped(id, pow2(i) as u128)
}

/// A node of the ring.
pub struct ChordNode {
    id: ChordId,
    address: String,
    predecessor: Option<String>,
    predecessor_address: Option<String>,
    finger: Vec<FingerEntry>,
    successor_list: Vec<String>,
    successor_addresses: Vec<String>,
    next_finger: u32,
}

/// A node of the ring as a mathematical value.
pub struct ChordView {
    pub id: ChordId,
    pub address: Seq<char>,
    pub predecessor: Option<Seq<char>>,
    pub predecessor_address: Option<Seq<char>>,
    pub finger: Seq<FingerView>,
    pub successor_list: Seq<Seq<char>>,
    pub successor_addresses: Seq<Seq<char>>,
    pub next_finger: nat,
}

impl View for ChordNode {
    type V = ChordView;

    closed spec fn view(&self) -> ChordView {
        ChordView {
            id: self.id,
            address: self.address@,
            predecessor: types::text_opt(self.predecessor),
            predecessor_address: types::text_opt(self.predecessor_address),
            finger: finger_views(self.finger@),
            successor_list: text::views(self.successor_list@),
            successor_addresses: text::views(self.successor_addresses@),
            next_finger: self.next_finger as nat,
        }
    }
}

impl ChordView {
    /// Whether the node owns a key: it lies above the predecessor, up to the
    /// node. A node without a predecessor owns all.
    pub open spec fn owns(self, id: ChordId) -> bool {
        match self.predecessor {
            Some(p) => lies_between(id, key_of(p), self.id, false, true),
            None => true,
        }
    }

    /// The first finger.
    pub open spec fn successor(self) -> Option<(Seq<char>, Seq<char>)> {
        self.finger[0].target()
    }

    /// The view with a first finger.
    pub open spec fn with_successor(self, node: Seq<char>, address: Seq<char>) -> ChordView {
        ChordView {
            finger: self.finger.update(
                0,
                FingerView {
                    start: self.finger[0].start,
                    node: Some(node),
                    node_address: Some(address),
                },
            ),
            ..self
        }
    }

    /// The view with a predecessor.
    pub open spec fn with_predecessor(self, node: Seq<char>, address: Seq<char>) -> ChordView {
        ChordView { predecessor: Some(node), predecessor_address: Some(address), ..self }
    }

    /// Whether a finger leads to a node before a key.
    pub open spec fn precedes(self, f: FingerView, id: ChordId) -> bool {
        f.target() is Some && lies_between(key_of(f.node->0), self.id, id, false, false)
    }

    /// The last of some fingers that leads to a node before a key.
    pub open spec fn closest_among(self, fingers: Seq<FingerView>, id: ChordId) -> Option<
        (Seq<char>, Seq<char>),
    >
        decreases fingers.len(),
    {
        if fingers.len() == 0 {
            None
        } else if self.precedes(fingers.last(), id) {
            fingers.last().target()
        } else {
            self.closest_among(fingers.drop_last(), id)
        }
    }

    /// Whom to ask for a key: the node itself where it owns it, else the
    /// closest node before it, else the successor.
    pub open spec fn found(self, id: ChordId) -> Option<(Seq<char>, Seq<char>)> {
        if self.owns(id) {
            Some((text::decimal_text(self.id as nat), self.address))
        } else {
            match self.closest_among(self.finger, id) {
                Some(t) => Some(t),
                None => self.successor(),
            }
        }
    }

    /// The successors as replicas, each with its address where it is known.
    pub open spec fn replica(self, i: int) -> NodeView {
        NodeView {
            node_id: self.successor_list[i],
            address: if i < self.successor_addresses.len() {
                self.successor_addresses[i]
            } else {
                Seq::empty()
            },
            is_alive: true,
        }
    }
}

impl ChordNode {
    /// Whether the finger table is complete.
    pub closed spec fn wf(self) -> bool {
        &&& self.finger@.len() == 128
        &&& self.next_finger < 128
    }

    /// A node that knows no other.
    pub fn new(id: ChordId, address: &str) -> (n: ChordNode)
        ensures
            n.wf(),
            n@.finger.len() == 128,
            forall|i: int|
                0 <= i < 128 ==> #[trigger] n@.finger[i] == (FingerView {
                    start: finger_start(id, i as nat),
                    node: None,
                    node_address: None,
                }),
            n@ == (ChordView {
                id,
                address: address@,
                predecessor: None,
                predecessor_address: None,
                finger: n@.finger,
                successor_list: Seq::empty(),
                successor_addresses: Seq::empty(),
                next_finger: 0,
            }),
    {
        let mut finger: Vec<FingerEntry> = Vec::new();
        let mut i: u32 = 0;
        while i < 128
            invariant
                i <= 128,
                finger@.len() == i,
                forall|j: int|
                    0 <= j < i ==> (#[trigger] finger@[j])@ == (FingerView {
                        start: finger_start(id, j as nat),
                        node: None,
                        node_address: None,
                    }),
            decreases 128 - i,
        {
            let start: ChordId = Self::start_of(id, i);
            finger.push(FingerEntry { start, node: None, node_address: None });
            i += 1;
        }
        let n = ChordNode {
            id,
            address: address.to_owned(),
            predecessor: None,
            predecessor_address: None,
            finger,
            successor_list: Vec::new(),
            successor_addresses: Vec::new(),
            next_finger: 0,
        };
        assert(n@.successor_list =~= Seq::empty());
        assert(n@.successor_addresses =~= Seq::empty());
        n
    }

    fn start_of(id: ChordId, i: u32) -> (r: ChordId)
        requires
            i < 128,
        ensures
            r == finger_start(id, i as nat),
    {
        let mut step: u128 = 1;
        let mut j: u32 = 0;
        proof {
            lemma2_to64();
        }
        while j < i
            invariant
                j <= i < 128,
                step == pow2(j as nat),
            decreases i - j,
        {
            proof {
                lemma2_to64();
                lemma_pow2_unfold((j + 1) as nat);
                lemma_pow2_strictly_increases(j as nat, 127);
                lemma_top_bit();
            }
            step = step * 2;
            j += 1;
        }
        advance(id, step)
    }

    /// The node's key.
    pub fn id(&self) -> (r: ChordId)
        ensures
            r == self@.id,
    {
        self.id
    }

    /// The node's key as text.
    pub fn self_id_string(&self) -> (r: String)
        ensures
            r@ == text::decimal_text(self@.id as nat),
    {
        decimal_wide(self.id)
    }

    /// The node's address.
    pub fn address(&self) -> (r: &str)
        ensures
            r@ == self@.address,
    {
        self.address.as_str()
    }

    /// The node before this one, if it is known.
    pub fn predecessor(&self) -> (r: Option<String>)
        ensures
            types::text_opt(r) == self@.predecessor,
    {
        clone_text(&self.predecessor)
    }

    /// Takes note of one more successor.
    pub fn add_successor(&mut self, node_id: &str, address: &str)
        requires
            old(self).wf(),
        ensures
            final(self).wf(),
            final(self)@ == (ChordView {
                successor_list: old(self)@.successor_list.push(node_id@),
                successor_addresses: old(self)@.successor_addresses.push(address@),
                ..old(self)@
            }),
    {
        let ghost before = self@;
        self.successor_list.push(node_id.to_owned());
        self.successor_addresses.push(address.to_owned());
        assert(self@.successor_list =~= before.successor_list.push(node_id@));
        assert(self@.successor_addresses =~= before.successor_addresses.push(address@));
    }

    /// Whether the node owns a key.
    pub fn is_owner(&self, id: ChordId) -> (r: bool)
        ensures
            r == self@.owns(id),
    {
        match &self.predecessor {
            Some(p) => between(id, hash_to_chord_id(p.as_str().as_bytes()), self.id, false, true),
            None => true,
        }
    }

    /// The node after this one, if it is known.
    pub fn successor(&self) -> (r: Option<(String, String)>)
        requires
            self.wf(),
        ensures
            target_opt(r) == self@.successor(),
    {
        Self::target(&self.finger[0])
    }

    fn target(f: &FingerEntry) -> (r: Option<(String, String)>)
        ensures
            target_opt(r) == f@.target(),
    {
        match (&f.node, &f.node_address) {
            (Some(n), Some(a)) => Some((n.clone(), a.clone())),
            _ => None,
        }
    }

    /// Sets the node after this one.
    pub fn set_successor(&mut self, node_id: &str, address: &str)
        requires
            old(self).wf(),
        ensures
            final(self).wf(),
            final(self)@ == old(self)@.with_successor(node_id@, address@),
    {
        self.set_finger(0, node_id.to_owned(), address.to_owned());
    }

    fn set_finger(&mut self, i: usize, node: String, address: String)
        requires
            old(self).wf(),
            i < 128,
        ensures
            final(self).wf(),
            final(self)@ == (ChordView {
                finger: old(self)@.finger.update(
                    i as int,
                    FingerView {
                        start: old(self)@.finger[i as int].start,
                        node: Some(node@),
                        node_address: Some(address@),
                    },
                ),
                ..old(self)@
            }),
    {
        let start: ChordId = self.finger[i].start;
        let ghost before = self@;
        let entry = FingerEntry { start, node: Some(node), node_address: Some(address) };
        let ghost view = entry@;
        self.finger.set(i, entry);
        assert(self@.finger =~= before.finger.update(i as int, view));
    }

    /// The last finger that leads to a node before a key.
    pub fn closest_preceding_node(&self, id: ChordId) -> (r: Option<(String, String)>)
        ensures
            target_opt(r) == self@.closest_among(self@.finger, id),
    {
        let mut i: usize = self.finger.len();
        assert(self@.finger.take(i as int) =~= self@.finger);
        while i > 0
            invariant
                i <= self.finger@.len(),
                self@.closest_among(self@.finger, id) == self@.closest_among(
                    self@.finger.take(i as int),
                    id,
                ),
            decreases i,
        {
            let f: &FingerEntry = &self.finger[i - 1];
            proof {
                assert(self@.finger.take(i as int).drop_last() =~= self@.finger.take(i - 1));
                assert(self@.finger.take(i as int).last() == f@);
            }
            match (&f.node, &f.node_address) {
                (Some(n), Some(a)) => {
                    if between(hash_to_chord_id(n.as_str().as_bytes()), self.id, id, false, false) {
                        return Some((n.clone(), a.clone()));
                    }
                },
                _ => {},
            }
            i -= 1;
        }
        None
    }

    /// Hears of a node that may be the predecessor. It is taken if there is
    /// none, or if it lies between the one that is known and this node.
    pub fn notify(&mut self, candidate_id: &str, candidate_addr: &str) -> (r: bool)
        requires
            old(self).wf(),
        ensures
            final(self).wf(),
            r == (match old(self)@.predecessor {
                Some(p) => lies_between(key_of(candidate_id@), key_of(p), old(self)@.id, false, false),
                None => true,
            }),
            final(self)@ == (if r {
                old(self)@.with_predecessor(candidate_id@, candidate_addr@)
            } else {
                old(self)@
            }),
    {
        let closer: bool = match &self.predecessor {
            Some(p) => between(
                hash_to_chord_id(candidate_id.as_bytes()),
                hash_to_chord_id(p.as_str().as_bytes()),
                self.id,
                false,
                false,
            ),
            None => true,
        };
        if closer {
            self.predecessor = Some(candidate_id.to_owned());
            self.predecessor_address = Some(candidate_addr.to_owned());
        }
        closer
    }

    /// Takes a node as the successor.
    pub fn stabilize_with(&mut self, succ_id: &str, succ_addr: &str)
        requires
            old(self).wf(),
        ensures
            final(self).wf(),
            final(self)@ == old(self)@.with_successor(succ_id@, succ_addr@),
    {
        self.set_successor(succ_id, succ_addr);
    }

    /// Hears of the successor's predecessor. It becomes the successor if it
    /// lies between this node and the successor.
    pub fn run_stabilize(&mut self, answer: &Option<(String, String)>)
        requires
            old(self).wf(),
        ensures
            final(self).wf(),
            final(self)@ == (match (old(self)@.successor(), target_opt(*answer)) {
                (Some(s), Some(p)) => if lies_between(
                    key_of(p.0),
                    old(self)@.id,
                    key_of(s.0),
                    false,
                    false,
                ) {
                    old(self)@.with_successor(p.0, p.1)
                } else {
                    old(self)@
                },
                _ => old(self)@,
            }),
    {
        match self.successor() {
            Some(s) => {
                match answer {
                    Some(p) => {
                        let pred: ChordId = hash_to_chord_id(p.0.as_str().as_bytes());
                        let succ: ChordId = hash_to_chord_id(s.0.as_str().as_bytes());
                        if between(pred, self.id, succ, false, false) {
                            self.set_successor(p.0.as_str(), p.1.as_str());
                        }
                    },
                    None => {},
                }
            },
            None => {},
        }
    }

    /// The key whose node the next finger should lead to.
    pub fn next_finger_start(&self) -> (r: ChordId)
        requires
            self.wf(),
        ensures
            r == finger_start(self@.id, self@.next_finger),
    {
        Self::start_of(self.id, self.next_finger)
    }

    /// Takes the node that was found for the next finger, if one was, and goes
    /// on to the finger after it.
    pub fn fix_next_finger(&mut self, found: Option<(String, String)>)
        requires
            old(self).wf(),
        ensures
            final(self).wf(),
            old(self)@.next_finger < 128,
            final(self)@ == (ChordView {
                finger: (match target_opt(found) {
                    Some(t) => old(self)@.finger.update(
                        old(self)@.next_finger as int,
                        FingerView {
                            start: old(self)@.finger[old(self)@.next_finger as int].start,
                            node: Some(t.0),
                            node_address: Some(t.1),
                        },
                    ),
                    None => old(self)@.finger,
                }),
                next_finger: (old(self)@.next_finger + 1) % 128,
                ..old(self)@
            }),
    {
        match found {
            Some(t) => {
                self.set_finger(self.next_finger as usize, t.0, t.1);
            },
            None => {},
        }
        self.next_finger = (self.next_finger + 1) % 128;
    }

    /// Forgets the predecessor where it is gone.
    pub fn check_predecessor(&mut self, predecessor_alive: bool)
        requires
            old(self).wf(),
        ensures
            final(self).wf(),
            final(self)@ == (if predecessor_alive {
                old(self)@
            } else {
                ChordView { predecessor: None, predecessor_address: None, ..old(self)@ }
            }),
    {
        if !predecessor_alive {
            self.predecessor = None;
            self.predecessor_address = None;
        }
    }

    /// Whom to ask for a key.
    pub fn handle_find_successor(&self, id: ChordId) -> (r: Option<(String, String)>)
        requires
            self.wf(),
        ensures
            target_opt(r) == self@.found(id),
    {
        if self.is_owner(id) {
            return Some((decimal_wide(self.id), self.address.clone()));
        }
        match self.closest_preceding_node(id) {
            Some(t) => Some(t),
            None => self.successor(),
        }
    }

    /// The nodes that hold the replicas of a key: this one and its successors,
    /// at most `rf` in all but always this one.
    pub fn replicas_for_chord_id(&self, rf: usize) -> (r: Vec<NodeInfo>)
        requires
            self@.successor_list.len() < usize::MAX,
        ensures
            r@.len() == (if rf <= 1 {
                1
            } else if rf <= 1 + self@.successor_list.len() {
                rf as nat
            } else {
                1 + self@.successor_list.len()
            }),
            r@[0]@ == (NodeView {
                node_id: text::decimal_text(self@.id as nat),
                address: self@.address,
                is_alive: true,
            }),
            forall|i: int| 1 <= i < r@.len() ==> (#[trigger] r@[i])@ == self@.replica(i - 1),
    {
        let mut r: Vec<NodeInfo> = Vec::new();
        r.push(
            NodeInfo {
                node_id: decimal_wide(self.id),
                address: self.address.clone(),
                is_alive: true,
            },
        );
        let mut i: usize = 0;
        while i < self.successor_list.len() && r.len() < rf
            invariant
                i <= self.successor_list@.len(),
                r@.len() == i + 1,
                i > 0 ==> r@.len() <= rf,
                r@[0]@ == (NodeView {
                    node_id: text::decimal_text(self@.id as nat),
                    address: self@.address,
                    is_alive: true,
                }),
                forall|j: int| 1 <= j <= i ==> (#[trigger] r@[j])@ == self@.replica(j - 1),
            decreases self.successor_list.len() - i,
        {
            let address: String = if i < self.successor_addresses.len() {
                self.successor_addresses[i].clone()
            } else {
                let none: String = String::new();
                assert(none@ =~= Seq::empty());
                none
            };
            let n = NodeInfo { node_id: self.successor_list[i].clone(), address, is_alive: true };
            assert(n@ == self@.replica(i as int));
            r.push(n);
            i += 1;
        }
        r
    }
}

proof fn lemma_top_bit()
    ensures
        pow2(127) == 0x8000_0000_0000_0000_0000_0000_0000_0000,
{
    lemma2_to64();
    lemma2_to64_rest();
    lemma_pow2_adds(63, 64);
    assert(0x8000_0000_0000_0000int * 0x1_0000_0000_0000_0000int
        == 0x8000_0000_0000_0000_0000_0000_0000_0000int) by (nonlinear_arith);
}

// ---------------------------------------------------------------------------
// Laws
// ---------------------------------------------------------------------------

/// Two keys split the ring: any other key lies on exactly one of the two arcs.
pub proof fn arcs_do_not_overlap(a: ChordId, b: ChordId, id: ChordId)
    requires
        a < b,
        id != a,
        id != b,
    ensures
        lies_between(id, a, b, false, true) != lies_between(id, b, a, false, true),
{
}

/// A node that hears of a closer predecessor owns less: every key that it owns
/// afterwards it owned before.
pub proof fn a_closer_predecessor_takes_keys(v: ChordView, candidate: Seq<char>, address: Seq<char>, id: ChordId)
    requires
        v.predecessor is Some,
        key_of(v.predecessor->0) < key_of(candidate) < v.id,
        v.with_predecessor(candidate, address).owns(id),
    ensures
        v.owns(id),
{
}

/// Steps up the ring add up.
pub proof fn steps_add_up(id: ChordId, a: u128, b: u128)
    ensures
        stepped(stepped(id, a), b) == stepped(id, stepped(a, b)),
{
}

/// How far it is from one key up the ring to another one.
pub open spec fn way(a: ChordId, b: ChordId) -> int {
    if a <= b {
        b - a
    } else {
        b - a + 0x1_0000_0000_0000_0000_0000_0000_0000_0000
    }
}

/// A key other than both ends lies between them where it is reached first. Of
/// the ends themselves, those that are to count do; where the way passes the
/// ring's end both count, and from a key to itself it is the whole ring.
pub proof fn keys_between_are_reached_first(
    id: ChordId,
    a: ChordId,
    b: ChordId,
    inclusive_a: bool,
    inclusive_b: bool,
)
    ensures
        a != b && id != a && id != b ==> (lies_between(id, a, b, inclusive_a, inclusive_b) <==> way(a, id) < way(a, b)),
        a < b && id == a ==> lies_between(id, a, b, inclusive_a, inclusive_b) == inclusive_a,
        a < b && id == b ==> lies_between(id, a, b, inclusive_a, inclusive_b) == inclusive_b,
        a > b && (id == a || id == b) ==> lies_between(id, a, b, inclusive_a, inclusive_b),
        a == b ==> lies_between(id, a, b, inclusive_a, inclusive_b),
{
}

/// A step up the ring leads as far as it is long.
pub proof fn steps_lead_up(id: ChordId, step: u128)
    ensures
        way(id, stepped(id, step)) == step,
{
}

/// Each finger starts twice as far away as the one before it, the first one at
/// the next key.
pub proof fn fingers_double_the_way(id: ChordId, i: nat)
    requires
        i < 128,
    ensures
        way(id, finger_start(id, 0)) == 1,
        i > 0 ==> way(id, finger_start(id, i)) == 2 * way(id, finger_start(id, (i - 1) as nat)),
{
    lemma_top_bit();
    lemma2_to64();
    if i < 127 {
        lemma_pow2_strictly_increases(i, 127);
    }
    lemma_pow2_strictly_increases(0, 127);
    if i > 0 {
        lemma_pow2_unfold(i);
        lemma_pow2_strictly_increases((i - 1) as nat, 127);
    }
}

/// A key is made of two hashes, one above the other.
pub proof fn keys_are_made_of_two_hashes(data: Seq<u8>)
    ensures
        chord_key(data) as int / 0x1_0000_0000_0000_0000 == hashing::tagged_hash(data, 1),
        chord_key(data) as int % 0x1_0000_0000_0000_0000 == hashing::slice_hash(data),
{
    let high: int = hashing::tagged_hash(data, 1) as int;
    let low: int = hashing::slice_hash(data) as int;
    assert(chord_key(data) == high * 0x1_0000_0000_0000_0000 + low);
    assert((high * 0x1_0000_0000_0000_0000 + low) / 0x1_0000_0000_0000_0000 == high && (high
        * 0x1_0000_0000_0000_0000 + low) % 0x1_0000_0000_0000_0000 == low) by (nonlinear_arith)
        requires
            0 <= low < 0x1_0000_0000_0000_0000,
    ;
}

/// Whether a finger leads to a node that is reached from a node before a key is.
pub open spec fn leads_before(v: ChordView, f: FingerView, id: ChordId) -> bool {
    &&& f.node is Some
    &&& f.node_address is Some
    &&& key_of(f.node->0) != v.id
    &&& key_of(f.node->0) != id
    &&& v.id != id ==> way(v.id, key_of(f.node->0)) < way(v.id, id)
}

/// Whether a finger leads to the node itself or to the key that is looked for.
pub open spec fn leads_to_an_end(v: ChordView, f: FingerView, id: ChordId) -> bool {
    f.node is Some && (key_of(f.node->0) == v.id || key_of(f.node->0) == id)
}

/// A node that does not own a key sends on to the last finger that leads before
/// the key, with the name and address of that finger; where none does, to the
/// successor.
pub proof fn lookups_go_to_the_last_finger_before(v: ChordView, id: ChordId, i: int)
    requires
        !v.owns(id),
        forall|j: int| 0 <= j < v.finger.len() ==> !leads_to_an_end(v, #[trigger] v.finger[j], id),
        -1 <= i < v.finger.len(),
        i >= 0 ==> leads_before(v, v.finger[i], id),
        forall|j: int| i < j < v.finger.len() ==> !leads_before(v, #[trigger] v.finger[j], id),
    ensures
        i >= 0 ==> v.found(id) == Some((v.finger[i].node->0, v.finger[i].node_address->0)),
        i < 0 && v.finger[0].node is Some && v.finger[0].node_address is Some ==> v.found(id) == Some(
            (v.finger[0].node->0, v.finger[0].node_address->0),
        ),
        i < 0 && (v.finger[0].node is None || v.finger[0].node_address is None) ==> v.found(id) is None,
{
    lemma_last_before(v, id, i, v.finger.len() as int);
    assert(v.finger.take(v.finger.len() as int) =~= v.finger);
}

proof fn lemma_last_before(v: ChordView, id: ChordId, i: int, n: int)
    requires
        forall|j: int| 0 <= j < v.finger.len() ==> !leads_to_an_end(v, #[trigger] v.finger[j], id),
        -1 <= i < n <= v.finger.len() || (i == -1 && n == 0),
        i >= 0 ==> leads_before(v, v.finger[i], id),
        forall|j: int| i < j < n ==> !leads_before(v, #[trigger] v.finger[j], id),
    ensures
        v.closest_among(v.finger.take(n), id) == (if i >= 0 {
            Some((v.finger[i].node->0, v.finger[i].node_address->0))
        } else {
            None
        }),
    decreases n,
{
    let some = v.finger.take(n);
    if n > 0 {
        let f = some.last();
        assert(f == v.finger[n - 1]);
        assert(!leads_to_an_end(v, v.finger[n - 1], id));
        assert(v.precedes(f, id) <==> leads_before(v, f, id));
        assert(some.drop_last() =~= v.finger.take(n - 1));
        if i < n - 1 {
            lemma_last_before(v, id, i, n - 1);
        }
    }
}

/// A node owns its own key, and the keys that are reached from its predecessor
/// before it; one without a predecessor owns all. It answers for what it owns.
pub proof fn nodes_own_what_leads_to_them(v: ChordView, id: ChordId)
    ensures
        v.predecessor is None ==> v.owns(id),
        id == v.id ==> v.owns(id),
        v.predecessor is Some && key_of(v.predecessor->0) != v.id && id != v.id && id != key_of(
            v.predecessor->0,
        ) ==> (v.owns(id) <==> way(key_of(v.predecessor->0), id) < way(key_of(v.predecessor->0), v.id)),
        v.predecessor is Some && key_of(v.predecessor->0) < v.id ==> !v.owns(key_of(v.predecessor->0)),
        v.owns(id) ==> v.found(id) == Some((text::decimal_text(v.id as nat), v.address)),
{
}

/// A new successor changes the first finger alone, and not where it starts.
pub proof fn a_new_successor_is_the_first_finger(v: ChordView, node: Seq<char>, address: Seq<char>, i: int)
    requires
        v.finger.len() > 0,
    ensures
        v.with_successor(node, address).successor() == Some((node, address)),
        v.with_successor(node, address).finger.len() == v.finger.len(),
        v.with_successor(node, address).finger[0].start == v.finger[0].start,
        0 < i < v.finger.len() ==> v.with_successor(node, address).finger[i] == v.finger[i],
        v.with_successor(node, address).id == v.id,
        v.with_successor(node, address).predecessor == v.predecessor,
        v.with_successor(node, address).successor_list == v.successor_list,
{
}

/// A new predecessor is the one that was heard of, and nothing else changes.
pub proof fn a_new_predecessor_is_kept(v: ChordView, node: Seq<char>, address: Seq<char>)
    ensures
        v.with_predecessor(node, address).predecessor == Some(node),
        v.with_predecessor(node, address).predecessor_address == Some(address),
        v.with_predecessor(node, address).finger == v.finger,
        v.with_predecessor(node, address).id == v.id,
{
}

/// A replica is the successor in its place, with the address in the same place.
pub proof fn replicas_are_successors(v: ChordView, i: int)
    requires
        0 <= i < v.successor_list.len(),
    ensures
        v.replica(i).node_id == v.successor_list[i],
        i < v.successor_addresses.len() ==> v.replica(i).address == v.successor_addresses[i],
        i >= v.successor_addresses.len() ==> v.replica(i).address.len() == 0,
        v.replica(i).is_alive,
{
}

} // verus!
