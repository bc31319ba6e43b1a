//! Replication and fencing primitives: epochs, clock tags and replica states.

use vstd::prelude::*;

verus! {

/// Fencing token that identifies a leader generation. It grows with every
/// leader change, and a writer that carries an older epoch is refused.
#[derive(Debug, Clone, Copy, PartialEq, Eq, PartialOrd, Ord, Hash, Structural)]
pub struct Epoch(pub u64);

impl Epoch {
    /// Whether this epoch is older than `other`.
    pub fn older_than(&self, other: &Epoch) -> (r: bool)
        ensures
            r == (self.0 < other.0),
    {
        self.0 < other.0
    }
}

/// Ordering tag of an operation: node ids first, and the per-node sequence
/// number within a node.
#[derive(Debug, Clone, Copy, PartialEq, Eq, PartialOrd, Ord, Hash, Structural)]
pub struct ClockTag {
    /// Owning node id.
    pub node: u64,
    /// Per-node monotonic sequence number.
    pub seq: u64,
}

impl ClockTag {
    /// The order of tags: by node, and by sequence number within a node.
    pub open spec fn before(self, other: ClockTag) -> bool {
        self.node < other.node || (self.node == other.node && self.seq < other.seq)
    }

    /// Whether this tag comes before `other`.
    pub fn is_before(&self, other: &ClockTag) -> (r: bool)
        ensures
            r == self.before(*other),
    {
        self.node < other.node || (self.node == other.node && self.seq < other.seq)
    }
}

/// The order of tags is total: of two different tags exactly one comes first.
pub proof fn tag_order_is_total(a: ClockTag, b: ClockTag)
    ensures
        a == b || a.before(b) || b.before(a),
        !(a.before(b) && b.before(a)),
        !a.before(a),
{
}

/// The order of tags is transitive.
pub proof fn tag_order_is_transitive(a: ClockTag, b: ClockTag, c: ClockTag)
    requires
        a.before(b),
        b.before(c),
    ensures
        a.before(c),
{
}

/// Membership and health of a replica.
#[derive(Debug, Clone, Copy, PartialEq, Eq, Structural)]
pub enum ReplicaState {
    /// Joining the cluster; still catching up on the log.
    Initializing,
    /// Fully caught up and serving reads and writes.
    Active,
    /// Lagging or missing part of the log; serving reads only.
    Partial,
    /// Unreachable or permanently failed.
    Dead,
}

/// Membership and log position of one replica.
#[derive(Debug, Clone, Copy)]
pub struct ReplicaInfo {
    /// Node id, as in the `node` field of a [`ClockTag`].
    pub node: u64,
    /// Observed membership and health.
    pub state: ReplicaState,
    /// Highest log offset that this replica has replayed, inclusive.
    pub log_offset: u64,
}

/// Tags are ordered by node first, and by number within a node.
pub proof fn nodes_come_before_numbers(a: ClockTag, b: ClockTag)
    ensures
        a.node < b.node ==> a.before(b),
        a.node == b.node && a.seq < b.seq ==> a.before(b),
{
}

} // verus!
