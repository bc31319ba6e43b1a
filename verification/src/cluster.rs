//! Clocks of the nodes and the log records that a leader ships.

use vstd::prelude::*;

use crate::bytes::copy_range;
use crate::collection::history;
use crate::collection::history::LoggedOp;
use crate::ids::CollectionId;
use crate::op::Operation;
use crate::table;
use crate::table::Table;
use crate::tags;
use crate::tags::ClockTag;

use crate::wal;
use crate::wal::{Wal, WalRecord, WalResult};

verus! {

/// The highest clock tag that is known of each node.
pub struct ClockMap {
    inner: Table<u64, ClockTag>,
}

impl View for ClockMap {
    type V = Map<u64, ClockTag>;

    closed spec fn view(&self) -> Map<u64, ClockTag> {
        self.inner@
    }
}

/// The clocks after a tag of a node was seen: a tag counts if it is the first
/// of its node or if its sequence number is higher.
pub open spec fn advanced(clocks: Map<u64, ClockTag>, node: u64, tag: ClockTag) -> Map<u64, ClockTag> {
    if clocks.contains_key(node) && tag.seq <= clocks[node].seq {
        clocks
    } else {
        clocks.insert(node, tag)
    }
}

/// Whether a tag is the greatest of the clocks.
pub open spec fn is_greatest(clocks: Map<u64, ClockTag>, tag: ClockTag) -> bool {
    &&& exists|n: u64| #[trigger] clocks.contains_key(n) && clocks[n] == tag
    &&& forall|n: u64| #[trigger] clocks.contains_key(n) ==> !tag.before(clocks[n])
}

impl ClockMap {
    /// No clocks.
    pub fn new() -> (c: ClockMap)
        ensures
            c@ == Map::<u64, ClockTag>::empty(),
    {
        ClockMap { inner: Table::new() }
    }

    /// Takes note of a tag of a node.
    pub fn advance(&mut self, node: u64, tag: ClockTag)
        ensures
            final(self)@ == advanced(old(self)@, node, tag),
    {
        match self.inner.get(&node) {
            Some(t) => {
                if tag.seq <= t.seq {
                    return ;
                }
            },
            None => {},
        }
        self.inner.insert(node, tag);
    }

    /// The clock of a node, if it is known.
    pub fn get(&self, node: u64) -> (r: Option<&ClockTag>)
        ensures
            match r {
                Some(t) => self@.contains_key(node) && *t == self@[node],
                None => !self@.contains_key(node),
            },
    {
        self.inner.get(&node)
    }

    /// The greatest tag of all nodes.
    pub fn global_high_water(&self) -> (r: Option<&ClockTag>)
        ensures
            match r {
                Some(t) => is_greatest(self@, *t),
                None => self@ == Map::<u64, ClockTag>::empty(),
            },
    {
        let entries: &Vec<(u64, ClockTag)> = self.inner.entries();
        if entries.len() == 0 {
            assert(self@ =~= Map::<u64, ClockTag>::empty());
            return None;
        }
        let mut best: usize = 0;
        let mut i: usize = 1;
        while i < entries.len()
            invariant
                best < i <= entries.len(),
                forall|j: int| 0 <= j < i ==> !entries@[best as int].1.before((#[trigger] entries@[j]).1),
            decreases entries.len() - i,
        {
            if entries[best].1.is_before(&entries[i].1) {
                best = i;
            }
            i += 1;
        }
        proof {
            let tag = entries@[best as int].1;
            table::lemma_seated(entries@, best as int);
            assert(self@.contains_key(entries@[best as int].0));
            assert forall|n: u64| #[trigger] self@.contains_key(n) implies !tag.before(self@[n]) by {
                let k = table::seat(entries@, n);
                assert(entries@[k].0 == n);
                assert(!tag.before(entries@[k].1));
            }
        }
        Some(&entries[best].1)
    }

    /// The nodes whose clocks are known, each once.
    pub fn nodes(&self) -> (r: Vec<u64>)
        ensures
            r@.no_duplicates(),
            forall|n: u64| r@.contains(n) <==> #[trigger] self@.contains_key(n),
    {
        let entries: &Vec<(u64, ClockTag)> = self.inner.entries();
        let mut r: Vec<u64> = Vec::new();
        let mut i: usize = 0;
        while i < entries.len()
            invariant
                i <= entries.len(),
                r@.len() == i,
                forall|j: int| 0 <= j < i ==> r@[j] == (#[trigger] entries@[j]).0,
            decreases entries.len() - i,
        {
            r.push(entries[i].0);
            i += 1;
        }
        proof {
            assert forall|j: int, k: int| 0 <= j < r@.len() && 0 <= k < r@.len() && j != k implies r@[j]
                != r@[k] by {
                assert(entries@[j].0@ == r@[j] && entries@[k].0@ == r@[k]);
            }
            assert forall|n: u64| r@.contains(n) <==> #[trigger] self@.contains_key(n) by {
                if r@.contains(n) {
                    let j = choose|j: int| 0 <= j < r@.len() && r@[j] == n;
                    assert(entries@[j].0@ == n);
                }
                if self@.contains_key(n) {
                    let k = table::seat(entries@, n);
                    assert(entries@[k].0@ == n);
                    assert(r@[k] == n);
                }
            }
        }
        r
    }

    /// Number of nodes whose clocks are known.
    pub fn len(&self) -> (n: usize)
        ensures
            n == self@.dom().len(),
            self@.dom().finite(),
    {
        self.inner.len()
    }

    /// Whether no clock is known.
    pub fn is_empty(&self) -> (r: bool)
        ensures
            r == (self@ == Map::<u64, ClockTag>::empty()),
    {
        let n: usize = self.inner.len();
        proof {
            if n == 0 {
                assert(self@.dom() =~= Set::empty());
                assert(self@ =~= Map::<u64, ClockTag>::empty());
            } else {
                assert(Map::<u64, ClockTag>::empty().dom() =~= Set::<u64>::empty());
            }
        }
        n == 0
    }
}

impl Default for ClockMap {
    fn default() -> (c: ClockMap)
        ensures
            c@ == Map::<u64, ClockTag>::empty(),
    {
        ClockMap::new()
    }
}

/// The clock of a node never goes back, and other nodes' clocks stay.
pub proof fn clocks_never_go_back(clocks: Map<u64, ClockTag>, node: u64, tag: ClockTag, n: u64)
    requires
        clocks.contains_key(n),
    ensures
        advanced(clocks, node, tag).contains_key(n),
        advanced(clocks, node, tag)[n].seq >= clocks[n].seq,
        n != node ==> advanced(clocks, node, tag)[n] == clocks[n],
{
}

/// A clock holds the highest sequence number, in whatever order tags arrive.
pub proof fn order_of_arrival_does_not_matter(
    clocks: Map<u64, ClockTag>,
    node: u64,
    a: ClockTag,
    b: ClockTag,
)
    ensures
        advanced(advanced(clocks, node, a), node, b)[node].seq == advanced(
            advanced(clocks, node, b),
            node,
            a,
        )[node].seq,
        advanced(advanced(clocks, node, a), node, a) == advanced(clocks, node, a),
{
}

/// Log records that a leader ships to a follower.
pub struct WalDelta {
    pub leader_node: u64,
    pub records: Vec<WalDeltaRecord>,
    /// The leader's last sequence number.
    pub target_seq: u64,
}

/// A shipped log record.
pub struct WalDeltaRecord {
    pub seq: u64,
    pub epoch: u64,
    /// The encoded operation.
    pub payload: Vec<u8>,
}

impl View for WalDeltaRecord {
    type V = wal::RecordView;

    open spec fn view(&self) -> wal::RecordView {
        wal::RecordView { seq: self.seq, epoch: self.epoch, payload: self.payload@ }
    }
}

/// Shipped records as mathematical values.
pub open spec fn shipped(records: Seq<WalDeltaRecord>) -> Seq<wal::RecordView> {
    Seq::new(records.len(), |i: int| records[i]@)
}

/// The operations that could be decoded, with their sequence numbers.
pub open spec fn decoded_steps(
    records: Seq<WalDeltaRecord>,
    ops: Seq<Option<Operation>>,
) -> Seq<history::Step>
    decreases records.len(),
{
    if records.len() == 0 || ops.len() != records.len() {
        Seq::empty()
    } else {
        let before = decoded_steps(records.drop_last(), ops.drop_last());
        match ops.last() {
            Some(op) => before.push(
                history::Step {
                    seq: records.last().seq,
                    id: op.target(),
                    effect: op.effect(),
                },
            ),
            None => before,
        }
    }
}

impl WalDelta {
    /// A delta of log records.
    pub fn from_wal_records(leader_node: u64, records: Vec<WalRecord>, target_seq: u64) -> (d: WalDelta)
        ensures
            d.leader_node == leader_node,
            d.target_seq == target_seq,
            shipped(d.records@) == wal::record_views(records@),
    {
        let mut out: Vec<WalDeltaRecord> = Vec::new();
        let mut i: usize = 0;
        while i < records.len()
            invariant
                i <= records.len(),
                out@.len() == i,
                forall|j: int| 0 <= j < i ==> (#[trigger] out@[j])@ == records@[j]@,
            decreases records.len() - i,
        {
            let r: &WalRecord = &records[i];
            out.push(
                WalDeltaRecord {
                    seq: r.seq,
                    epoch: r.epoch,
                    payload: copy_range(r.payload.as_slice(), 0, r.payload.len()),
                },
            );
            proof {
                assert(r.payload@.subrange(0, r.payload@.len() as int) =~= r.payload@);
            }
            i += 1;
        }
        let d = WalDelta { leader_node, records: out, target_seq };
        assert(shipped(d.records@) =~= wal::record_views(records@));
        d
    }

    /// The operations of a delta, given what each payload was decoded to.
    /// Records that could not be decoded are left out.
    pub fn decode_ops(&self, decoded: Vec<Option<Operation>>) -> (r: Vec<LoggedOp>)
        requires
            decoded@.len() == self.records@.len(),
        ensures
            history::steps(r@) == decoded_steps(self.records@, decoded@),
    {
        let mut r: Vec<LoggedOp> = Vec::new();
        let mut decoded: Vec<Option<Operation>> = decoded;
        let ghost all = decoded@;
        let mut i: usize = 0;
        proof {
            assert(self.records@.take(0) =~= Seq::empty());
            assert(history::steps(r@) =~= Seq::empty());
        }
        while i < self.records.len()
            invariant
                i <= self.records.len(),
                decoded@.len() == self.records@.len(),
                all.len() == self.records@.len(),
                forall|j: int| i <= j < all.len() ==> decoded@[j] == all[j],
                history::steps(r@) == decoded_steps(self.records@.take(i as int), all.take(i as int)),
            decreases self.records.len() - i,
        {
            let mut op: Option<Operation> = None;
            decoded.set_and_swap(i, &mut op);
            let ghost before = r@;
            assert(op == all[i as int]);
            match op {
                Some(op) => {
                    r.push(LoggedOp { seq: self.records[i].seq, op });
                },
                None => {},
            }
            proof {
                assert(self.records@.take(i + 1).drop_last() =~= self.records@.take(i as int));
                assert(all.take(i + 1).drop_last() =~= all.take(i as int));
                if all[i as int] is Some {
                    assert(history::steps(r@) =~= history::steps(before).push(
                        history::steps(r@)[before.len() as int],
                    ));
                }
            }
            i += 1;
        }
        assert(self.records@.take(i as int) =~= self.records@);
        assert(all.take(i as int) =~= all);
        r
    }
}

/// The records of a log from a sequence number on, for shipping. A follower
/// that is ahead of the log gets none.
pub fn wal_delta(wal: &Wal, image: &[u8], leader_node: u64, from_seq: u64) -> (r: WalResult<WalDelta>)
    requires
        18 <= wal@.file_len <= image.len(),
    ensures
        from_seq > wal@.last_seq ==> (r matches Ok(d) && d.leader_node == leader_node && d.target_seq
            == wal@.last_seq && d.records@.len() == 0),
        from_seq <= wal@.last_seq ==> match wal::range_reading(
            image@.take(wal@.file_len as int),
            wal@.epoch,
            from_seq,
            wal@.last_seq,
        ) {
            Ok(records) => r matches Ok(d) && d.leader_node == leader_node && d.target_seq
                == wal@.last_seq && shipped(d.records@) == records,
            Err(e) => r == WalResult::<WalDelta>::Err(e),
        },
{
    let last: u64 = wal.last_seq();
    if from_seq > last {
        return Ok(WalDelta { leader_node, records: Vec::new(), target_seq: last });
    }
    match wal.read_range(image, from_seq, last) {
        Ok(records) => Ok(WalDelta::from_wal_records(leader_node, records, last)),
        Err(e) => Err(e),
    }
}

/// The place of a node in its cluster.
pub struct ClusterConfig {
    pub node_id: u64,
    /// Addresses of the other nodes.
    pub peers: Vec<String>,
    pub owned_collections: Vec<CollectionId>,
}

impl Default for ClusterConfig {
    fn default() -> (c: ClusterConfig)
        ensures
            c.node_id == 0,
            c.peers@.len() == 0,
            c.owned_collections@.len() == 0,
    {
        ClusterConfig { node_id: 0, peers: Vec::new(), owned_collections: Vec::new() }
    }
}

/// The first tag of a node, and every tag with a higher number than its clock,
/// becomes its clock.
pub proof fn higher_tags_are_taken(clocks: Map<u64, ClockTag>, node: u64, tag: ClockTag)
    ensures
        advanced(clocks, node, tag).contains_key(node),
        !clocks.contains_key(node) || tag.seq > clocks[node].seq ==> advanced(clocks, node, tag)[node] == tag,
        clocks.contains_key(node) && tag.seq <= clocks[node].seq ==> advanced(clocks, node, tag) == clocks,
        forall|n: u64| #[trigger]
            clocks.contains_key(n) && n != node ==> advanced(clocks, node, tag).contains_key(n) && advanced(
                clocks,
                node,
                tag,
            )[n] == clocks[n],
        forall|n: u64| #[trigger]
            advanced(clocks, node, tag).contains_key(n) ==> n == node || clocks.contains_key(n),
{
}

/// The greatest tag is a clock, and no clock is of a later node, or of the same
/// node with a higher number.
pub proof fn the_greatest_tag_is_highest(clocks: Map<u64, ClockTag>, tag: ClockTag, n: u64)
    requires
        is_greatest(clocks, tag),
        clocks.contains_key(n),
    ensures
        exists|k: u64| #[trigger] clocks.contains_key(k) && clocks[k] == tag,
        clocks[n].node <= tag.node,
        clocks[n].node == tag.node ==> clocks[n].seq <= tag.seq,
{
    tags::nodes_come_before_numbers(tag, clocks[n]);
}

/// Each record that was decoded is one step, under its own number, and steps
/// stand in the order of the records.
pub proof fn decoded_records_are_steps(
    records: Seq<WalDeltaRecord>,
    ops: Seq<Option<Operation>>,
    record: WalDeltaRecord,
    op: Option<Operation>,
)
    requires
        records.len() == ops.len(),
    ensures
        op is None ==> decoded_steps(records.push(record), ops.push(op)) == decoded_steps(records, ops),
        op matches Some(o) ==> {
            let more = decoded_steps(records.push(record), ops.push(op));
            &&& more.len() == decoded_steps(records, ops).len() + 1
            &&& more.take(more.len() - 1) == decoded_steps(records, ops)
            &&& more.last().seq == record.seq
            &&& more.last().id == o.target()
            &&& more.last().effect == o.effect()
        },
        decoded_steps(Seq::empty(), Seq::empty()).len() == 0,
{
    assert(records.push(record).drop_last() =~= records);
    assert(ops.push(op).drop_last() =~= ops);
    let before = decoded_steps(records, ops);
    if let Some(o) = op {
        let more = decoded_steps(records.push(record), ops.push(op));
        assert(more.take(more.len() - 1) =~= before);
    }
}

} // verus!
