//! How a follower follows a leader's log.

use vstd::arithmetic::power2::*;
use vstd::prelude::*;
use vstd::string::*;

use crate::ids;
use crate::ids::{render_id, CollectionId};
use crate::table::Table;
use crate::text;
use crate::text::decimal;

verus! {

/// Milliseconds before the first retry of a failed request.
pub const FIRST_DELAY: u64 = 100;

/// The state of a follower: where its leader is, and how far the leader's logs
/// have been applied.
pub struct WalReplication {
    leader_url: String,
    last_applied: Table<u128, u64>,
    poll_interval: u64,
}

/// A follower's state as a mathematical value.
pub struct ReplicationView {
    pub leader_url: Seq<char>,
    pub last_applied: Map<u128, u64>,
    /// Milliseconds between two requests.
    pub poll_interval: u64,
}

impl View for WalReplication {
    type V = ReplicationView;

    closed spec fn view(&self) -> ReplicationView {
        ReplicationView {
            leader_url: self.leader_url@,
            last_applied: self.last_applied@,
            poll_interval: self.poll_interval,
        }
    }
}

impl ReplicationView {
    /// The highest sequence number of a collection that was applied, 0 before the
    /// first.
    pub open spec fn applied(self, id: CollectionId) -> u64 {
        if self.last_applied.contains_key(id) {
            self.last_applied[id]
        } else {
            0
        }
    }

    /// The state once a collection's log was applied up to a sequence number.
    pub open spec fn marked(self, id: CollectionId, seq: u64) -> ReplicationView {
        let mark = if seq < self.applied(id) {
            self.applied(id)
        } else {
            seq
        };
        ReplicationView { last_applied: self.last_applied.insert(id, mark), ..self }
    }

    /// The state once marks were set one after the other.
    pub open spec fn marked_all(self, marks: Seq<(CollectionId, u64)>) -> ReplicationView
        decreases marks.len(),
    {
        if marks.len() == 0 {
            self
        } else {
            let (id, seq) = marks.last();
            self.marked_all(marks.drop_last()).marked(id, seq)
        }
    }
}

/// What to do after a failed request.
#[derive(Debug, Clone, Copy, PartialEq, Eq, Structural)]
pub enum Retry {
    /// Try again after this many milliseconds.
    After(u64),
    /// Report the failure.
    GiveUp,
}

/// The delay before the retry that follows an attempt: it doubles each time.
pub open spec fn delay_after(attempt: nat) -> nat {
    100 * pow2(attempt)
}

impl WalReplication {
    /// A follower that has applied nothing.
    pub fn new(leader_url: String, poll_interval: u64) -> (r: WalReplication)
        ensures
            r@ == (ReplicationView {
                leader_url: leader_url@,
                last_applied: Map::empty(),
                poll_interval,
            }),
    {
        WalReplication { leader_url, last_applied: Table::new(), poll_interval }
    }

    /// The sequence number to ask for next.
    pub fn next_seq(&self, collection_id: CollectionId) -> (r: u64)
        requires
            self@.applied(collection_id) < u64::MAX,
        ensures
            r == self@.applied(collection_id) + 1,
    {
        match self.last_applied.get(&collection_id) {
            Some(n) => *n + 1,
            None => 1,
        }
    }

    /// Takes note that a collection's log was applied up to a sequence number. A
    /// higher mark stays.
    pub fn mark_applied(&mut self, collection_id: CollectionId, seq: u64)
        ensures
            final(self)@ == old(self)@.marked(collection_id, seq),
    {
        let mark: u64 = match self.last_applied.get(&collection_id) {
            Some(n) => if *n > seq {
                *n
            } else {
                seq
            },
            None => seq,
        };
        self.last_applied.insert(collection_id, mark);
    }

    /// Milliseconds between two requests.
    pub fn poll_interval(&self) -> (r: u64)
        ensures
            r == self@.poll_interval,
    {
        self.poll_interval
    }

    /// Where the leader serves the records of a log.
    pub fn delta_url(&self, collection_id: CollectionId, from_seq: u64) -> (r: String)
        ensures
            r@ == self@.leader_url + "/internal/wal/"@ + ids::id_text(collection_id)
                + "/delta?from_seq="@ + text::decimal_text(from_seq as nat),
    {
        let mut s: String = self.leader_url.clone();
        s.append("/internal/wal/");
        s.append(render_id(collection_id).as_str());
        s.append("/delta?from_seq=");
        s.append(decimal(from_seq).as_str());
        s
    }

    /// What to do after a request has failed. Attempts are counted from 0.
    pub fn after_failure(attempt: u32, max_retries: u32) -> (r: Retry)
        requires
            attempt < max_retries,
            attempt + 1 < max_retries ==> delay_after(attempt as nat) <= u64::MAX,
        ensures
            r == (if attempt + 1 < max_retries {
                Retry::After(delay_after(attempt as nat) as u64)
            } else {
                Retry::GiveUp
            }),
    {
        if attempt < max_retries - 1 {
            let mut delay: u64 = FIRST_DELAY;
            let mut i: u32 = 0;
            proof {
                lemma2_to64();
            }
            while i < attempt
                invariant
                    i <= attempt,
                    delay == delay_after(i as nat),
                    delay_after(attempt as nat) <= u64::MAX,
                decreases attempt - i,
            {
                proof {
                    lemma_doubled(i as nat, attempt as nat);
                }
                delay = delay * 2;
                i += 1;
            }
            Retry::After(delay)
        } else {
            Retry::GiveUp
        }
    }
}

proof fn lemma_doubled(i: nat, attempt: nat)
    requires
        i < attempt,
    ensures
        delay_after(i + 1) == 2 * delay_after(i),
        delay_after(i + 1) <= delay_after(attempt),
{
    lemma2_to64();
    lemma_pow2_adds(1, i);
    let rest = (attempt - i - 1) as nat;
    lemma_pow2_adds(i + 1, rest);
    lemma_pow2_pos(rest);
    assert(pow2(i + 1) <= pow2(i + 1) * pow2(rest)) by (nonlinear_arith)
        requires
            pow2(rest) >= 1,
            pow2(i + 1) >= 0,
    ;
}

/// The report of a request that was answered with an error status.
pub fn refused(status: &str, body: &str) -> (r: String)
    ensures
        r@ == "HTTP "@ + status@ + ": "@ + body@,
{
    let mut s: String = "HTTP ".to_owned();
    s.append(status);
    s.append(": ");
    s.append(body);
    s
}

/// The report of a request that failed at every attempt.
pub fn given_up(max_retries: u32, last_error: &str) -> (r: String)
    ensures
        r@ == "Failed after "@ + text::decimal_text(max_retries as nat) + " retries: "@ + last_error@,
{
    let mut s: String = "Failed after ".to_owned();
    s.append(decimal(max_retries as u64).as_str());
    s.append(" retries: ");
    s.append(last_error);
    s
}

/// Nothing is asked for twice: whatever marks are set, in whatever order, the
/// mark of a collection never falls, and it lies behind every one that was set
/// for it, so that what is asked for next was not applied yet.
pub proof fn nothing_is_asked_for_twice(v: ReplicationView, marks: Seq<(CollectionId, u64)>, id: CollectionId)
    ensures
        v.marked_all(marks).applied(id) >= v.applied(id),
        forall|i: int|
            0 <= i < marks.len() && (#[trigger] marks[i]).0 == id ==> v.marked_all(marks).applied(id)
                >= marks[i].1,
        v.marked_all(marks).applied(id) == v.applied(id) || exists|i: int|
            0 <= i < marks.len() && #[trigger] marks[i] == (id, v.marked_all(marks).applied(id)),
    decreases marks.len(),
{
    if marks.len() > 0 {
        let rest = marks.drop_last();
        nothing_is_asked_for_twice(v, rest, id);
        let n = marks.len() - 1;
        assert forall|i: int|
            0 <= i < marks.len() && (#[trigger] marks[i]).0 == id implies v.marked_all(marks).applied(id)
            >= marks[i].1 by {
            if i < n {
                assert(rest[i] == marks[i]);
            }
        }
        let before = v.marked_all(rest).applied(id);
        let after = v.marked_all(marks).applied(id);
        if after == before {
            if before != v.applied(id) {
                let i = choose|i: int| 0 <= i < rest.len() && #[trigger] rest[i] == (id, before);
                assert(marks[i] == (id, after));
            }
        } else {
            assert(marks[n] == (id, after));
        }
    }
}

/// Marking one collection leaves the marks of the others, and a follower that has
/// applied nothing starts from the beginning.
pub proof fn marks_are_of_one_collection(v: ReplicationView, id: CollectionId, seq: u64, other: CollectionId)
    ensures
        v.marked(id, seq).applied(id) >= seq,
        v.marked(id, seq).applied(id) == seq || v.marked(id, seq).applied(id) == v.applied(id),
        other != id ==> v.marked(id, seq).applied(other) == v.applied(other),
        v.marked(id, seq).leader_url == v.leader_url,
        v.marked(id, seq).poll_interval == v.poll_interval,
        !v.last_applied.contains_key(id) ==> v.applied(id) == 0,
        v.last_applied.contains_key(id) ==> v.applied(id) == v.last_applied[id],
{
}

/// Retries wait a tenth of a second at first, and twice as long each time.
pub proof fn delays_double(attempt: nat)
    ensures
        delay_after(0) == 100,
        delay_after(attempt + 1) == 2 * delay_after(attempt),
{
    lemma2_to64();
    lemma_doubled(attempt, attempt + 1);
}

} // verus!
