//! Writing operations and replaying them.

use vstd::prelude::*;
use vstd::string::*;

use crate::collection;
use crate::collection::{Collection, CollectionState, RecordState};
use crate::index::LabelsView;
use crate::op::{OpKind, Operation};
use crate::types;

verus! {

/// An operation with the sequence number that the log gave it.
#[derive(Debug)]
pub struct LoggedOp {
    pub seq: u64,
    pub op: Operation,
}

/// A logged operation as a mathematical value.
pub struct Step {
    pub seq: u64,
    pub id: Seq<char>,
    pub effect: OpKind,
}

impl View for LoggedOp {
    type V = Step;

    open spec fn view(&self) -> Step {
        Step { seq: self.seq, id: self.op.target(), effect: self.op.effect() }
    }
}

/// Logged operations as mathematical values.
pub open spec fn steps(ops: Seq<LoggedOp>) -> Seq<Step> {
    Seq::new(ops.len(), |i: int| ops[i]@)
}

/// Operations that take consecutive sequence numbers.
pub open spec fn numbered(ops: Seq<Operation>, first_seq: u64) -> Seq<Step> {
    Seq::new(
        ops.len(),
        |i: int|
            Step { seq: (first_seq + i) as u64, id: ops[i].target(), effect: ops[i].effect() },
    )
}

/// The records after a run of operations.
pub open spec fn records_after_all(records: Map<Seq<char>, RecordState>, steps: Seq<Step>) -> Map<
    Seq<char>,
    RecordState,
>
    decreases steps.len(),
{
    if steps.len() == 0 {
        records
    } else {
        let s = steps.last();
        collection::records_after(
            records_after_all(records, steps.drop_last()),
            s.id,
            s.effect,
            s.seq,
        )
    }
}

/// The buffer after a run of operations.
pub open spec fn buffer_after_all(
    buffer: Seq<(Seq<char>, RecordState)>,
    steps: Seq<Step>,
) -> Seq<(Seq<char>, RecordState)>
    decreases steps.len(),
{
    if steps.len() == 0 {
        buffer
    } else {
        let s = steps.last();
        collection::buffer_after(
            buffer_after_all(buffer, steps.drop_last()),
            s.id,
            s.effect,
            s.seq,
        )
    }
}

/// The places in the segment file after a run of operations.
pub open spec fn stored_after_all(stored: Map<Seq<char>, usize>, steps: Seq<Step>) -> Map<
    Seq<char>,
    usize,
>
    decreases steps.len(),
{
    if steps.len() == 0 {
        stored
    } else {
        let s = steps.last();
        collection::stored_after(stored_after_all(stored, steps.drop_last()), s.id, s.effect)
    }
}

/// The labels of the graph index after a run of operations.
pub open spec fn labels_after_all(labels: LabelsView, steps: Seq<Step>) -> LabelsView
    decreases steps.len(),
{
    if steps.len() == 0 {
        labels
    } else {
        let s = steps.last();
        collection::labels_after(labels_after_all(labels, steps.drop_last()), s.id, s.effect)
    }
}

/// The labels that a run of operations takes out of the graph index.
pub open spec fn labels_dropped(labels: LabelsView, steps: Seq<Step>) -> Seq<u64>
    decreases steps.len(),
{
    if steps.len() == 0 {
        Seq::empty()
    } else {
        let s = steps.last();
        let before = labels_after_all(labels, steps.drop_last()).labels;
        let dropped = labels_dropped(labels, steps.drop_last());
        if s.effect is Drop && before.contains_key(s.id) {
            dropped.push(before[s.id])
        } else {
            dropped
        }
    }
}

/// What a run of operations makes of a collection's state.
pub open spec fn state_after_all(a: CollectionState, steps: Seq<Step>, b: CollectionState) -> bool {
    &&& collection::same_frame(a, b)
    &&& b.records == records_after_all(a.records, steps)
    &&& b.buffer == buffer_after_all(a.buffer, steps)
    &&& b.stored == stored_after_all(a.stored, steps)
    &&& b.labels == labels_after_all(a.labels, steps)
    &&& a.next_offset <= b.next_offset <= a.next_offset + steps.len()
}

proof fn lemma_one_more(a: CollectionState, steps: Seq<Step>, b: CollectionState, c: CollectionState, s: Step)
    requires
        state_after_all(a, steps, b),
        collection::same_frame(c, b),
        c.records == collection::records_after(b.records, s.id, s.effect, s.seq),
        c.buffer == collection::buffer_after(b.buffer, s.id, s.effect, s.seq),
        c.stored == collection::stored_after(b.stored, s.id, s.effect),
        c.labels == collection::labels_after(b.labels, s.id, s.effect),
        b.next_offset <= c.next_offset <= b.next_offset + 1,
    ensures
        state_after_all(a, steps.push(s), c),
{
    assert(steps.push(s).drop_last() =~= steps);
}

impl Collection {
    /// Number of offsets that can still be handed out.
    pub fn offsets_left(&self) -> (n: u32)
        ensures
            n == u32::MAX - self@.next_offset,
    {
        u32::MAX - self.next_offset
    }

    /// Applies a batch that the log has taken with consecutive sequence numbers
    /// from `first_seq` on. Returns the labels that leave the graph index.
    pub fn write_ops(&mut self, ops: &Vec<Operation>, first_seq: u64) -> (dropped: Vec<u64>)
        requires
            old(self).wf(),
            old(self)@.next_offset + ops@.len() <= u32::MAX,
            first_seq + ops@.len() <= u64::MAX,
        ensures
            final(self).wf(),
            state_after_all(old(self)@, numbered(ops@, first_seq), final(self)@),
            dropped@ == labels_dropped(old(self)@.labels, numbered(ops@, first_seq)),
    {
        let mut dropped: Vec<u64> = Vec::new();
        let mut i: usize = 0;
        let ghost all = numbered(ops@, first_seq);
        let ghost start = self@;
        assert(all.take(0) =~= Seq::<Step>::empty());
        while i < ops.len()
            invariant
                i <= ops.len(),
                self.wf(),
                all == numbered(ops@, first_seq),
                start == old(self)@,
                start.next_offset + ops@.len() <= u32::MAX,
                first_seq + ops@.len() <= u64::MAX,
                state_after_all(start, all.take(i as int), self@),
                dropped@ == labels_dropped(start.labels, all.take(i as int)),
            decreases ops.len() - i,
        {
            let ghost before = self@;
            let label: Option<u64> = self.apply_operation(&ops[i], first_seq + i as u64);
            proof {
                let s = all[i as int];
                assert(all.take(i + 1) =~= all.take(i as int).push(s));
                assert(all.take(i + 1).drop_last() =~= all.take(i as int));
                lemma_one_more(start, all.take(i as int), before, self@, s);
            }
            match label {
                Some(l) => {
                    dropped.push(l);
                },
                None => {},
            }
            i += 1;
        }
        assert(all.take(ops@.len() as int) =~= all);
        dropped
    }

    /// Applies the operations of the log that the state does not cover yet.
    /// Returns the labels that leave the graph index.
    pub fn replay_after(&mut self, tail: &Vec<LoggedOp>) -> (dropped: Vec<u64>)
        requires
            old(self).wf(),
            old(self)@.next_offset + tail@.len() <= u32::MAX,
        ensures
            final(self).wf(),
            state_after_all(old(self)@, steps(tail@), final(self)@),
            dropped@ == labels_dropped(old(self)@.labels, steps(tail@)),
    {
        let mut dropped: Vec<u64> = Vec::new();
        let mut i: usize = 0;
        let ghost all = steps(tail@);
        let ghost start = self@;
        assert(all.take(0) =~= Seq::<Step>::empty());
        while i < tail.len()
            invariant
                i <= tail.len(),
                self.wf(),
                all == steps(tail@),
                start == old(self)@,
                start.next_offset + tail@.len() <= u32::MAX,
                state_after_all(start, all.take(i as int), self@),
                dropped@ == labels_dropped(start.labels, all.take(i as int)),
            decreases tail.len() - i,
        {
            let ghost before = self@;
            let label: Option<u64> = self.apply_operation(&tail[i].op, tail[i].seq);
            proof {
                let s = all[i as int];
                assert(all.take(i + 1) =~= all.take(i as int).push(s));
                assert(all.take(i + 1).drop_last() =~= all.take(i as int));
                lemma_one_more(start, all.take(i as int), before, self@, s);
            }
            match label {
                Some(l) => {
                    dropped.push(l);
                },
                None => {},
            }
            i += 1;
        }
        assert(all.take(tail@.len() as int) =~= all);
        dropped
    }
}

// ---------------------------------------------------------------------------
// Laws
// ---------------------------------------------------------------------------

/// However a log is cut into batches, the records are those of the whole log.
pub proof fn batches_add_up(records: Map<Seq<char>, RecordState>, a: Seq<Step>, b: Seq<Step>)
    ensures
        records_after_all(records_after_all(records, a), b) == records_after_all(records, a + b),
    decreases b.len(),
{
    if b.len() == 0 {
        assert(a + b =~= a);
    } else {
        batches_add_up(records, a, b.drop_last());
        assert((a + b).drop_last() =~= a + b.drop_last());
        assert((a + b).last() == b.last());
    }
}

/// Operations on other records leave a record alone.
pub proof fn other_records_stay(
    records: Map<Seq<char>, RecordState>,
    steps: Seq<Step>,
    id: Seq<char>,
)
    requires
        forall|i: int| 0 <= i < steps.len() ==> (#[trigger] steps[i]).id != id,
    ensures
        records_after_all(records, steps).contains_key(id) == records.contains_key(id),
        records.contains_key(id) ==> records_after_all(records, steps)[id] == records[id],
    decreases steps.len(),
{
    if steps.len() > 0 {
        let rest = steps.drop_last();
        assert forall|i: int| 0 <= i < rest.len() implies (#[trigger] rest[i]).id != id by {
            assert(rest[i] == steps[i]);
        }
        other_records_stay(records, rest, id);
        assert(steps.last() == steps[steps.len() - 1]);
    }
}

/// What became of one record, if it is live.
pub open spec fn fate(records: Map<Seq<char>, RecordState>, id: Seq<char>) -> Option<RecordState> {
    if records.contains_key(id) {
        Some(records[id])
    } else {
        None
    }
}

/// The vector of a record, if it is live and has one.
pub open spec fn own_vector(r: Option<RecordState>) -> Option<Seq<u32>> {
    match r {
        Some(r) => r.embedding,
        None => None,
    }
}

/// How a run of operations can act on one record.
enum Course {
    /// No operation is on the record.
    Untouched,
    /// The outcome does not depend on what the record was.
    Settled(Option<RecordState>),
    /// The record keeps its vector and gets the rest.
    Revised(RecordState),
}

spec fn goes(course: Course, before: Option<RecordState>) -> Option<RecordState> {
    match course {
        Course::Untouched => before,
        Course::Settled(r) => r,
        Course::Revised(r) => Some(RecordState { embedding: own_vector(before), ..r }),
    }
}

proof fn lemma_course(steps: Seq<Step>, id: Seq<char>) -> (c: Course)
    ensures
        forall|m: Map<Seq<char>, RecordState>|
            fate(#[trigger] records_after_all(m, steps), id) == goes(c, fate(m, id)),
    decreases steps.len(),
{
    if steps.len() == 0 {
        Course::Untouched
    } else {
        let rest = steps.drop_last();
        let d = lemma_course(rest, id);
        let s = steps.last();
        let c = if s.id != id {
            d
        } else {
            match s.effect {
                OpKind::Put { embedding, metadata, document } => Course::Settled(
                    Some(
                        RecordState { embedding: Some(embedding), metadata, document, seq: s.seq },
                    ),
                ),
                OpKind::Drop => Course::Settled(None),
                OpKind::Change { metadata, document } => match d {
                    Course::Settled(r) => Course::Settled(
                        Some(RecordState { embedding: own_vector(r), metadata, document, seq: s.seq }),
                    ),
                    _ => Course::Revised(
                        RecordState { embedding: None, metadata, document, seq: s.seq },
                    ),
                },
            }
        };
        assert forall|m: Map<Seq<char>, RecordState>|
            fate(#[trigger] records_after_all(m, steps), id) == goes(c, fate(m, id)) by {
            let before = records_after_all(m, rest);
            assert(fate(before, id) == goes(d, fate(m, id)));
        }
        c
    }
}

/// Replaying operations that the records already cover changes nothing: a
/// checkpoint may be followed by any part of the log's end that contains what
/// it lacks.
pub proof fn replaying_again_changes_nothing(
    records: Map<Seq<char>, RecordState>,
    covered: Seq<Step>,
    tail: Seq<Step>,
)
    ensures
        records_after_all(records_after_all(records, covered + tail), tail) == records_after_all(
            records,
            covered + tail,
        ),
{
    let mid = records_after_all(records, covered);
    let once = records_after_all(mid, tail);
    let twice = records_after_all(once, tail);
    batches_add_up(records, covered, tail);
    assert forall|id: Seq<char>|
        #[trigger] once.contains_key(id) == twice.contains_key(id) && (once.contains_key(id) ==> once[id]
            == twice[id]) by {
        let c = lemma_course(tail, id);
        assert(fate(once, id) == goes(c, fate(mid, id)));
        assert(fate(twice, id) == goes(c, fate(once, id)));
        assert(fate(once, id) == fate(twice, id));
    }
    assert(once =~= twice);
}

/// The last operation on a record decides whether it is live: after a deletion
/// it is not, after any other operation it is.
pub proof fn last_operation_decides(
    records: Map<Seq<char>, RecordState>,
    before: Seq<Step>,
    last: Step,
    after: Seq<Step>,
)
    requires
        forall|i: int| 0 <= i < after.len() ==> (#[trigger] after[i]).id != last.id,
    ensures
        records_after_all(records, before.push(last) + after).contains_key(last.id) <==> !(last.effect
            is Drop),
        last.effect matches OpKind::Put { embedding, metadata, document } ==> records_after_all(
            records,
            before.push(last) + after,
        )[last.id] == (RecordState { embedding: Some(embedding), metadata, document, seq: last.seq }),
{
    batches_add_up(records, before.push(last), after);
    other_records_stay(records_after_all(records, before.push(last)), after, last.id);
    assert(before.push(last).drop_last() =~= before);
    assert(before.push(last).last() == last);
}

/// What one operation does: an addition or an upsert leaves its record as it was
/// given; an update leaves the vector of its record and replaces the rest; a
/// deletion leaves no record; and every other record stays.
pub proof fn operations_do_what_they_say(
    records: Map<Seq<char>, RecordState>,
    op: Operation,
    seq: u64,
    other: Seq<char>,
)
    ensures
        ({
            let after = collection::records_after(records, op.target(), op.effect(), seq);
            &&& match op {
                Operation::Add { id, embedding, metadata, document } => {
                    &&& after.contains_key(id@)
                    &&& after[id@].embedding == Some(embedding@)
                    &&& after[id@].metadata == types::meta_opt(metadata)
                    &&& after[id@].document == types::text_opt(document)
                    &&& after[id@].seq == seq
                    &&& other != id@ ==> fate(after, other) == fate(records, other)
                },
                Operation::Upsert { id, embedding, metadata, document } => {
                    &&& after.contains_key(id@)
                    &&& after[id@].embedding == Some(embedding@)
                    &&& after[id@].metadata == types::meta_opt(metadata)
                    &&& after[id@].document == types::text_opt(document)
                    &&& after[id@].seq == seq
                    &&& other != id@ ==> fate(after, other) == fate(records, other)
                },
                Operation::Update { id, metadata, document } => {
                    &&& after.contains_key(id@)
                    &&& after[id@].embedding == own_vector(fate(records, id@))
                    &&& after[id@].metadata == types::meta_opt(metadata)
                    &&& after[id@].document == types::text_opt(document)
                    &&& after[id@].seq == seq
                    &&& other != id@ ==> fate(after, other) == fate(records, other)
                },
                Operation::Delete { id } => {
                    &&& !after.contains_key(id@)
                    &&& other != id@ ==> fate(after, other) == fate(records, other)
                },
            }
        }),
{
}

/// The operations of a batch get consecutive numbers, in their order.
pub proof fn batches_are_numbered_in_order(ops: Seq<Operation>, first_seq: u64, i: int)
    requires
        0 <= i < ops.len(),
        first_seq + ops.len() <= u64::MAX,
    ensures
        numbered(ops, first_seq).len() == ops.len(),
        numbered(ops, first_seq)[i].seq == first_seq + i,
        numbered(ops, first_seq)[i].id == ops[i].target(),
        numbered(ops, first_seq)[i].effect == ops[i].effect(),
{
}

/// A run of operations acts as its operations one after the other, the later on
/// what the earlier left.
pub proof fn runs_go_step_by_step(records: Map<Seq<char>, RecordState>, steps: Seq<Step>, s: Step)
    ensures
        records_after_all(records, Seq::empty()) == records,
        records_after_all(records, steps.push(s)) == collection::records_after(
            records_after_all(records, steps),
            s.id,
            s.effect,
            s.seq,
        ),
{
    assert(steps.push(s).drop_last() =~= steps);
}

/// A deletion takes the vector of its record out of the buffer, the segment file
/// and the graph index; a new vector waits at the end of the buffer, alone for
/// its record; and neither touches another record.
pub proof fn derived_state_follows(
    buffer: Seq<(Seq<char>, RecordState)>,
    stored: Map<Seq<char>, usize>,
    labels: LabelsView,
    op: Operation,
    seq: u64,
    e: (Seq<char>, RecordState),
)
    ensures
        ({
            let b = collection::buffer_after(buffer, op.target(), op.effect(), seq);
            let p = collection::stored_after(stored, op.target(), op.effect());
            let l = collection::labels_after(labels, op.target(), op.effect());
            &&& e.0 != op.target() ==> (b.contains(e) <==> buffer.contains(e))
            &&& op is Update ==> b == buffer && p == stored && l == labels
            &&& op is Delete ==> !p.contains_key(op.target()) && !l.labels.contains_key(op.target())
            &&& op is Delete && e.0 == op.target() ==> !b.contains(e)
            &&& op is Add || op is Upsert ==> b.len() > 0 && b.last().0 == op.target() && p == stored && l
                == labels
            &&& (op is Add || op is Upsert) && b.contains(e) && e.0 == op.target() ==> e == b.last()
            &&& op matches Operation::Add { embedding, .. } ==> b.last().1.embedding == Some(embedding@)
            &&& op matches Operation::Upsert { embedding, .. } ==> b.last().1.embedding == Some(embedding@)
            &&& e.0 != op.target() ==> (p.contains_key(e.0) <==> stored.contains_key(e.0)) && (
            p.contains_key(e.0) ==> p[e.0] == stored[e.0])
            &&& e.0 != op.target() ==> (l.labels.contains_key(e.0) <==> labels.labels.contains_key(e.0))
                && (l.labels.contains_key(e.0) ==> l.labels[e.0] == labels.labels[e.0])
            &&& l.next_label == labels.next_label
        }),
{
    let id = op.target();
    let keep = collection::other_than(id);
    let rest = collection::without(buffer, id);
    assert(rest == buffer.filter(keep));
    lemma_filter_members(buffer, keep, e);
    if !(op is Update) && !(op is Delete) {
        let b = collection::buffer_after(buffer, id, op.effect(), seq);
        assert(b == rest.push(b.last()));
        if b.contains(e) {
            let i = choose|i: int| 0 <= i < b.len() && b[i] == e;
            if i < rest.len() {
                assert(rest[i] == e);
                assert(rest.contains(e));
            }
        }
        if rest.contains(e) {
            let i = choose|i: int| 0 <= i < rest.len() && rest[i] == e;
            assert(b[i] == e);
        }
    }
}

proof fn lemma_filter_members<T>(s: Seq<T>, keep: spec_fn(T) -> bool, e: T)
    ensures
        s.filter(keep).contains(e) <==> s.contains(e) && keep(e),
    decreases s.len(),
{
    reveal(Seq::filter);
    if s.len() > 0 {
        let rest = s.drop_last();
        lemma_filter_members(rest, keep, e);
        let a = rest.filter(keep);
        let b = s.filter(keep);
        assert(s =~= rest.push(s.last()));
        if s.contains(e) {
            let i = choose|i: int| 0 <= i < s.len() && s[i] == e;
            if i < rest.len() {
                assert(rest[i] == e);
            }
        }
        if rest.contains(e) {
            let i = choose|i: int| 0 <= i < rest.len() && rest[i] == e;
            assert(s[i] == e);
        }
        if a.contains(e) {
            let i = choose|i: int| 0 <= i < a.len() && a[i] == e;
            assert(b[i] == e);
        }
        if keep(s.last()) {
            assert(b == a.push(s.last()));
            assert(b[a.len() as int] == s.last());
            assert(s[s.len() - 1] == s.last());
            if b.contains(e) {
                let i = choose|i: int| 0 <= i < b.len() && b[i] == e;
                if i < a.len() {
                    assert(a[i] == e);
                }
            }
        }
    } else {
        assert(s.filter(keep).len() == 0);
    }
}

/// The label of a record that is deleted is dropped, and only such labels are.
pub proof fn deleted_labels_are_dropped(labels: LabelsView, steps: Seq<Step>, i: int, label: u64)
    ensures
        0 <= i < steps.len() && steps[i].effect is Drop && labels_after_all(labels, steps.take(i)).labels.contains_key(
            steps[i].id,
        ) ==> labels_dropped(labels, steps).contains(labels_after_all(labels, steps.take(i)).labels[steps[i].id]),
        labels_dropped(labels, steps).contains(label) ==> exists|k: int|
            0 <= k < steps.len() && (#[trigger] steps[k]).effect is Drop && labels_after_all(
                labels,
                steps.take(k),
            ).labels.contains_key(steps[k].id) && labels_after_all(labels, steps.take(k)).labels[steps[k].id] == label,
    decreases steps.len(),
{
    if steps.len() > 0 {
        let rest = steps.drop_last();
        let before = labels_dropped(labels, rest);
        let all = labels_dropped(labels, steps);
        deleted_labels_are_dropped(labels, rest, i, label);
        assert(steps.take(steps.len() - 1) =~= rest);
        if 0 <= i < rest.len() && steps[i].effect is Drop && labels_after_all(
            labels,
            steps.take(i),
        ).labels.contains_key(steps[i].id) {
            assert(rest.take(i) =~= steps.take(i));
            assert(rest[i] == steps[i]);
            let l = labels_after_all(labels, steps.take(i)).labels[steps[i].id];
            let k = choose|k: int| 0 <= k < before.len() && before[k] == l;
            assert(all[k] == l);
        }
        if i == rest.len() {
            assert(steps.last() == steps[i]);
            if steps[i].effect is Drop && labels_after_all(labels, rest).labels.contains_key(steps[i].id) {
                assert(all[before.len() as int] == labels_after_all(labels, rest).labels[steps[i].id]);
            }
        }
        if all.contains(label) {
            if before.contains(label) {
                let k = choose|k: int|
                    0 <= k < rest.len() && (#[trigger] rest[k]).effect is Drop && labels_after_all(
                        labels,
                        rest.take(k),
                    ).labels.contains_key(rest[k].id) && labels_after_all(labels, rest.take(k)).labels[rest[k].id]
                        == label;
                assert(rest.take(k) =~= steps.take(k));
                assert(steps[k] == rest[k]);
            } else {
                let k = choose|k: int| 0 <= k < all.len() && all[k] == label;
                if k < before.len() {
                    assert(before[k] == label);
                }
                assert(steps[steps.len() - 1] == steps.last());
            }
        }
    }
}

} // verus!
