//! Checkpoints of a collection: what they hold, how the state changes when one
//! is taken, and how a collection comes back from one.


use vstd::prelude::*;
use vstd::string::*;

use crate::collection;
use crate::collection::flush::{ChangeView, GraphChange};
use crate::collection::history::Step;
use crate::collection::{clone_vector, history, query, Collection, CollectionState, Record, RecordState};
use crate::config::CollectionConfig;
use crate::idmap;
use crate::idmap::IdMap;
use crate::index;
use crate::index::{IndexError, LabelMap, LabelsView};
use crate::postings;
use crate::segment;
use crate::segment::{Mapped, SegmentWriter};
use crate::sort;
use crate::sort::{sorted, Ordered};
use crate::text;
use crate::text::{comes_first, to_chars};
use crate::types::{Embedding, Id};

verus! {

// ---------------------------------------------------------------------------
// The vectors of a collection by id
// ---------------------------------------------------------------------------

/// A live record's vector.
#[derive(Debug)]
pub struct Entry {
    pub id: Id,
    pub chars: Vec<char>,
    pub vector: Embedding,
}

impl Ordered for Entry {
    open spec fn before(self, other: Self) -> bool {
        text::not_after(self.chars@, other.chars@)
    }

    proof fn order_is_total(a: Self, b: Self) {
        text::text_order_is_total(a.chars@, b.chars@);
    }

    proof fn order_is_transitive(a: Self, b: Self, c: Self) {
        text::text_order_is_transitive(a.chars@, b.chars@, c.chars@);
    }

    fn goes_before(&self, other: &Self) -> (r: bool) {
        comes_first(&self.chars, &other.chars)
    }
}

/// Whether ids stand in ascending order, each once.
pub open spec fn ascending(ids: Seq<Seq<char>>) -> bool {
    forall|i: int, j: int|
        0 <= i < j < ids.len() ==> text::not_after(#[trigger] ids[i], #[trigger] ids[j]) && ids[i] != ids[j]
}

/// The ids of entries.
pub open spec fn entry_ids(entries: Seq<Entry>) -> Seq<Seq<char>> {
    Seq::new(entries.len(), |i: int| entries[i].id@)
}

/// Whether entries are all the vectors of live records, in ascending order of
/// the ids.
pub open spec fn lists_vectors(entries: Seq<Entry>, s: CollectionState, file: Seq<Seq<u32>>) -> bool {
    &&& ascending(entry_ids(entries))
    &&& forall|i: int|
        0 <= i < entries.len() ==> query::vector_of(s, file, (#[trigger] entries[i]).id@) == Some(
            entries[i].vector@,
        )
    &&& forall|id: Seq<char>|
        query::vector_of(s, file, id) is Some ==> #[trigger] entry_ids(entries).contains(id)
}

impl Collection {
    /// The vectors of all live records that have one, in ascending order of the
    /// ids.
    fn vectors_by_id(&self, file: Option<Mapped>) -> (r: Vec<Entry>)
        requires
            self.wf(),
        ensures
            lists_vectors(r@, self@, query::on_file(file)),
            r@.len() <= self@.records.dom().len(),
    {
        let n: usize = self.records.len();
        let entries: &Vec<(String, Record)> = self.records.entries();
        let ghost vs = query::on_file(file);
        proof {
            idmap::lemma_count(entries@);
            assert(self@.records.dom() =~= self.records@.dom());
        }
        let mut out: Vec<Entry> = Vec::new();
        let ghost mut from: Seq<int> = Seq::empty();
        let mut i: usize = 0;
        while i < entries.len()
            invariant
                i <= entries.len(),
                self.wf(),
                vs == query::on_file(file),
                idmap::names_distinct(entries@),
                self.records@ == idmap::map_of(entries@),
                out@.len() <= i,
                from.len() == out@.len(),
                forall|j: int| 0 <= j < from.len() ==> 0 <= #[trigger] from[j] < i && out@[j].id@
                    == entries@[from[j]].0@,
                forall|j: int, k: int| 0 <= j < k < from.len() ==> #[trigger] from[j] < #[trigger] from[k],
                forall|j: int|
                    0 <= j < out@.len() ==> (#[trigger] out@[j]).chars@ == out@[j].id@ && query::vector_of(
                        self@,
                        vs,
                        out@[j].id@,
                    ) == Some(out@[j].vector@),
                forall|j: int|
                    0 <= j < i && query::vector_of(self@, vs, (#[trigger] entries@[j]).0@) is Some
                        ==> entry_ids(out@).contains(entries@[j].0@),
            decreases entries.len() - i,
        {
            let id: &str = entries[i].0.as_str();
            let ghost before = out@;
            match self.load_vector(file, id) {
                Some(vector) => {
                    out.push(Entry { id: id.to_owned(), chars: to_chars(id), vector });
                    proof {
                        from = from.push(i as int);
                        assert forall|t: Seq<char>| entry_ids(before).contains(t) implies entry_ids(
                            out@,
                        ).contains(t) by {
                            let j = choose|j: int| 0 <= j < before.len() && entry_ids(before)[j] == t;
                            assert(entry_ids(out@)[j] == t);
                        }
                        assert(entry_ids(out@)[out@.len() - 1] == id@);
                    }
                },
                None => {},
            }
            i += 1;
        }
        let ghost loose = out@;
        proof {
            assert forall|j: int, k: int| 0 <= j < loose.len() && 0 <= k < loose.len() && j
                != k implies loose[j].id@ != loose[k].id@ by {
                assert(from[j] != from[k]) by {
                    if j < k {
                        assert(from[j] < from[k]);
                    } else {
                        assert(from[k] < from[j]);
                    }
                }
                assert(entries@[from[j]].0@ == loose[j].id@);
                assert(entries@[from[k]].0@ == loose[k].id@);
            }
            assert(loose.no_duplicates());
        }
        let r: Vec<Entry> = sorted(out);
        proof {
            sort::lemma_same_members(loose, r@);
            assert forall|i: int, j: int| 0 <= i < j < r@.len() implies text::not_after(
                #[trigger] entry_ids(r@)[i],
                #[trigger] entry_ids(r@)[j],
            ) && entry_ids(r@)[i] != entry_ids(r@)[j] by {
                assert(r@[i].before(r@[j]));
                assert(loose.contains(r@[i]) && loose.contains(r@[j]));
                let a = choose|a: int| 0 <= a < loose.len() && loose[a] == r@[i];
                let b = choose|b: int| 0 <= b < loose.len() && loose[b] == r@[j];
                assert(r@[i] != r@[j]);
                assert(a != b);
            }
            assert forall|i: int| 0 <= i < r@.len() implies query::vector_of(
                self@,
                vs,
                (#[trigger] r@[i]).id@,
            ) == Some(r@[i].vector@) by {
                assert(loose.contains(r@[i]));
            }
            assert forall|id: Seq<char>| query::vector_of(self@, vs, id) is Some implies #[trigger] entry_ids(
                r@,
            ).contains(id) by {
                assert(self.records@.contains_key(id));
                assert(idmap::named(entries@, id));
                let j = idmap::spot(entries@, id);
                assert(entries@[j].0@ == id);
                assert(entry_ids(loose).contains(id));
                let a = choose|a: int| 0 <= a < loose.len() && entry_ids(loose)[a] == id;
                assert(r@.contains(loose[a]));
                let b = choose|b: int| 0 <= b < r@.len() && r@[b] == loose[a];
                assert(entry_ids(r@)[b] == id);
            }
        }
        r
    }
}

// ---------------------------------------------------------------------------
// Rebuilding the graph index
// ---------------------------------------------------------------------------

/// Whether labels are those of an index that was built from the first `n` of
/// the entries, in their order.
pub open spec fn numbers(labels: LabelsView, entries: Seq<Entry>, n: nat) -> bool {
    &&& labels.next_label == n
    &&& forall|id: Seq<char>|
        #[trigger] labels.labels.contains_key(id) <==> exists|i: int|
            0 <= i < n && (#[trigger] entries[i]).id@ == id
    &&& forall|i: int|
        0 <= i < n ==> labels.labels.contains_key((#[trigger] entries[i]).id@) && labels.labels[entries[i].id@]
            == i
}

/// Whether changes put the vectors of the first `n` entries into an empty
/// graph, in their order.
pub open spec fn inserts(changes: Seq<GraphChange>, entries: Seq<Entry>, n: nat) -> bool {
    &&& changes.len() == n
    &&& forall|i: int|
        0 <= i < n ==> (#[trigger] changes[i])@ == (ChangeView::Insert {
            label: i as u64,
            vector: entries[i].vector@,
        })
}

/// The outcome of a rebuild: the entries it was made from, the changes for an
/// empty graph, and the error that stopped it, if one did.
#[derive(Debug)]
pub struct Rebuild {
    pub entries: Vec<Entry>,
    pub changes: Vec<GraphChange>,
    pub error: Option<IndexError>,
}

/// What a rebuild makes of a collection's state: all vectors in order of the
/// ids, up to the first that does not have the collection's dimension.
pub open spec fn rebuilt(a: CollectionState, file: Seq<Seq<u32>>, r: Rebuild, b: CollectionState) -> bool {
    let n = r.changes@.len();
    let d = a.config.dimension;
    &&& lists_vectors(r.entries@, a, file)
    &&& n <= r.entries@.len()
    &&& inserts(r.changes@, r.entries@, n)
    &&& forall|i: int| 0 <= i < n ==> (#[trigger] r.entries@[i]).vector@.len() == d
    &&& r.error is None <==> n == r.entries@.len()
    &&& r.error is Some ==> r.entries@[n as int].vector@.len() != d && r.error == Some(
        IndexError::DimensionMismatch { index: d, got: r.entries@[n as int].vector@.len() as usize },
    )
    &&& numbers(b.labels, r.entries@, n)
    &&& b.labels.space == a.config.space
    &&& b.labels.dimension == d
    &&& b == (CollectionState { labels: b.labels, ..a })
}

/// A state stays sound when its records get other labels.
proof fn lemma_relabelled(a: CollectionState, b: CollectionState)
    requires
        collection::sound(a),
        b == (CollectionState { labels: b.labels, ..a }),
        index::labels_distinct(b.labels),
        forall|k: Seq<char>| #[trigger] b.labels.labels.contains_key(k) ==> b.records.contains_key(k),
    ensures
        collection::sound(b),
{
}

impl Collection {
    /// Gives all vectors new labels, for a graph that is built anew. This is
    /// how the space of deleted vectors is reclaimed.
    pub fn rebuild_index(&mut self, file: Option<Mapped>) -> (r: Rebuild)
        requires
            old(self).wf(),
        ensures
            final(self).wf(),
            rebuilt(old(self)@, query::on_file(file), r, final(self)@),
    {
        let entries: Vec<Entry> = self.vectors_by_id(file);
        let ghost vs = query::on_file(file);
        let mut labels: LabelMap = LabelMap::new(self.config.space, self.config.dimension);
        let mut out: Vec<GraphChange> = Vec::new();
        let mut error: Option<IndexError> = None;
        let mut i: usize = 0;
        while i < entries.len() && error.is_none()
            invariant
                i <= entries.len(),
                labels.wf(),
                labels@.space == self@.config.space,
                labels@.dimension == self@.config.dimension,
                lists_vectors(entries@, self@, vs),
                out@.len() <= entries@.len(),
                error is None ==> out@.len() == i,
                error is Some ==> out@.len() < entries@.len() && entries@[out@.len() as int].vector@.len()
                    != self@.config.dimension && error == Some(
                    IndexError::DimensionMismatch {
                        index: self@.config.dimension,
                        got: entries@[out@.len() as int].vector@.len() as usize,
                    },
                ),
                inserts(out@, entries@, out@.len()),
                forall|j: int|
                    0 <= j < out@.len() ==> (#[trigger] entries@[j]).vector@.len() == self@.config.dimension,
                numbers(labels@, entries@, out@.len()),
            decreases entries.len() - i,
        {
            let ghost before = labels@;
            let ghost id = entries@[i as int].id@;
            proof {
                if before.labels.contains_key(id) {
                    let j = choose|j: int| 0 <= j < i && (#[trigger] entries@[j]).id@ == id;
                    assert(entry_ids(entries@)[j] != entry_ids(entries@)[i as int]);
                }
            }
            match labels.add(entries[i].id.as_str(), entries[i].vector.len()) {
                Ok(label) => {
                    out.push(GraphChange::Insert { label, vector: clone_vector(&entries[i].vector) });
                    proof {
                        assert forall|k: Seq<char>|
                            #[trigger] labels@.labels.contains_key(k) <==> exists|j: int|
                                0 <= j < i + 1 && (#[trigger] entries@[j]).id@ == k by {
                            if before.labels.contains_key(k) {
                                let j = choose|j: int| 0 <= j < i && (#[trigger] entries@[j]).id@ == k;
                                assert(entries@[j].id@ == k);
                            }
                            if k == id {
                                assert(entries@[i as int].id@ == k);
                            }
                        }
                        assert forall|j: int| 0 <= j < i + 1 implies labels@.labels.contains_key(
                            (#[trigger] entries@[j]).id@,
                        ) && labels@.labels[entries@[j].id@] == j by {
                            if j < i {
                                assert(entry_ids(entries@)[j] != entry_ids(entries@)[i as int]);
                            }
                        }
                    }
                },
                Err(e) => {
                    error = Some(e);
                },
            }
            i += 1;
        }
        let ghost start = self@;
        self.labels = labels;
        proof {
            self.labels.lemma_distinct();
            let end = self@;
            assert forall|a: Seq<char>| #[trigger] end.labels.labels.contains_key(a) implies end.records.contains_key(
                a,
            ) by {
                let j = choose|j: int| 0 <= j < out@.len() && (#[trigger] entries@[j]).id@ == a;
                assert(query::vector_of(start, vs, entries@[j].id@) is Some);
            }
            lemma_relabelled(start, end);
        }
        Rebuild { entries, changes: out, error }
    }
}

// ---------------------------------------------------------------------------
// Taking a checkpoint
// ---------------------------------------------------------------------------

/// The head of a checkpoint.
#[derive(Debug, Clone, Copy, PartialEq, Eq, Structural)]
pub struct CheckpointMeta {
    /// Highest sequence number that had reached the graph index.
    pub flushed_seq: u64,
    /// Sequence number that the log goes on with.
    pub next_seq: u64,
    /// Number of records.
    pub record_count: u64,
}

/// A segment file that is to be written, and the place of each record in it.
pub struct SegmentPlan {
    pub image: Vec<u8>,
    pub index: IdMap<usize>,
}

/// What a checkpoint has to write.
pub struct CheckpointPlan {
    pub meta: CheckpointMeta,
    /// Whether there is an index to save; if not, an older one is to go.
    pub save_index: bool,
    /// The vectors; if there are none, an older segment is to go.
    pub segment: Option<SegmentPlan>,
}

/// Whether all vectors can go into one segment file.
pub open spec fn storable(s: CollectionState, file: Seq<Seq<u32>>) -> bool {
    &&& s.config.dimension <= u32::MAX
    &&& s.records.dom().len() <= u32::MAX
    &&& 32 + 4 * (s.records.dom().len() * s.config.dimension) <= usize::MAX
    &&& forall|id: Seq<char>|
        (#[trigger] query::vector_of(s, file, id)) matches Some(v) ==> v.len() == s.config.dimension
}

/// The vectors of a segment file's bytes, none where they are no segment.
pub open spec fn image_vectors(image: Seq<u8>) -> Seq<Seq<u32>> {
    match segment::segment_read(image) {
        Ok(h) => segment::vectors_in(image, h),
        Err(_) => Seq::empty(),
    }
}

/// Whether a segment holds all vectors of a collection, each at its record's
/// place.
pub open spec fn holds_vectors(p: SegmentPlan, s: CollectionState, file: Seq<Seq<u32>>) -> bool {
    let vs = image_vectors(p.image@);
    &&& p.index.wf()
    &&& segment::segment_read(p.image@) is Ok
    &&& forall|id: Seq<char>|
        #[trigger] p.index@.contains_key(id) <==> query::vector_of(s, file, id) is Some
    &&& forall|id: Seq<char>|
        #[trigger] p.index@.contains_key(id) ==> p.index@[id] < vs.len() && Some(vs[p.index@[id] as int])
            == query::vector_of(s, file, id)
}

/// The numbers of entries, end to end.
spec fn flat_of(entries: Seq<Entry>) -> Seq<u32>
    decreases entries.len(),
{
    if entries.len() == 0 {
        Seq::empty()
    } else {
        flat_of(entries.drop_last()) + entries.last().vector@
    }
}

proof fn lemma_flat(entries: Seq<Entry>, d: nat, i: int)
    requires
        forall|j: int| 0 <= j < entries.len() ==> (#[trigger] entries[j]).vector@.len() == d,
        0 <= i < entries.len(),
    ensures
        flat_of(entries).len() == entries.len() * d,
        i * d + d <= entries.len() * d,
        0 <= i * d,
        flat_of(entries).subrange(i * d, i * d + d) == entries[i].vector@,
    decreases entries.len(),
{
    let n = entries.len() as int;
    let rest = entries.drop_last();
    assert(0 <= i * d && i * d + d <= n * d && (n - 1) * d + d == n * d) by (nonlinear_arith)
        requires
            0 <= i < n,
            d >= 0,
    ;
    assert forall|j: int| 0 <= j < rest.len() implies (#[trigger] rest[j]).vector@.len() == d by {
        assert(rest[j] == entries[j]);
    }
    if n == 1 {
        assert(flat_of(rest).len() == 0);
        assert(flat_of(entries) =~= entries[0].vector@);
        assert(0 * d == 0);
        assert(1 * d == d);
    } else {
        lemma_flat(rest, d, if i < n - 1 {
            i
        } else {
            0
        });
        let f = flat_of(rest);
        assert(flat_of(entries) == f + entries.last().vector@);
        if i < n - 1 {
            assert(rest[i] == entries[i]);
            assert(flat_of(entries).subrange(i * d, i * d + d) =~= f.subrange(i * d, i * d + d));
        } else {
            assert(flat_of(entries).subrange(i * d, i * d + d) =~= entries.last().vector@);
        }
    }
}

/// Writes entries into a segment.
fn write_segment(entries: &Vec<Entry>, dimension: usize) -> (r: SegmentPlan)
    requires
        entries@.len() > 0,
        entries@.len() <= u32::MAX,
        dimension <= u32::MAX,
        32 + 4 * (entries@.len() * dimension) <= usize::MAX,
        ascending(entry_ids(entries@)),
        forall|i: int| 0 <= i < entries@.len() ==> (#[trigger] entries@[i]).vector@.len() == dimension,
    ensures
        r.index.wf(),
        segment::segment_read(r.image@) is Ok,
        forall|id: Seq<char>| #[trigger] r.index@.contains_key(id) <==> entry_ids(entries@).contains(id),
        forall|i: int|
            #![trigger entries@[i]]
            0 <= i < entries@.len() ==> r.index@.contains_key(entries@[i].id@) && r.index@[entries@[i].id@]
                == i && i < image_vectors(r.image@).len() && image_vectors(r.image@)[i]
                == entries@[i].vector@,
{
    let mut writer: SegmentWriter = SegmentWriter::new(dimension);
    let mut index: IdMap<usize> = IdMap::new();
    let mut i: usize = 0;
    assert(entries@.take(0) =~= Seq::<Entry>::empty());
    while i < entries.len()
        invariant
            i <= entries.len(),
            entries@.len() <= u32::MAX,
            dimension <= u32::MAX,
            ascending(entry_ids(entries@)),
            forall|i: int|
                0 <= i < entries@.len() ==> (#[trigger] entries@[i]).vector@.len() == dimension,
            writer.wf(),
            writer@.dimension == dimension,
            writer@.count == i,
            writer@.flat == flat_of(entries@.take(i as int)),
            index.wf(),
            forall|id: Seq<char>|
                #[trigger] index@.contains_key(id) <==> exists|j: int|
                    0 <= j < i && (#[trigger] entries@[j]).id@ == id,
            forall|j: int|
                0 <= j < i ==> index@.contains_key((#[trigger] entries@[j]).id@) && index@[entries@[j].id@]
                    == j,
        decreases entries.len() - i,
    {
        let ghost before = index@;
        let ghost id = entries@[i as int].id@;
        proof {
            assert(entries@.take(i + 1).drop_last() =~= entries@.take(i as int));
            assert(entries@.take(i + 1).last() == entries@[i as int]);
        }
        writer.push(entries[i].vector.as_slice());
        index.insert(entries[i].id.clone(), i);
        proof {
            assert forall|k: Seq<char>|
                #[trigger] index@.contains_key(k) <==> exists|j: int|
                    0 <= j < i + 1 && (#[trigger] entries@[j]).id@ == k by {
                if before.contains_key(k) {
                    let j = choose|j: int| 0 <= j < i && (#[trigger] entries@[j]).id@ == k;
                    assert(entries@[j].id@ == k);
                }
                if k == id {
                    assert(entries@[i as int].id@ == k);
                }
            }
            assert forall|j: int| 0 <= j < i + 1 implies index@.contains_key((#[trigger] entries@[j]).id@)
                && index@[entries@[j].id@] == j by {
                if j < i {
                    assert(entry_ids(entries@)[j] != entry_ids(entries@)[i as int]);
                }
            }
        }
        i += 1;
    }
    proof {
        assert(entries@.take(entries@.len() as int) =~= entries@);
        lemma_flat(entries@, dimension as nat, 0);
        segment::written_segment_opens(writer@.dimension, writer@.count, writer@.flat);
    }
    let image: Vec<u8> = writer.finish();
    proof {
        assert forall|i: int|
            #![trigger entries@[i]]
            0 <= i < entries@.len() implies i < image_vectors(image@).len() && image_vectors(image@)[i]
            == entries@[i].vector@ by {
            lemma_flat(entries@, dimension as nat, i);
            segment::written_vectors_are_read_back(
                writer@.dimension,
                writer@.count,
                writer@.flat,
                i as nat,
            );
        }
        assert forall|id: Seq<char>|
            #[trigger] index@.contains_key(id) <==> entry_ids(entries@).contains(id) by {
            if index@.contains_key(id) {
                let j = choose|j: int| 0 <= j < entries@.len() && (#[trigger] entries@[j]).id@ == id;
                assert(entry_ids(entries@)[j] == id);
            }
            if entry_ids(entries@).contains(id) {
                let j = choose|j: int| 0 <= j < entries@.len() && entry_ids(entries@)[j] == id;
                assert(entries@[j].id@ == id);
            }
        }
    }
    SegmentPlan { image, index }
}

impl Collection {
    /// Whether all vectors can go into one segment file: each must have the
    /// dimension of the collection.
    pub fn is_storable(&self, file: Option<Mapped>) -> (r: bool)
        requires
            self.wf(),
        ensures
            r == storable(self@, query::on_file(file)),
    {
        let d: usize = self.config.dimension;
        let n: usize = self.records.len();
        proof {
            assert(self@.records.dom() =~= self.records@.dom());
        }
        if d as u64 > u32::MAX as u64 || n as u64 > u32::MAX as u64 {
            return false;
        }
        assert(0 <= n * d <= 0xffff_ffff * 0xffff_ffff) by (nonlinear_arith)
            requires
                n <= 0xffff_ffff,
                d <= 0xffff_ffff,
        ;
        let size: u128 = 32 + 4 * (n as u128 * d as u128);
        if size > usize::MAX as u128 {
            return false;
        }
        let entries: Vec<Entry> = self.vectors_by_id(file);
        let ghost vs = query::on_file(file);
        let mut i: usize = 0;
        while i < entries.len()
            invariant
                i <= entries.len(),
                d == self@.config.dimension,
                lists_vectors(entries@, self@, vs),
                vs == query::on_file(file),
                forall|j: int| 0 <= j < i ==> (#[trigger] entries@[j]).vector@.len() == d,
            decreases entries.len() - i,
        {
            if entries[i].vector.len() != d {
                assert(query::vector_of(self@, vs, entries@[i as int].id@) is Some);
                return false;
            }
            i += 1;
        }
        proof {
            assert forall|id: Seq<char>| true implies ((#[trigger] query::vector_of(self@, vs, id)) matches Some(
                v,
            ) ==> v.len() == d) by {
                if query::vector_of(self@, vs, id) is Some {
                    assert(entry_ids(entries@).contains(id));
                    let j = choose|j: int| 0 <= j < entries@.len() && entry_ids(entries@)[j] == id;
                    assert(entries@[j].id@ == id);
                }
            }
        }
        true
    }

    /// Plans a checkpoint. A collection without records has nothing to save.
    pub fn plan_checkpoint(&self, file: Option<Mapped>, last_seq: u64) -> (r: Option<CheckpointPlan>)
        requires
            self.wf(),
            last_seq < u64::MAX,
            storable(self@, query::on_file(file)),
        ensures
            r is None <==> self@.records == Map::<Seq<char>, RecordState>::empty(),
            r matches Some(p) ==> {
                &&& p.meta.flushed_seq == self@.flushed_seq
                &&& p.meta.next_seq == last_seq + 1
                &&& p.meta.record_count == self@.records.dom().len()
                &&& p.save_index <==> self@.labels.labels.dom().len() > 0
                &&& p.segment is None <==> forall|id: Seq<char>|
                    #[trigger] query::vector_of(self@, query::on_file(file), id) is None
                &&& p.segment matches Some(g) ==> holds_vectors(g, self@, query::on_file(file))
            },
    {
        let n: usize = self.records.len();
        let ghost vs = query::on_file(file);
        proof {
            assert(self@.records.dom() =~= self.records@.dom());
        }
        if self.records.is_empty() {
            assert(self@.records =~= Map::<Seq<char>, RecordState>::empty());
            return None;
        }
        proof {
            if self@.records == Map::<Seq<char>, RecordState>::empty() {
                assert(self.records@ =~= Map::<Seq<char>, Record>::empty());
            }
        }
        let meta = CheckpointMeta {
            flushed_seq: self.flushed_seq,
            next_seq: last_seq + 1,
            record_count: n as u64,
        };
        let entries: Vec<Entry> = self.vectors_by_id(file);
        let segment: Option<SegmentPlan> = if entries.len() > 0 {
            let d: usize = self.config.dimension;
            proof {
                let k = entries@.len() as int;
                let m = self@.records.dom().len() as int;
                let dd = d as int;
                assert(k * dd <= m * dd) by (nonlinear_arith)
                    requires
                        k <= m,
                        dd >= 0,
                ;
                assert forall|i: int| 0 <= i < entries@.len() implies (#[trigger] entries@[i]).vector@.len()
                    == d by {
                    assert(query::vector_of(self@, vs, entries@[i].id@) is Some);
                }
            }
            let g: SegmentPlan = write_segment(&entries, d);
            proof {
                assert(query::vector_of(self@, vs, entries@[0].id@) is Some);
                assert forall|id: Seq<char>|
                    #[trigger] g.index@.contains_key(id) <==> query::vector_of(self@, vs, id) is Some by {
                    if g.index@.contains_key(id) {
                        assert(entry_ids(entries@).contains(id));
                        let j = choose|j: int| 0 <= j < entries@.len() && entry_ids(entries@)[j] == id;
                        assert(query::vector_of(self@, vs, entries@[j].id@) is Some);
                    }
                }
                assert forall|id: Seq<char>| #[trigger] g.index@.contains_key(id) implies g.index@[id]
                    < image_vectors(g.image@).len() && Some(image_vectors(g.image@)[g.index@[id] as int])
                    == query::vector_of(self@, vs, id) by {
                    assert(entry_ids(entries@).contains(id));
                    let j = choose|j: int| 0 <= j < entries@.len() && entry_ids(entries@)[j] == id;
                    assert(entries@[j].id@ == id);
                }
            }
            Some(g)
        } else {
            proof {
                assert forall|id: Seq<char>| #[trigger] query::vector_of(self@, vs, id) is None by {
                    if query::vector_of(self@, vs, id) is Some {
                        assert(entry_ids(entries@).contains(id));
                    }
                }
            }
            None
        };
        Some(CheckpointPlan { meta, save_index: self.labels.len() > 0, segment })
    }

    /// Whether the log has grown so far beyond the last checkpoint that one is
    /// due.
    pub fn checkpoint_due(&self, last_seq: u64) -> (r: bool)
        requires
            self.wf(),
        ensures
            r <==> self@.records != Map::<Seq<char>, RecordState>::empty() && (if last_seq
                > self@.last_checkpoint_seq {
                last_seq - self@.last_checkpoint_seq
            } else {
                0
            }) >= self@.config.hnsw.sync_threshold,
    {
        proof {
            if self@.records == Map::<Seq<char>, RecordState>::empty() {
                assert(self@.records.dom() =~= self.records@.dom());
                assert(self.records@ =~= Map::<Seq<char>, Record>::empty());
            }
        }
        if self.records.is_empty() {
            assert(self@.records =~= Map::<Seq<char>, RecordState>::empty());
            return false;
        }
        let grown: u64 = if last_seq > self.last_checkpoint_seq {
            last_seq - self.last_checkpoint_seq
        } else {
            0
        };
        grown >= self.config.hnsw.sync_threshold as u64
    }
}

// ---------------------------------------------------------------------------
// Leaving vectors to the segment file
// ---------------------------------------------------------------------------

/// Whether the segment file holds the vector that a record has in memory, at
/// the record's place.
pub open spec fn on_place(s: CollectionState, file: Seq<Seq<u32>>, id: Seq<char>) -> bool {
    &&& s.stored.contains_key(id)
    &&& s.stored[id] < file.len()
    &&& s.records[id].embedding == Some(file[s.stored[id] as int])
}

/// A record's state without its vector where the segment file covers it: if it
/// is no newer than the watermark, does not wait for the graph index, and the
/// file holds its vector.
pub open spec fn lightened(s: CollectionState, file: Seq<Seq<u32>>, id: Seq<char>) -> RecordState {
    if s.records[id].seq <= s.flushed_seq && !query::is_buffered(s, id) && on_place(s, file, id) {
        RecordState { embedding: None, ..s.records[id] }
    } else {
        s.records[id]
    }
}

/// The records without the vectors that the segment file covers.
pub open spec fn lightened_records(s: CollectionState, file: Seq<Seq<u32>>) -> Map<
    Seq<char>,
    RecordState,
> {
    Map::new(|id: Seq<char>| s.records.contains_key(id), |id: Seq<char>| lightened(s, file, id))
}

/// The places of live records.
pub open spec fn live_places(index: Map<Seq<char>, usize>, offsets: Map<Seq<char>, u32>) -> Map<
    Seq<char>,
    usize,
> {
    Map::new(
        |id: Seq<char>| index.contains_key(id) && offsets.contains_key(id),
        |id: Seq<char>| index[id],
    )
}

/// The vectors of a checkpoint's segment file, none where there is no file.
pub open spec fn planned_vectors(segment: Option<SegmentPlan>) -> Seq<Seq<u32>> {
    match segment {
        Some(p) => image_vectors(p.image@),
        None => Seq::empty(),
    }
}

/// A state with a checkpoint's segment file in use, its vectors still in
/// memory.
pub open spec fn pointed(s: CollectionState, segment: Option<SegmentPlan>) -> CollectionState {
    CollectionState {
        stored: (match segment {
            Some(p) => live_places(p.index@, s.offsets),
            None => Map::empty(),
        }),
        last_checkpoint_seq: s.flushed_seq,
        ..s
    }
}

/// A state after a checkpoint was taken.
pub open spec fn checkpointed(s: CollectionState, segment: Option<SegmentPlan>) -> CollectionState {
    let p = pointed(s, segment);
    CollectionState { records: lightened_records(p, planned_vectors(segment)), ..p }
}

/// A state stays sound when vectors move to the segment file.
proof fn lemma_lightened(a: CollectionState, file: Seq<Seq<u32>>, b: CollectionState)
    requires
        collection::sound(a),
        b == (CollectionState { records: lightened_records(a, file), ..a }),
    ensures
        collection::sound(b),
{
    assert(collection::store_of(b.records, b.offsets) =~= collection::store_of(a.records, a.offsets)) by {
        assert forall|o: u32| #[trigger] collection::in_use(a.offsets, o) implies b.records[collection::at_offset(
            a.offsets,
            o,
        )].metadata == a.records[collection::at_offset(a.offsets, o)].metadata by {
            let id = collection::at_offset(a.offsets, o);
            assert(a.offsets.contains_key(id));
            assert(a.records.contains_key(id));
        }
    }
    assert forall|i: int| 0 <= i < b.buffer.len() implies collection::waiting(
        #[trigger] b.buffer[i],
        b.records,
    ) by {
        assert(collection::waiting(a.buffer[i], a.records));
        assert(query::is_buffered(a, a.buffer[i].0));
    }
    assert forall|k: Seq<char>| #[trigger] b.records.contains_key(k) && !b.offsets.contains_key(
        k,
    ) implies b.records[k].metadata is None && b.records[k].embedding is None && !b.stored.contains_key(
        k,
    ) by {
        assert(a.records.contains_key(k));
    }
}

/// A state stays sound when live records with an offset get other places.
proof fn lemma_replaced(a: CollectionState, b: CollectionState)
    requires
        collection::sound(a),
        b == (CollectionState {
            stored: b.stored,
            last_checkpoint_seq: b.last_checkpoint_seq,
            ..a
        }),
        forall|k: Seq<char>| #[trigger] b.stored.contains_key(k) ==> b.offsets.contains_key(k),
    ensures
        collection::sound(b),
{
}

/// Whether two vectors are the same, bit for bit.
fn same_vector(a: &Embedding, b: &Embedding) -> (r: bool)
    ensures
        r == (a@ == b@),
{
    if a.len() != b.len() {
        return false;
    }
    let mut i: usize = 0;
    while i < a.len()
        invariant
            i <= a.len(),
            a.len() == b.len(),
            forall|j: int| 0 <= j < i ==> a@[j] == b@[j],
        decreases a.len() - i,
    {
        if a[i] != b[i] {
            return false;
        }
        i += 1;
    }
    assert(a@ =~= b@);
    true
}

impl Collection {
    /// Whether the segment file holds the vector that a record has in memory.
    fn is_on_place(&self, file: Option<Mapped>, record: &Record) -> (r: bool)
        requires
            self.wf(),
            self@.records.contains_key(record.id@),
            self@.records[record.id@] == record@,
        ensures
            r == on_place(self@, query::on_file(file), record.id@),
    {
        match (&record.embedding, self.stored.get(record.id.as_str()), file) {
            (Some(e), Some(at), Some(m)) => match m.get(*at) {
                Some(v) => same_vector(e, &v),
                None => false,
            },
            _ => false,
        }
    }

    /// Forgets the vectors that the segment file covers.
    #[verifier::rlimit(40)]
    fn lighten(&mut self, file: Option<Mapped>)
        requires
            old(self).wf(),
        ensures
            final(self).wf(),
            final(self)@ == (CollectionState {
                records: lightened_records(old(self)@, query::on_file(file)),
                ..old(self)@
            }),
    {
        let ghost s = self@;
        let ghost vs = query::on_file(file);
        let mut kept: IdMap<bool> = IdMap::new();
        let mut i: usize = 0;
        while i < self.buffer.len()
            invariant
                i <= self.buffer.len(),
                s == self@,
                kept.wf(),
                forall|id: Seq<char>|
                    #[trigger] kept@.contains_key(id) <==> exists|j: int|
                        0 <= j < i && (#[trigger] s.buffer[j]).0 == id,
            decreases self.buffer.len() - i,
        {
            let ghost before = kept@;
            let ghost id = s.buffer[i as int].0;
            kept.insert(self.buffer[i].id.clone(), true);
            proof {
                assert forall|k: Seq<char>|
                    #[trigger] kept@.contains_key(k) <==> exists|j: int|
                        0 <= j < i + 1 && (#[trigger] s.buffer[j]).0 == k by {
                    if before.contains_key(k) {
                        let j = choose|j: int| 0 <= j < i && (#[trigger] s.buffer[j]).0 == k;
                        assert(s.buffer[j].0 == k);
                    }
                    if k == id {
                        assert(s.buffer[i as int].0 == k);
                    }
                }
            }
            i += 1;
        }
        let mut fresh: IdMap<Record> = IdMap::new();
        let entries: &Vec<(String, Record)> = self.records.entries();
        let mut i: usize = 0;
        while i < entries.len()
            invariant
                i <= entries.len(),
                self.wf(),
                s == self@,
                vs == query::on_file(file),
                kept.wf(),
                forall|id: Seq<char>|
                    #[trigger] kept@.contains_key(id) <==> query::is_buffered(s, id),
                idmap::names_distinct(entries@),
                self.records@ == idmap::map_of(entries@),
                fresh.wf(),
                forall|id: Seq<char>|
                    #[trigger] fresh@.contains_key(id) ==> s.records.contains_key(id) && fresh@[id]@
                        == lightened(s, vs, id) && fresh@[id].id@ == id,
                forall|j: int| 0 <= j < i ==> fresh@.contains_key((#[trigger] entries@[j]).0@),
            decreases entries.len() - i,
        {
            let id: &str = entries[i].0.as_str();
            let record: &Record = &entries[i].1;
            proof {
                idmap::lemma_named_entry(entries@, i as int);
                assert(self.records@.contains_key(id@) && self.records@[id@] == *record);
                assert(s.records.contains_key(id@) && s.records[id@] == record@);
                assert(record.id@ == id@);
            }
            let mut copy: Record = record.copy();
            if record.seq <= self.flushed_seq && !kept.contains_key(id) && self.is_on_place(file, record) {
                copy.embedding = None;
            }
            assert(copy@ == lightened(s, vs, id@));
            fresh.insert(id.to_owned(), copy);
            i += 1;
        }
        proof {
            assert(collection::record_states(fresh@) =~= lightened_records(s, vs)) by {
                assert forall|id: Seq<char>| s.records.contains_key(id) implies fresh@.contains_key(id) by {
                    assert(self.records@.contains_key(id));
                    assert(idmap::named(entries@, id));
                    let j = idmap::spot(entries@, id);
                    assert(entries@[j].0@ == id);
                }
            }
        }
        self.records = fresh;
        proof {
            lemma_lightened(s, vs, self@);
        }
    }

    /// The places of live records.
    fn places_of_live(&self, index: &IdMap<usize>) -> (r: IdMap<usize>)
        requires
            self.offsets.wf(),
            index.wf(),
        ensures
            r.wf(),
            r@ == live_places(index@, self@.offsets),
    {
        let mut r: IdMap<usize> = IdMap::new();
        let entries: &Vec<(String, usize)> = index.entries();
        let ghost want = live_places(index@, self@.offsets);
        let mut i: usize = 0;
        while i < entries.len()
            invariant
                i <= entries.len(),
                self.offsets.wf(),
                want == live_places(index@, self@.offsets),
                idmap::names_distinct(entries@),
                index@ == idmap::map_of(entries@),
                r.wf(),
                forall|id: Seq<char>|
                    #[trigger] r@.contains_key(id) ==> want.contains_key(id) && r@[id] == want[id],
                forall|j: int|
                    0 <= j < i && want.contains_key((#[trigger] entries@[j]).0@) ==> r@.contains_key(
                        entries@[j].0@,
                    ),
            decreases entries.len() - i,
        {
            proof {
                idmap::lemma_named_entry(entries@, i as int);
            }
            if self.offsets.contains_key(entries[i].0.as_str()) {
                r.insert(entries[i].0.clone(), entries[i].1);
            }
            i += 1;
        }
        proof {
            assert(r@ =~= want) by {
                assert forall|id: Seq<char>| want.contains_key(id) implies r@.contains_key(id) by {
                    assert(idmap::named(entries@, id));
                    let j = idmap::spot(entries@, id);
                    assert(entries@[j].0@ == id);
                }
            }
        }
        r
    }

    /// Takes a checkpoint's segment file into use: its vectors need not be held
    /// in memory any more. Without vectors there is no file.
    pub fn finish_checkpoint(&mut self, segment: &Option<SegmentPlan>)
        requires
            old(self).wf(),
            segment matches Some(p) ==> p.index.wf(),
        ensures
            final(self).wf(),
            final(self)@ == checkpointed(old(self)@, *segment),
    {
        let ghost s = self@;
        let stored: IdMap<usize> = match segment {
            Some(p) => self.places_of_live(&p.index),
            None => IdMap::new(),
        };
        self.stored = stored;
        self.last_checkpoint_seq = self.flushed_seq;
        proof {
            lemma_replaced(s, self@);
        }
        let file: Option<Mapped> = match segment {
            Some(p) => match Mapped::open(p.image.as_slice()) {
                Ok(m) => Some(m),
                Err(_) => None,
            },
            None => None,
        };
        assert(query::on_file(file) == planned_vectors(*segment));
        self.lighten(file);
    }
}

// ---------------------------------------------------------------------------
// Coming back from a checkpoint
// ---------------------------------------------------------------------------

/// The records of a list by id; of several with one id the last counts.
pub open spec fn records_by_id(records: Seq<Record>) -> Map<Seq<char>, RecordState>
    decreases records.len(),
{
    if records.len() == 0 {
        Map::empty()
    } else {
        records_by_id(records.drop_last()).insert(records.last().id@, records.last()@)
    }
}

/// The labels of live records.
pub open spec fn live_labels(labels: LabelsView, records: Map<Seq<char>, RecordState>) -> LabelsView {
    LabelsView {
        labels: Map::new(
            |id: Seq<char>| labels.labels.contains_key(id) && records.contains_key(id),
            |id: Seq<char>| labels.labels[id],
        ),
        ..labels
    }
}

/// Puts records into a map by id.
fn index_records(records: &Vec<Record>) -> (m: IdMap<Record>)
    ensures
        m.wf(),
        collection::record_states(m@) == records_by_id(records@),
        forall|k: Seq<char>| #[trigger] m@.contains_key(k) ==> m@[k].id@ == k,
        m@.dom().len() <= records@.len(),
{
    let mut m: IdMap<Record> = IdMap::new();
    let mut i: usize = 0;
    assert(records@.take(0) =~= Seq::<Record>::empty());
    assert(collection::record_states(m@) =~= Map::<Seq<char>, RecordState>::empty());
    while i < records.len()
        invariant
            i <= records.len(),
            m.wf(),
            collection::record_states(m@) == records_by_id(records@.take(i as int)),
            forall|k: Seq<char>| #[trigger] m@.contains_key(k) ==> m@[k].id@ == k,
            m@.dom().finite(),
            m@.dom().len() <= i,
        decreases records.len() - i,
    {
        let copy: Record = records[i].copy();
        proof {
            assert(records@.take(i + 1).drop_last() =~= records@.take(i as int));
            assert(records@.take(i + 1).last() == records@[i as int]);
            collection::lemma_record_states_insert(m@, copy.id@, copy);
        }
        let ghost before = m@;
        m.insert(records[i].id.clone(), copy);
        assert(m@.dom() =~= before.dom().insert(copy.id@));
        i += 1;
    }
    assert(records@.take(records@.len() as int) =~= records@);
    m
}

/// Drops the labels of records that are not live.
fn drop_stray_labels(labels: &mut LabelMap, records: &IdMap<Record>)
    requires
        old(labels).wf(),
        records.wf(),
    ensures
        final(labels).wf(),
        final(labels)@ == live_labels(old(labels)@, collection::record_states(records@)),
{
    let listed: Vec<(Id, u64)> = labels.to_meta().labels;
    let ghost start = labels@;
    let mut i: usize = 0;
    while i < listed.len()
        invariant
            i <= listed.len(),
            labels.wf(),
            records.wf(),
            start == old(labels)@,
            idmap::map_of(listed@) == start.labels,
            labels@ == (LabelsView { labels: labels@.labels, ..start }),
            forall|id: Seq<char>|
                #[trigger] labels@.labels.contains_key(id) ==> start.labels.contains_key(id)
                    && labels@.labels[id] == start.labels[id],
            forall|id: Seq<char>|
                start.labels.contains_key(id) && records@.contains_key(id)
                    ==> #[trigger] labels@.labels.contains_key(id),
            forall|j: int|
                0 <= j < i && !records@.contains_key((#[trigger] listed@[j]).0@)
                    ==> !labels@.labels.contains_key(listed@[j].0@),
        decreases listed.len() - i,
    {
        if !records.contains_key(listed[i].0.as_str()) {
            labels.delete(listed[i].0.as_str());
        }
        i += 1;
    }
    proof {
        let want = live_labels(start, collection::record_states(records@));
        assert(labels@.labels =~= want.labels) by {
            assert forall|id: Seq<char>| labels@.labels.contains_key(id) implies records@.contains_key(id) by {
                assert(idmap::named(listed@, id));
                let j = idmap::spot(listed@, id);
                assert(listed@[j].0@ == id);
            }
        }
    }
}

/// Whether offsets number records from 0 on.
pub open spec fn numbered_from_zero(s: CollectionState) -> bool {
    &&& s.offsets.dom() == s.records.dom()
    &&& s.next_offset == s.records.dom().len()
    &&& forall|id: Seq<char>| #[trigger] s.offsets.contains_key(id) ==> s.offsets[id] < s.next_offset
}

impl Collection {
    /// Numbers the records of a collection that has no offsets yet, and puts
    /// their metadata into the postings.
    #[verifier::rlimit(60)]
    fn number_records(&mut self)
        requires
            old(self).records.wf(),
            old(self).offsets.wf(),
            old(self).postings.wf(),
            old(self).offsets@ == Map::<Seq<char>, u32>::empty(),
            old(self).id_by_offset@ == Map::<u32, String>::empty(),
            old(self).next_offset == 0,
            postings::mirrors(
                old(self).postings@,
                collection::store_of(old(self)@.records, old(self)@.offsets),
            ),
            old(self).records@.dom().len() <= u32::MAX,
        ensures
            *final(self) == (Collection {
                offsets: final(self).offsets,
                id_by_offset: final(self).id_by_offset,
                next_offset: final(self).next_offset,
                postings: final(self).postings,
                ..*old(self)
            }),
            final(self).offsets_agree(),
            final(self).postings.wf(),
            collection::offsets_distinct(final(self)@.offsets),
            numbered_from_zero(final(self)@),
            postings::mirrors(
                final(self).postings@,
                collection::store_of(final(self)@.records, final(self)@.offsets),
            ),
    {
        broadcast use vstd::std_specs::hash::group_hash_axioms;

        let ghost s = self@;
        let n: usize = self.records.len();
        let ghost list = self.records.listed();
        proof {
            self.records.lemma_listed();
            idmap::lemma_count(list);
        }
        let mut i: usize = 0;
        while i < n
            invariant
                i <= n,
                n == list.len(),
                n <= u32::MAX,
                s == old(self)@,
                self.records == old(self).records,
                list == self.records.listed(),
                self.records.wf(),
                idmap::names_distinct(list),
                self.records@ == idmap::map_of(list),
                *self == (Collection {
                    offsets: self.offsets,
                    id_by_offset: self.id_by_offset,
                    next_offset: self.next_offset,
                    postings: self.postings,
                    ..*old(self)
                }),
                self.offsets_agree(),
                self.postings.wf(),
                self.next_offset == i,
                collection::offsets_distinct(self@.offsets),
                forall|id: Seq<char>|
                    #[trigger] self@.offsets.contains_key(id) <==> exists|j: int|
                        0 <= j < i && (#[trigger] list[j]).0@ == id,
                postings::mirrors(
                    self.postings@,
                    collection::store_of(self@.records, self@.offsets),
                ),
            decreases n - i,
        {
            let ghost a = self@;
            let ghost id = list[i as int].0@;
            proof {
                idmap::lemma_named_entry(list, i as int);
                if a.offsets.contains_key(id) {
                    let j = choose|j: int| 0 <= j < i && (#[trigger] list[j]).0@ == id;
                    assert(list[j].0@ == list[i as int].0@);
                }
                assert(!a.offsets.contains_key(id));
                assert(!collection::in_use(a.offsets, i as u32)) by {
                    if collection::in_use(a.offsets, i as u32) {
                        let k = collection::at_offset(a.offsets, i as u32);
                        assert(a.offsets.contains_key(k) && a.offsets[k] == i);
                        assert(self.offsets@.contains_key(k));
                    }
                }
            }
            let o: u32 = i as u32;
            let entry: &(String, Record) = &self.records.entries()[i];
            let name: String = entry.0.clone();
            self.postings.insert(o, entry.1.metadata.as_ref());
            let ghost meta = s.records[id].metadata;
            proof {
                assert(s.records.contains_key(id) && s.records[id] == list[i as int].1@);
                let store = collection::store_of(a.records, a.offsets);
                assert(store.remove(o) =~= store);
                postings::insertion_mirrors_new_record(a.postings, store, o, meta);
                collection::lemma_store_put(a.records, a.offsets, id, a.records[id], o);
                assert(a.records.insert(id, a.records[id]) =~= a.records);
            }
            self.offsets.insert(name.clone(), o);
            self.id_by_offset.insert(o, name);
            self.next_offset = o + 1;
            proof {
                let b = self@;
                assert(b.offsets == a.offsets.insert(id, o));
                assert forall|k: Seq<char>|
                    #[trigger] b.offsets.contains_key(k) <==> exists|j: int|
                        0 <= j < i + 1 && (#[trigger] list[j]).0@ == k by {
                    if a.offsets.contains_key(k) {
                        let j = choose|j: int| 0 <= j < i && (#[trigger] list[j]).0@ == k;
                        assert(list[j].0@ == k);
                    }
                    if k == id {
                        assert(list[i as int].0@ == k);
                    }
                }
                assert forall|k: Seq<char>|
                    #[trigger] self.offsets@.contains_key(k) implies self.id_by_offset@.contains_key(
                    self.offsets@[k],
                ) && self.id_by_offset@[self.offsets@[k]]@ == k && self.offsets@[k] < self.next_offset by {
                    if k != id {
                        assert(a.offsets.contains_key(k));
                        assert(a.offsets[k] < i);
                    }
                }
                assert forall|q: u32| #[trigger] self.id_by_offset@.contains_key(q) implies self.offsets@.contains_key(
                    self.id_by_offset@[q]@,
                ) && self.offsets@[self.id_by_offset@[q]@] == q by {}
            }
            i += 1;
        }
        proof {
            let e = self@;
            assert(e.records.dom() =~= self.records@.dom());
            assert(e.offsets.dom() =~= e.records.dom()) by {
                assert forall|k: Seq<char>| e.records.contains_key(k) == e.offsets.contains_key(k) by {
                    if e.records.contains_key(k) {
                        assert(idmap::named(list, k));
                        let j = idmap::spot(list, k);
                        assert(list[j].0@ == k);
                    }
                    if e.offsets.contains_key(k) {
                        let j = choose|j: int| 0 <= j < n && (#[trigger] list[j]).0@ == k;
                        idmap::lemma_named_entry(list, j);
                    }
                }
            }
        }
    }

    /// A collection from a checkpoint, unless the number of records is not the
    /// one that the checkpoint was taken with. An index that could not be read
    /// is left out; of the labels and places, those of live records count. A
    /// vector leaves the memory only where the segment file holds it at the
    /// record's place, so that no damage to that file or to the places loses
    /// a vector that the records come with.
    pub fn load_checkpoint(
        config: CollectionConfig,
        meta: &CheckpointMeta,
        records: &Vec<Record>,
        labels: Option<LabelMap>,
        places: &IdMap<usize>,
        file: Option<Mapped>,
    ) -> (r: Option<Collection>)
        requires
            records@.len() <= u32::MAX,
            places.wf(),
            labels matches Some(l) ==> l.wf(),
        ensures
            r is None <==> records_by_id(records@).dom().len() != meta.record_count,
            r matches Some(c) ==> {
                let all = records_by_id(records@);
                let kept = match labels {
                    Some(l) => live_labels(l@, all),
                    None => LabelsView {
                        labels: Map::empty(),
                        next_label: 0,
                        space: config@.space,
                        dimension: config@.dimension,
                    },
                };
                let loaded = CollectionState {
                    config: config@,
                    records: all,
                    buffer: Seq::empty(),
                    labels: kept,
                    flushed_seq: meta.flushed_seq,
                    offsets: c@.offsets,
                    next_offset: c@.next_offset,
                    postings: c@.postings,
                    last_checkpoint_seq: meta.flushed_seq,
                    stored: live_places(places@, c@.offsets),
                };
                &&& c.wf()
                &&& numbered_from_zero(c@)
                &&& c@ == (CollectionState {
                    records: lightened_records(loaded, query::on_file(file)),
                    ..loaded
                })
                &&& forall|id: Seq<char>| #[trigger]
                    all.contains_key(id) && all[id].embedding is Some ==> query::vector_of(
                        c@,
                        query::on_file(file),
                        id,
                    ) == all[id].embedding
            },
    {
        let map: IdMap<Record> = index_records(records);
        let n: usize = map.len();
        let ghost all = records_by_id(records@);
        proof {
            assert(all.dom() =~= map@.dom());
        }
        if n as u64 != meta.record_count {
            return None;
        }
        let mut c: Collection = Collection::new(config);
        let ghost fresh = c@;
        proof {
            assert(c.id_by_offset@ =~= Map::<u32, String>::empty()) by {
                assert forall|o: u32| !(#[trigger] c.id_by_offset@.contains_key(o)) by {
                    if c.id_by_offset@.contains_key(o) {
                        assert(c.offsets@.contains_key(c.id_by_offset@[o]@));
                    }
                }
            }
        }
        c.records = map;
        proof {
            let store = collection::store_of(c@.records, c@.offsets);
            assert(store =~= collection::store_of(fresh.records, fresh.offsets));
        }
        c.number_records();
        c.flushed_seq = meta.flushed_seq;
        c.last_checkpoint_seq = meta.flushed_seq;
        match labels {
            Some(l) => {
                let mut l = l;
                drop_stray_labels(&mut l, &c.records);
                c.labels = l;
            },
            None => {
                assert(c@.labels.labels =~= Map::<Seq<char>, u64>::empty());
            },
        }
        c.stored = c.places_of_live(places);
        proof {
            c.labels.lemma_distinct();
            let e = c@;
            assert(e.records == all);
            assert(e.buffer =~= Seq::<(Seq<char>, RecordState)>::empty());
            assert forall|k: Seq<char>| #[trigger] e.offsets.contains_key(k) implies e.records.contains_key(k) by {
                assert(e.offsets.dom().contains(k));
            }
            assert forall|k: Seq<char>| #[trigger] e.records.contains_key(k) implies e.offsets.contains_key(k) by {
                assert(e.records.dom().contains(k));
            }
            assert(collection::sound(e));
        }
        c.lighten(file);
        Some(c)
    }
}

// ---------------------------------------------------------------------------
// Laws
// ---------------------------------------------------------------------------

/// Whether a checkpoint's segment file is as planned for a state.
pub open spec fn planned(segment: Option<SegmentPlan>, s: CollectionState, file: Seq<Seq<u32>>) -> bool {
    match segment {
        Some(p) => holds_vectors(p, s, file),
        None => forall|id: Seq<char>| #[trigger] query::vector_of(s, file, id) is None,
    }
}

/// A record's vector is the same before and after a checkpoint.
proof fn lemma_vector_kept(
    segment: Option<SegmentPlan>,
    s: CollectionState,
    file: Seq<Seq<u32>>,
    b: CollectionState,
    id: Seq<char>,
)
    requires
        collection::sound(s),
        planned(segment, s, file),
        s.records.contains_key(id),
        b.records.contains_key(id),
        b.records[id].embedding is None || b.records[id].embedding == s.records[id].embedding,
        b.stored.contains_key(id) <==> segment is Some && (segment->0).index@.contains_key(id),
        b.stored.contains_key(id) ==> b.stored[id] == (segment->0).index@[id],
    ensures
        query::vector_of(b, planned_vectors(segment), id) == query::vector_of(s, file, id),
{
    assert(query::vector_of(s, file, id) == query::vector_of(s, file, id));
}

/// Leaving vectors to the segment file changes no record, whatever the file and
/// the places are: what the file does not hold stays in memory.
pub proof fn lightening_loses_nothing(s: CollectionState, file: Seq<Seq<u32>>)
    ensures
        query::contents(
            CollectionState { records: lightened_records(s, file), ..s },
            file,
        ) == query::contents(s, file),
{
    let b = CollectionState { records: lightened_records(s, file), ..s };
    assert forall|id: Seq<char>| #[trigger] s.records.contains_key(id) implies query::contents(b, file)[id]
        == query::contents(s, file)[id] by {
        assert(b.records[id] == lightened(s, file, id));
    }
    assert(query::contents(b, file) =~= query::contents(s, file));
}

/// Taking a checkpoint changes no record: each keeps its vector, whether it
/// stays in memory or moves to the segment file.
pub proof fn checkpoint_keeps_contents(
    segment: Option<SegmentPlan>,
    s: CollectionState,
    file: Seq<Seq<u32>>,
)
    requires
        collection::sound(s),
        planned(segment, s, file),
    ensures
        query::contents(checkpointed(s, segment), planned_vectors(segment)) == query::contents(s, file),
{
    let p = pointed(s, segment);
    let vs = planned_vectors(segment);
    assert forall|id: Seq<char>| #[trigger] s.records.contains_key(id) implies query::contents(p, vs)[id]
        == query::contents(s, file)[id] by {
        lemma_has_place(segment, s, file, id);
        lemma_vector_kept(segment, s, file, p, id);
    }
    assert(query::contents(p, vs) =~= query::contents(s, file));
    lightening_loses_nothing(p, vs);
}

/// A record with a place in the segment file has an offset.
proof fn lemma_has_place(
    segment: Option<SegmentPlan>,
    s: CollectionState,
    file: Seq<Seq<u32>>,
    id: Seq<char>,
)
    requires
        collection::sound(s),
        planned(segment, s, file),
        s.records.contains_key(id),
    ensures
        segment matches Some(p) ==> (p.index@.contains_key(id) ==> s.offsets.contains_key(id)),
{
    match segment {
        Some(p) => {
            if p.index@.contains_key(id) {
                assert(query::vector_of(s, file, id) is Some);
            }
        },
        None => {},
    }
}

/// A collection that comes back from a checkpoint has the records that it was
/// taken of, with their vectors.
pub proof fn checkpoint_is_read_back(
    segment: Option<SegmentPlan>,
    s: CollectionState,
    file: Seq<Seq<u32>>,
    b: CollectionState,
)
    requires
        collection::sound(s),
        planned(segment, s, file),
        numbered_from_zero(b),
        b.stored == (match segment {
            Some(p) => live_places(p.index@, b.offsets),
            None => Map::empty(),
        }),
        b.records == lightened_records(
            CollectionState { records: query::contents(s, file), ..b },
            planned_vectors(segment),
        ),
    ensures
        query::contents(b, planned_vectors(segment)) == query::contents(s, file),
{
    let vs = planned_vectors(segment);
    let a = CollectionState { records: query::contents(s, file), ..b };
    lightening_loses_nothing(a, vs);
    assert forall|id: Seq<char>| #[trigger] s.records.contains_key(id) implies query::contents(a, vs)[id]
        == query::contents(s, file)[id] by {
        assert(query::vector_of(s, file, id) == query::vector_of(s, file, id));
    }
    assert(query::contents(a, vs) =~= query::contents(s, file));
}

/// A segment file or places that are damaged, stale or gone lose nothing: a
/// collection that comes back from its saved records has each of them, and
/// each vector that was saved.
pub proof fn damaged_segments_lose_nothing(
    saved: Map<Seq<char>, RecordState>,
    b: CollectionState,
    found: Seq<Seq<u32>>,
    id: Seq<char>,
)
    requires
        b.records == lightened_records(CollectionState { records: saved, ..b }, found),
        saved.contains_key(id),
    ensures
        query::contents(b, found).contains_key(id),
        query::contents(b, found)[id] == (RecordState {
            embedding: query::contents(b, found)[id].embedding,
            ..saved[id]
        }),
        saved[id].embedding is Some ==> query::contents(b, found)[id] == saved[id],
{
    let a = CollectionState { records: saved, ..b };
    lightening_loses_nothing(a, found);
    assert(query::contents(a, found).contains_key(id));
}

/// A run of operations acts on the records and their vectors as on plain
/// records, wherever the vectors are held.
pub proof fn runs_act_on_contents(s: CollectionState, file: Seq<Seq<u32>>, steps: Seq<Step>)
    requires
        forall|id: Seq<char>| #[trigger] s.stored.contains_key(id) ==> s.records.contains_key(id),
    ensures
        ({
            let b = CollectionState {
                records: history::records_after_all(s.records, steps),
                stored: history::stored_after_all(s.stored, steps),
                ..s
            };
            &&& query::contents(b, file) == history::records_after_all(query::contents(s, file), steps)
            &&& forall|id: Seq<char>| #[trigger] b.stored.contains_key(id) ==> b.records.contains_key(id)
        }),
    decreases steps.len(),
{
    if steps.len() > 0 {
        let rest = steps.drop_last();
        let last = steps.last();
        runs_act_on_contents(s, file, rest);
        let a = CollectionState {
            records: history::records_after_all(s.records, rest),
            stored: history::stored_after_all(s.stored, rest),
            ..s
        };
        let b = CollectionState {
            records: history::records_after_all(s.records, steps),
            stored: history::stored_after_all(s.stored, steps),
            ..s
        };
        query::lemma_one_operation(a, b, file, last.id, last.effect, last.seq);
        assert forall|id: Seq<char>| #[trigger] b.stored.contains_key(id) implies b.records.contains_key(id) by {
            assert(a.stored.contains_key(id));
        }
    }
}

/// A checkpoint is only an acceleration: taken at any time and followed by the
/// part of the log that the graph index had not reached, it gives the records
/// and vectors of the whole log.
pub proof fn checkpoint_and_tail_give_the_log(
    s: CollectionState,
    file: Seq<Seq<u32>>,
    covered: Seq<Step>,
    tail: Seq<Step>,
    b: CollectionState,
    vs: Seq<Seq<u32>>,
    e: CollectionState,
)
    requires
        query::contents(s, file) == history::records_after_all(Map::empty(), covered + tail),
        query::contents(b, vs) == query::contents(s, file),
        collection::sound(b),
        history::state_after_all(b, tail, e),
    ensures
        query::contents(e, vs) == history::records_after_all(Map::empty(), covered + tail),
{
    runs_act_on_contents(b, vs, tail);
    history::replaying_again_changes_nothing(Map::empty(), covered, tail);
    let m = CollectionState {
        records: history::records_after_all(b.records, tail),
        stored: history::stored_after_all(b.stored, tail),
        ..b
    };
    assert(query::contents(e, vs) =~= query::contents(m, vs)) by {
        assert forall|id: Seq<char>| query::vector_of(e, vs, id) == query::vector_of(m, vs, id) by {}
    }
}

/// Rebuilding puts every vector of the collection into the index, each under the
/// label of its own record, and nothing else; records stay as they are.
pub proof fn rebuilding_indexes_every_vector(
    a: CollectionState,
    file: Seq<Seq<u32>>,
    r: Rebuild,
    b: CollectionState,
    id: Seq<char>,
)
    requires
        rebuilt(a, file, r, b),
        r.error is None,
    ensures
        b.records == a.records,
        b.buffer == a.buffer,
        b.stored == a.stored,
        b.config == a.config,
        b.labels.labels.contains_key(id) <==> query::vector_of(a, file, id) is Some,
        query::vector_of(a, file, id) matches Some(v) ==> {
            let label = b.labels.labels[id];
            label < r.changes@.len() && r.changes@[label as int]@ == (ChangeView::Insert { label, vector: v })
        },
        forall|i: int|
            0 <= i < r.changes@.len() ==> (#[trigger] r.changes@[i])@ is Insert && exists|owner: Seq<char>|
                #[trigger] b.labels.labels.contains_key(owner) && b.labels.labels[owner] == i,
{
    let e = r.entries@;
    if query::vector_of(a, file, id) is Some {
        assert(entry_ids(e).contains(id));
        let i = choose|i: int| 0 <= i < entry_ids(e).len() && entry_ids(e)[i] == id;
        assert(e[i].id@ == id);
        assert(b.labels.labels[e[i].id@] == i);
        assert(r.changes@[i]@ == (ChangeView::Insert { label: i as u64, vector: e[i].vector@ }));
    }
    if b.labels.labels.contains_key(id) {
        let i = choose|i: int| 0 <= i < e.len() && (#[trigger] e[i]).id@ == id;
        assert(query::vector_of(a, file, e[i].id@) is Some);
    }
    assert forall|i: int| 0 <= i < r.changes@.len() implies (#[trigger] r.changes@[i])@ is Insert && exists|
        owner: Seq<char>,
    | #[trigger] b.labels.labels.contains_key(owner) && b.labels.labels[owner] == i by {
        let owner = e[i].id@;
        assert(b.labels.labels.contains_key(owner) && b.labels.labels[owner] == i);
    }
}

/// Of the labels that were saved those of records stay, as they are.
pub proof fn labels_of_records_stay(labels: LabelsView, records: Map<Seq<char>, RecordState>, id: Seq<char>)
    ensures
        live_labels(labels, records).labels.contains_key(id) <==> labels.labels.contains_key(id)
            && records.contains_key(id),
        live_labels(labels, records).labels.contains_key(id) ==> live_labels(labels, records).labels[id]
            == labels.labels[id],
        live_labels(labels, records).next_label == labels.next_label,
{
}

/// Of records with one id the last counts; every other record is there as it
/// stands.
pub proof fn the_last_of_an_id_counts(records: Seq<Record>, i: int, id: Seq<char>)
    ensures
        0 <= i < records.len() && (forall|k: int| i < k < records.len() ==> (#[trigger] records[k]).id@
            != records[i].id@) ==> records_by_id(records).contains_key(records[i].id@) && records_by_id(
            records,
        )[records[i].id@] == records[i]@,
        records_by_id(records).contains_key(id) <==> exists|k: int|
            0 <= k < records.len() && (#[trigger] records[k]).id@ == id,
    decreases records.len(),
{
    if records.len() > 0 {
        let rest = records.drop_last();
        let last = records[records.len() - 1];
        assert(records.last() == last);
        assert forall|k: int| 0 <= k < rest.len() implies #[trigger] rest[k] == records[k] by {}
        the_last_of_an_id_counts(rest, i, id);
        if 0 <= i < rest.len() && (forall|k: int| i < k < records.len() ==> (#[trigger] records[k]).id@
            != records[i].id@) {
            assert(last.id@ != records[i].id@);
            assert forall|k: int| i < k < rest.len() implies (#[trigger] rest[k]).id@ != rest[i].id@ by {
                assert(records[k].id@ != records[i].id@);
            }
        }
        if exists|k: int| 0 <= k < rest.len() && (#[trigger] rest[k]).id@ == id {
            let k = choose|k: int| 0 <= k < rest.len() && (#[trigger] rest[k]).id@ == id;
            assert(records[k].id@ == id);
        }
        if exists|k: int| 0 <= k < records.len() && (#[trigger] records[k]).id@ == id {
            let k = choose|k: int| 0 <= k < records.len() && (#[trigger] records[k]).id@ == id;
            if k < rest.len() {
                assert(rest[k].id@ == id);
            }
        }
    }
}

/// A checkpoint points each record that the new segment holds to its place there
/// and covers what was flushed.
pub proof fn checkpoints_point_to_the_segment(s: CollectionState, segment: Option<SegmentPlan>, id: Seq<char>)
    ensures
        checkpointed(s, segment).last_checkpoint_seq == s.flushed_seq,
        segment is None ==> !checkpointed(s, segment).stored.contains_key(id),
        segment matches Some(p) ==> (checkpointed(s, segment).stored.contains_key(id) <==> p.index@.contains_key(id)
            && s.offsets.contains_key(id)) && (checkpointed(s, segment).stored.contains_key(id) ==> checkpointed(
            s,
            segment,
        ).stored[id] == p.index@[id]),
        checkpointed(s, segment).buffer == s.buffer,
        checkpointed(s, segment).labels == s.labels,
        checkpointed(s, segment).config == s.config,
        checkpointed(s, segment).flushed_seq == s.flushed_seq,
{
}

} // verus!
