//! Checks of a batch before anything of it is written.

use vstd::hash_set::StringHashSet;
use vstd::prelude::*;
use vstd::string::*;

use crate::collection::{Collection, CollectionState, RecordState};
use crate::error::{Invalid, InvalidView, Part, Verb};
use crate::text;
use crate::types::{Document, Embedding, Id, Metadata};

verus! {

/// The length of an optional list.
pub open spec fn count_of<T>(list: Option<Vec<T>>) -> Option<nat> {
    match list {
        Some(l) => Some(l@.len()),
        None => None,
    }
}

/// The lengths of vectors.
pub open spec fn lengths(v: Seq<Embedding>) -> Seq<nat> {
    Seq::new(v.len(), |i: int| v[i]@.len())
}

/// What is wrong with the length of an optional list, if anything is.
pub open spec fn length_verdict(op: Verb, ids: nat, other: Option<nat>, what: Part) -> Option<
    InvalidView,
> {
    match other {
        Some(n) if n != ids => Some(
            InvalidView::Counts { op, ids: ids as usize, other: n as usize, what },
        ),
        _ => None,
    }
}

/// The first length that differs from a dimension. A dimension that is not
/// known yet fits every length.
pub open spec fn first_misfit(lengths: Seq<nat>, dimension: nat) -> Option<nat>
    decreases lengths.len(),
{
    if lengths.len() == 0 || dimension == 0 {
        None
    } else {
        match first_misfit(lengths.drop_last(), dimension) {
            Some(n) => Some(n),
            None => if lengths.last() != dimension {
                Some(lengths.last())
            } else {
                None
            },
        }
    }
}

/// What is wrong with the vectors of a batch, if anything is.
pub open spec fn dimension_verdict(op: Verb, lengths: Seq<nat>, dimension: usize) -> Option<
    InvalidView,
> {
    match first_misfit(lengths, dimension as nat) {
        Some(n) => Some(InvalidView::Dimension { op, got: n as usize, dimension }),
        None => None,
    }
}

/// The first id of a batch that is taken, by a record or earlier in the batch.
pub open spec fn first_taken(records: Map<Seq<char>, RecordState>, ids: Seq<Seq<char>>) -> Option<
    InvalidView,
>
    decreases ids.len(),
{
    if ids.len() == 0 {
        None
    } else {
        match first_taken(records, ids.drop_last()) {
            Some(v) => Some(v),
            None => if records.contains_key(ids.last()) {
                Some(InvalidView::AlreadyExists { id: ids.last() })
            } else if ids.drop_last().contains(ids.last()) {
                Some(InvalidView::DuplicateInBatch { id: ids.last() })
            } else {
                None
            },
        }
    }
}

/// The first id of a batch that does not exist.
pub open spec fn first_missing(records: Map<Seq<char>, RecordState>, ids: Seq<Seq<char>>) -> Option<
    InvalidView,
>
    decreases ids.len(),
{
    if ids.len() == 0 {
        None
    } else {
        match first_missing(records, ids.drop_last()) {
            Some(v) => Some(v),
            None => if !records.contains_key(ids.last()) {
                Some(InvalidView::UpdateNotFound { id: ids.last() })
            } else {
                None
            },
        }
    }
}

/// What is wrong with the lists of a batch, if anything is: the vectors are
/// looked at first, then the metadata, the documents, the dimensions.
pub open spec fn batch_verdict(
    op: Verb,
    ids: nat,
    embeddings: Seq<nat>,
    metadatas: Option<nat>,
    documents: Option<nat>,
    dimension: usize,
) -> Option<InvalidView> {
    if ids != embeddings.len() {
        Some(
            InvalidView::Counts {
                op,
                ids: ids as usize,
                other: embeddings.len() as usize,
                what: Part::Embeddings,
            },
        )
    } else if length_verdict(op, ids, metadatas, Part::Metadatas) is Some {
        length_verdict(op, ids, metadatas, Part::Metadatas)
    } else if length_verdict(op, ids, documents, Part::Documents) is Some {
        length_verdict(op, ids, documents, Part::Documents)
    } else {
        dimension_verdict(op, embeddings, dimension)
    }
}

/// Checks the length of an optional list.
fn check_slice_lengths<T>(op: Verb, ids: usize, list: &Option<Vec<T>>, what: Part) -> (r: Option<
    Invalid,
>)
    ensures
        invalid_opt(r) == length_verdict(op, ids as nat, count_of(*list), what),
{
    match list {
        Some(l) => {
            if l.len() != ids {
                Some(Invalid::Counts { op, ids, other: l.len(), what })
            } else {
                None
            }
        },
        None => None,
    }
}

/// An optional refusal as a mathematical value.
pub open spec fn invalid_opt(v: Option<Invalid>) -> Option<InvalidView> {
    match v {
        Some(v) => Some(v@),
        None => None,
    }
}

/// Checks the dimensions of vectors.
fn check_dimensions(op: Verb, embeddings: &Vec<Embedding>, dimension: usize) -> (r: Option<Invalid>)
    ensures
        invalid_opt(r) == dimension_verdict(op, lengths(embeddings@), dimension),
{
    if dimension == 0 {
        return None;
    }
    let ghost all = lengths(embeddings@);
    let mut i: usize = 0;
    while i < embeddings.len()
        invariant
            i <= embeddings.len(),
            dimension != 0,
            all == lengths(embeddings@),
            first_misfit(all.take(i as int), dimension as nat) is None,
        decreases embeddings.len() - i,
    {
        proof {
            assert(all.take(i + 1).drop_last() =~= all.take(i as int));
            assert(all.take(i + 1).last() == all[i as int]);
        }
        if embeddings[i].len() != dimension {
            proof {
                lemma_misfit_stays(all, i + 1, dimension as nat);
            }
            return Some(Invalid::Dimension { op, got: embeddings[i].len(), dimension });
        }
        i += 1;
    }
    assert(all.take(embeddings@.len() as int) =~= all);
    None
}

proof fn lemma_misfit_stays(lengths: Seq<nat>, n: int, dimension: nat)
    requires
        0 <= n <= lengths.len(),
        first_misfit(lengths.take(n), dimension) is Some,
    ensures
        first_misfit(lengths, dimension) == first_misfit(lengths.take(n), dimension),
    decreases lengths.len(),
{
    if n == lengths.len() {
        assert(lengths.take(n) =~= lengths);
    } else {
        assert(lengths.drop_last().take(n) =~= lengths.take(n));
        lemma_misfit_stays(lengths.drop_last(), n, dimension);
    }
}

proof fn lemma_taken_stays(records: Map<Seq<char>, RecordState>, ids: Seq<Seq<char>>, n: int)
    requires
        0 <= n <= ids.len(),
        first_taken(records, ids.take(n)) is Some,
    ensures
        first_taken(records, ids) == first_taken(records, ids.take(n)),
    decreases ids.len(),
{
    if n == ids.len() {
        assert(ids.take(n) =~= ids);
    } else {
        assert(ids.drop_last().take(n) =~= ids.take(n));
        lemma_taken_stays(records, ids.drop_last(), n);
    }
}

proof fn lemma_missing_stays(records: Map<Seq<char>, RecordState>, ids: Seq<Seq<char>>, n: int)
    requires
        0 <= n <= ids.len(),
        first_missing(records, ids.take(n)) is Some,
    ensures
        first_missing(records, ids) == first_missing(records, ids.take(n)),
    decreases ids.len(),
{
    if n == ids.len() {
        assert(ids.take(n) =~= ids);
    } else {
        assert(ids.drop_last().take(n) =~= ids.take(n));
        lemma_missing_stays(records, ids.drop_last(), n);
    }
}

fn check_batch(
    op: Verb,
    ids: usize,
    embeddings: &Vec<Embedding>,
    metadatas: &Option<Vec<Option<Metadata>>>,
    documents: &Option<Vec<Option<Document>>>,
    dimension: usize,
) -> (r: Option<Invalid>)
    ensures
        invalid_opt(r) == batch_verdict(
            op,
            ids as nat,
            lengths(embeddings@),
            count_of(*metadatas),
            count_of(*documents),
            dimension,
        ),
{
    if ids != embeddings.len() {
        return Some(
            Invalid::Counts { op, ids, other: embeddings.len(), what: Part::Embeddings },
        );
    }
    let m: Option<Invalid> = check_slice_lengths(op, ids, metadatas, Part::Metadatas);
    if m.is_some() {
        return m;
    }
    let d: Option<Invalid> = check_slice_lengths(op, ids, documents, Part::Documents);
    if d.is_some() {
        return d;
    }
    check_dimensions(op, embeddings, dimension)
}

/// The dimension that the vectors of a batch must have: that of the collection,
/// or of the first vector while the collection has none.
pub open spec fn taken_dimension(s: CollectionState, embeddings: Seq<nat>) -> usize {
    if s.config.dimension == 0 && embeddings.len() > 0 {
        embeddings[0] as usize
    } else {
        s.config.dimension
    }
}

/// What is wrong with a batch of additions, if anything is.
pub open spec fn add_verdict(
    s: CollectionState,
    ids: Seq<Seq<char>>,
    embeddings: Seq<nat>,
    metadatas: Option<nat>,
    documents: Option<nat>,
) -> Option<InvalidView> {
    let v = batch_verdict(
        Verb::Add,
        ids.len(),
        embeddings,
        metadatas,
        documents,
        taken_dimension(s, embeddings),
    );
    if v is Some {
        v
    } else {
        first_taken(s.records, ids)
    }
}

/// What is wrong with a batch of updates, if anything is.
pub open spec fn update_verdict(
    s: CollectionState,
    ids: Seq<Seq<char>>,
    metadatas: Option<nat>,
    documents: Option<nat>,
) -> Option<InvalidView> {
    let m = length_verdict(Verb::Update, ids.len(), metadatas, Part::Metadatas);
    let d = length_verdict(Verb::Update, ids.len(), documents, Part::Documents);
    if m is Some {
        m
    } else if d is Some {
        d
    } else {
        first_missing(s.records, ids)
    }
}

impl Collection {
    /// The dimension that the vectors of a batch must have.
    fn dimension_for(&self, embeddings: &Vec<Embedding>) -> (d: usize)
        ensures
            d == taken_dimension(self@, lengths(embeddings@)),
    {
        if self.config.dimension == 0 && embeddings.len() > 0 {
            embeddings[0].len()
        } else {
            self.config.dimension
        }
    }

    /// Checks a batch of additions: the lists must fit, the vectors must have
    /// the dimension of the collection, and every id must be new.
    #[verifier::loop_isolation(false)]
    pub fn validate_add(
        &self,
        ids: &Vec<Id>,
        embeddings: &Vec<Embedding>,
        metadatas: &Option<Vec<Option<Metadata>>>,
        documents: &Option<Vec<Option<Document>>>,
    ) -> (r: Option<Invalid>)
        requires
            self.wf(),
        ensures
            invalid_opt(r) == add_verdict(
                self@,
                text::views(ids@),
                lengths(embeddings@),
                count_of(*metadatas),
                count_of(*documents),
            ),
    {
        let v: Option<Invalid> = check_batch(
            Verb::Add,
            ids.len(),
            embeddings,
            metadatas,
            documents,
            self.dimension_for(embeddings),
        );
        if v.is_some() {
            return v;
        }
        let ghost all = text::views(ids@);
        let mut seen: StringHashSet = StringHashSet::new();
        let mut i: usize = 0;
        while i < ids.len()
            invariant
                i <= ids.len(),
                self.wf(),
                all == text::views(ids@),
                first_taken(self@.records, all.take(i as int)) is None,
                forall|t: Seq<char>| #[trigger] seen@.contains(t) <==> all.take(i as int).contains(t),
            decreases ids.len() - i,
        {
            let ghost id = all[i as int];
            proof {
                assert(all.take(i + 1).drop_last() =~= all.take(i as int));
                assert(all.take(i + 1).last() == id);
                assert(all.take(i + 1) =~= all.take(i as int).push(id));
                assert(self@.records.contains_key(id) == self.records@.contains_key(id));
            }
            if self.records.contains_key(ids[i].as_str()) {
                proof {
                    lemma_taken_stays(self@.records, all, i + 1);
                }
                return Some(Invalid::AlreadyExists { id: ids[i].clone() });
            }
            let fresh: bool = !seen.contains(ids[i].as_str());
            if !fresh {
                proof {
                    lemma_taken_stays(self@.records, all, i + 1);
                }
                return Some(Invalid::DuplicateInBatch { id: ids[i].clone() });
            }
            let ghost had = seen@;
            seen.insert(ids[i].clone());
            proof {
                let now = all.take(i + 1);
                let earlier = all.take(i as int);
                assert forall|t: Seq<char>| #[trigger] seen@.contains(t) <==> now.contains(t) by {
                    if seen@.contains(t) && t != id {
                        assert(had.contains(t));
                        let j = choose|j: int| 0 <= j < earlier.len() && earlier[j] == t;
                        assert(now[j] == t);
                    }
                    if t == id {
                        assert(now[i as int] == t);
                    }
                    if now.contains(t) && t != id {
                        let j = choose|j: int| 0 <= j < now.len() && now[j] == t;
                        assert(earlier[j] == t);
                        assert(had.contains(t));
                    }
                }
            }
            i += 1;
        }
        assert(all.take(ids@.len() as int) =~= all);
        None
    }

    /// Checks a batch of upserts: the lists must fit and the vectors must have
    /// the dimension of the collection.
    pub fn validate_upsert(
        &self,
        ids: &Vec<Id>,
        embeddings: &Vec<Embedding>,
        metadatas: &Option<Vec<Option<Metadata>>>,
        documents: &Option<Vec<Option<Document>>>,
    ) -> (r: Option<Invalid>)
        ensures
            invalid_opt(r) == batch_verdict(
                Verb::Upsert,
                ids@.len(),
                lengths(embeddings@),
                count_of(*metadatas),
                count_of(*documents),
                taken_dimension(self@, lengths(embeddings@)),
            ),
    {
        check_batch(
            Verb::Upsert,
            ids.len(),
            embeddings,
            metadatas,
            documents,
            self.dimension_for(embeddings),
        )
    }

    /// Checks a batch of updates: the lists must fit and every id must exist.
    #[verifier::loop_isolation(false)]
    pub fn validate_update(
        &self,
        ids: &Vec<Id>,
        metadatas: &Option<Vec<Option<Metadata>>>,
        documents: &Option<Vec<Option<Document>>>,
    ) -> (r: Option<Invalid>)
        requires
            self.wf(),
        ensures
            invalid_opt(r) == update_verdict(
                self@,
                text::views(ids@),
                count_of(*metadatas),
                count_of(*documents),
            ),
    {
        let m: Option<Invalid> = check_slice_lengths(
            Verb::Update,
            ids.len(),
            metadatas,
            Part::Metadatas,
        );
        if m.is_some() {
            return m;
        }
        let d: Option<Invalid> = check_slice_lengths(
            Verb::Update,
            ids.len(),
            documents,
            Part::Documents,
        );
        if d.is_some() {
            return d;
        }
        let ghost all = text::views(ids@);
        let mut i: usize = 0;
        while i < ids.len()
            invariant
                i <= ids.len(),
                self.wf(),
                all == text::views(ids@),
                first_missing(self@.records, all.take(i as int)) is None,
            decreases ids.len() - i,
        {
            proof {
                assert(all.take(i + 1).drop_last() =~= all.take(i as int));
                assert(all.take(i + 1).last() == all[i as int]);
                assert(self@.records.contains_key(all[i as int]) == self.records@.contains_key(
                    all[i as int],
                ));
            }
            if !self.records.contains_key(ids[i].as_str()) {
                proof {
                    lemma_missing_stays(self@.records, all, i + 1);
                }
                return Some(Invalid::UpdateNotFound { id: ids[i].clone() });
            }
            i += 1;
        }
        assert(all.take(ids@.len() as int) =~= all);
        None
    }
}

/// A batch of additions that passes has new ids only, each once.
pub proof fn accepted_ids_are_new(records: Map<Seq<char>, RecordState>, ids: Seq<Seq<char>>)
    requires
        first_taken(records, ids) is None,
    ensures
        forall|i: int| 0 <= i < ids.len() ==> !records.contains_key(#[trigger] ids[i]),
        forall|i: int, j: int| 0 <= i < j < ids.len() ==> #[trigger] ids[i] != #[trigger] ids[j],
    decreases ids.len(),
{
    if ids.len() > 0 {
        let rest = ids.drop_last();
        accepted_ids_are_new(records, rest);
        assert forall|i: int| 0 <= i < ids.len() implies !records.contains_key(#[trigger] ids[i]) by {
            if i < rest.len() {
                assert(rest[i] == ids[i]);
            }
        }
        assert forall|i: int, j: int| 0 <= i < j < ids.len() implies #[trigger] ids[i] != #[trigger] ids[j] by {
            assert(rest[i] == ids[i]);
            if j < rest.len() {
                assert(rest[j] == ids[j]);
            } else {
                assert(rest.contains(rest[i]));
            }
        }
    }
}

/// A batch of updates that passes names live records only.
pub proof fn updated_ids_are_live(records: Map<Seq<char>, RecordState>, ids: Seq<Seq<char>>)
    requires
        first_missing(records, ids) is None,
    ensures
        forall|i: int| 0 <= i < ids.len() ==> records.contains_key(#[trigger] ids[i]),
    decreases ids.len(),
{
    if ids.len() > 0 {
        let rest = ids.drop_last();
        updated_ids_are_live(records, rest);
        assert forall|i: int| 0 <= i < ids.len() implies records.contains_key(#[trigger] ids[i]) by {
            if i < rest.len() {
                assert(rest[i] == ids[i]);
            }
        }
    }
}

/// A batch is accepted when its lists go together and its vectors have the
/// dimension, and only then.
pub proof fn fitting_batches_are_accepted(
    op: Verb,
    ids: nat,
    embeddings: Seq<nat>,
    metadatas: Option<nat>,
    documents: Option<nat>,
    dimension: usize,
)
    ensures
        batch_verdict(op, ids, embeddings, metadatas, documents, dimension) is None <==> {
            &&& embeddings.len() == ids
            &&& metadatas matches Some(n) ==> n == ids
            &&& documents matches Some(n) ==> n == ids
            &&& dimension == 0 || forall|i: int|
                0 <= i < embeddings.len() ==> #[trigger] embeddings[i] == dimension
        },
{
    lemma_misfits(embeddings, dimension as nat);
}

proof fn lemma_misfits(lengths: Seq<nat>, dimension: nat)
    ensures
        first_misfit(lengths, dimension) is None <==> dimension == 0 || forall|i: int|
            0 <= i < lengths.len() ==> #[trigger] lengths[i] == dimension,
        first_misfit(lengths, dimension) matches Some(n) ==> n != dimension && lengths.contains(n),
    decreases lengths.len(),
{
    if lengths.len() > 0 && dimension > 0 {
        let rest = lengths.drop_last();
        lemma_misfits(rest, dimension);
        assert(lengths[lengths.len() - 1] == lengths.last());
        if forall|i: int| 0 <= i < lengths.len() ==> #[trigger] lengths[i] == dimension {
            assert forall|i: int| 0 <= i < rest.len() implies #[trigger] rest[i] == dimension by {
                assert(rest[i] == lengths[i]);
            }
        }
        if forall|i: int| 0 <= i < rest.len() ==> #[trigger] rest[i] == dimension {
            assert forall|i: int| 0 <= i < lengths.len() && i < rest.len() implies #[trigger] lengths[i]
                == dimension by {
                assert(rest[i] == lengths[i]);
            }
        }
        if let Some(n) = first_misfit(rest, dimension) {
            let i = choose|i: int| 0 <= i < rest.len() && rest[i] == n;
            assert(lengths[i] == n);
        }
    }
}

/// A refusal names what is wrong: lists of these lengths, a vector of a batch
/// that has another dimension, an id that is taken or not there.
pub proof fn refusals_name_what_is_wrong(
    s: CollectionState,
    ids: Seq<Seq<char>>,
    embeddings: Seq<nat>,
    metadatas: Option<nat>,
    documents: Option<nat>,
)
    ensures
        add_verdict(s, ids, embeddings, metadatas, documents) matches Some(v) ==> match v {
            InvalidView::AlreadyExists { id } => ids.contains(id) && s.records.contains_key(id),
            InvalidView::DuplicateInBatch { id } => exists|i: int, j: int|
                0 <= i < j < ids.len() && #[trigger] ids[i] == id && #[trigger] ids[j] == id,
            InvalidView::Dimension { got, dimension, .. } => got as nat != dimension as nat
                || embeddings.len() > usize::MAX || !(forall|i: int|
                0 <= i < embeddings.len() ==> #[trigger] embeddings[i] <= usize::MAX),
            InvalidView::Counts { .. } => embeddings.len() != ids.len() || metadatas != Some(ids.len())
                || documents != Some(ids.len()),
            _ => false,
        },
        update_verdict(s, ids, metadatas, documents) matches Some(v) ==> match v {
            InvalidView::UpdateNotFound { id } => ids.contains(id) && !s.records.contains_key(id),
            InvalidView::Counts { .. } => metadatas != Some(ids.len()) || documents != Some(ids.len()),
            _ => false,
        },
{
    lemma_taken(s.records, ids);
    lemma_missing(s.records, ids);
    lemma_misfits(embeddings, taken_dimension(s, embeddings) as nat);
    if let Some(n) = first_misfit(embeddings, taken_dimension(s, embeddings) as nat) {
        let i = choose|i: int| 0 <= i < embeddings.len() && embeddings[i] == n;
        assert(embeddings[i] == n);
    }
}

proof fn lemma_taken(records: Map<Seq<char>, RecordState>, ids: Seq<Seq<char>>)
    ensures
        first_taken(records, ids) matches Some(v) ==> match v {
            InvalidView::AlreadyExists { id } => ids.contains(id) && records.contains_key(id),
            InvalidView::DuplicateInBatch { id } => exists|i: int, j: int|
                0 <= i < j < ids.len() && #[trigger] ids[i] == id && #[trigger] ids[j] == id,
            _ => false,
        },
    decreases ids.len(),
{
    if ids.len() > 0 {
        let rest = ids.drop_last();
        let last = ids.len() - 1;
        lemma_taken(records, rest);
        assert(ids[last] == ids.last());
        match first_taken(records, rest) {
            Some(InvalidView::AlreadyExists { id }) => {
                let i = choose|i: int| 0 <= i < rest.len() && rest[i] == id;
                assert(ids[i] == id);
            },
            Some(InvalidView::DuplicateInBatch { id }) => {
                let (i, j) = choose|i: int, j: int|
                    0 <= i < j < rest.len() && #[trigger] rest[i] == id && #[trigger] rest[j] == id;
                assert(ids[i] == id && ids[j] == id);
            },
            _ => {
                if rest.contains(ids.last()) {
                    let i = choose|i: int| 0 <= i < rest.len() && rest[i] == ids.last();
                    assert(ids[i] == ids.last() && ids[last] == ids.last());
                }
            },
        }
    }
}

proof fn lemma_missing(records: Map<Seq<char>, RecordState>, ids: Seq<Seq<char>>)
    ensures
        first_missing(records, ids) matches Some(v) ==> match v {
            InvalidView::UpdateNotFound { id } => ids.contains(id) && !records.contains_key(id),
            _ => false,
        },
    decreases ids.len(),
{
    if ids.len() > 0 {
        let rest = ids.drop_last();
        lemma_missing(records, rest);
        assert(ids[ids.len() - 1] == ids.last());
        match first_missing(records, rest) {
            Some(InvalidView::UpdateNotFound { id }) => {
                let i = choose|i: int| 0 <= i < rest.len() && rest[i] == id;
                assert(ids[i] == id);
            },
            _ => {},
        }
    }
}

/// New ids, each once, are never refused for being taken, nor live ones for
/// missing.
pub proof fn good_ids_are_accepted(records: Map<Seq<char>, RecordState>, ids: Seq<Seq<char>>)
    ensures
        (forall|i: int| 0 <= i < ids.len() ==> !records.contains_key(#[trigger] ids[i])) && (forall|
            i: int,
            j: int,
        |
            0 <= i < j < ids.len() ==> #[trigger] ids[i] != #[trigger] ids[j]) ==> first_taken(records, ids) is None,
        (forall|i: int| 0 <= i < ids.len() ==> records.contains_key(#[trigger] ids[i])) ==> first_missing(
            records,
            ids,
        ) is None,
{
    lemma_taken(records, ids);
    lemma_missing(records, ids);
}

/// Vectors must have the collection's dimension, which is that of the first one
/// while the collection has none.
pub proof fn the_dimension_is_taken_once(s: CollectionState, embeddings: Seq<nat>)
    requires
        embeddings.len() > 0,
        embeddings[0] <= usize::MAX,
    ensures
        s.config.dimension > 0 ==> taken_dimension(s, embeddings) == s.config.dimension,
        s.config.dimension == 0 ==> taken_dimension(s, embeddings) == embeddings[0],
{
}

} // verus!
