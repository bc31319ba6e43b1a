//! Moving vectors in and out as lines of JSON text.

use vstd::prelude::*;
use vstd::string::*;

use crate::chars;
use crate::chars::trim;
use crate::display;
use crate::display::join;
use crate::json;
use crate::json::{Json, JsonNumber, JsonView};
use crate::json_text;
use crate::json_text::{ReadError, ReadErrorView};
use crate::num::F64;
use crate::readings::{Readings, ReadingsView};
use crate::text;
use crate::text::{decimal, to_chars};

verus! {

/// Number of vectors that are sent at once.
pub const BATCH: usize = 500;

/// A vector that was read from a line.
#[derive(Debug, PartialEq)]
pub struct ImportRecord {
    pub id: u64,
    /// The components, in double precision.
    pub vector: Vec<F64>,
    pub payload: Option<String>,
    pub timestamp: u64,
}

/// A vector that was read from a line, as a mathematical value.
pub struct ImportView {
    pub id: u64,
    pub vector: Seq<F64>,
    pub payload: Option<Seq<char>>,
    pub timestamp: u64,
}

impl View for ImportRecord {
    type V = ImportView;

    open spec fn view(&self) -> ImportView {
        ImportView {
            id: self.id,
            vector: self.vector@,
            payload: match self.payload {
                Some(p) => Some(p@),
                None => None,
            },
            timestamp: self.timestamp,
        }
    }
}

/// Vectors as mathematical values.
pub open spec fn views(r: Seq<ImportRecord>) -> Seq<ImportView> {
    Seq::new(r.len(), |i: int| r[i]@)
}

// ---------------------------------------------------------------------------
// Lines that are read
// ---------------------------------------------------------------------------

/// The natural number under a name, or zero.
pub open spec fn number_under(j: JsonView, name: Seq<char>) -> u64 {
    match j.member(name) {
        Some(v) => match v.natural() {
            Some(n) => n,
            None => 0,
        },
        None => 0,
    }
}

/// The numbers of a list. Other items are passed over.
pub open spec fn numbers_of(items: Seq<JsonView>) -> Seq<F64>
    decreases items.len(),
{
    if items.len() == 0 {
        Seq::empty()
    } else {
        let before = numbers_of(items.drop_last());
        match items.last() {
            JsonView::Number(n) => before.push(n.double()),
            _ => before,
        }
    }
}

/// The vector that a JSON value describes.
pub open spec fn described(j: JsonView) -> ImportView {
    ImportView {
        id: number_under(j, "id"@),
        vector: match j.member("vector"@) {
            Some(JsonView::Array(items)) => numbers_of(items),
            _ => Seq::empty(),
        },
        payload: match j.member("payload"@) {
            Some(JsonView::Text(t)) => Some(t),
            _ => None,
        },
        timestamp: number_under(j, "timestamp"@),
    }
}

/// The vector of a line, if the line is JSON and its numbers were read.
pub open spec fn line_record(line: Seq<char>, n: ReadingsView) -> Option<ImportView> {
    if chars::trimmed(line).len() == 0 {
        None
    } else {
        match json_text::read_with(line, n) {
            Ok(j) => Some(described(j)),
            Err(_) => None,
        }
    }
}

/// The texts of a line's numbers that have not been read yet.
pub open spec fn line_asks(line: Seq<char>, n: ReadingsView) -> Seq<Seq<char>> {
    if chars::trimmed(line).len() == 0 {
        Seq::empty()
    } else {
        match json_text::read_with(line, n) {
            Err(ReadErrorView::Numbers(t)) => t,
            _ => Seq::empty(),
        }
    }
}

/// The vectors of lines, in order.
pub open spec fn line_records(lines: Seq<Seq<char>>, n: ReadingsView) -> Seq<ImportView>
    decreases lines.len(),
{
    if lines.len() == 0 {
        Seq::empty()
    } else {
        let before = line_records(lines.drop_last(), n);
        match line_record(lines.last(), n) {
            Some(r) => before.push(r),
            None => before,
        }
    }
}

fn read_number(j: &Json, name: &str) -> (r: u64)
    ensures
        r == number_under(j@, name@),
{
    match j.member(name) {
        Some(v) => match v.as_natural() {
            Some(n) => n,
            None => 0,
        },
        None => 0,
    }
}

fn read_numbers(items: &Vec<Json>) -> (r: Vec<F64>)
    ensures
        r@ == numbers_of(json::items_view(items@)),
{
    let ghost all = json::items_view(items@);
    let mut r: Vec<F64> = Vec::new();
    let mut i: usize = 0;
    assert(all.take(0) =~= Seq::empty());
    while i < items.len()
        invariant
            i <= items.len(),
            all == json::items_view(items@),
            r@ == numbers_of(all.take(i as int)),
        decreases items.len() - i,
    {
        proof {
            assert(all.take(i + 1).drop_last() =~= all.take(i as int));
            assert(all.take(i + 1).last() == items@[i as int]@);
        }
        match &items[i] {
            Json::Number(n) => {
                r.push(n.as_f64());
            },
            _ => {},
        }
        i += 1;
    }
    assert(all.take(i as int) =~= all);
    r
}

/// The vector that a JSON value describes.
pub fn describe_vector(j: &Json) -> (r: ImportRecord)
    ensures
        r@ == described(j@),
{
    let vector: Vec<F64> = match j.member("vector") {
        Some(Json::Array(items)) => {
            proof {
                json::lemma_array_view(*items);
            }
            read_numbers(items)
        },
        _ => Vec::new(),
    };
    let payload: Option<String> = match j.member("payload") {
        Some(Json::Text(t)) => Some(t.clone()),
        _ => None,
    };
    ImportRecord {
        id: read_number(j, "id"),
        vector,
        payload,
        timestamp: read_number(j, "timestamp"),
    }
}

/// The vector of a line. Blank lines and lines that are no JSON have none. Where
/// texts of numbers have not been read yet, all of them are asked for.
pub fn read_line(line: &str, known: &Readings) -> (r: Result<Option<ImportRecord>, Vec<String>>)
    requires
        known.wf(),
    ensures
        match r {
            Ok(Some(v)) => line_asks(line@, known@).len() == 0 && line_record(line@, known@) == Some(v@),
            Ok(None) => line_asks(line@, known@).len() == 0 && line_record(line@, known@) is None,
            Err(t) => t@.len() > 0 && text::views(t@) == line_asks(line@, known@),
        },
{
    if trim(&to_chars(line)).len() == 0 {
        return Ok(None);
    }
    match Json::read(line, known) {
        Ok(j) => Ok(Some(describe_vector(&j))),
        Err(ReadError::Invalid(_)) => Ok(None),
        Err(ReadError::Numbers(t)) => {
            assert(text::views(t@).len() == t@.len());
            Err(t)
        },
    }
}

// ---------------------------------------------------------------------------
// Batches
// ---------------------------------------------------------------------------

/// The vectors that were read and not sent yet.
pub struct Importer {
    batch: Vec<ImportRecord>,
}

impl View for Importer {
    type V = Seq<ImportView>;

    closed spec fn view(&self) -> Seq<ImportView> {
        views(self.batch@)
    }
}

/// The vectors that are sent and those that are kept once a line was taken.
pub open spec fn taken(kept: Seq<ImportView>, line: Seq<char>, n: ReadingsView) -> (
    Option<Seq<ImportView>>,
    Seq<ImportView>,
) {
    let more = match line_record(line, n) {
        Some(r) => kept.push(r),
        None => kept,
    };
    if more.len() >= BATCH {
        (Some(more), Seq::empty())
    } else {
        (None, more)
    }
}

/// All batches that are sent for lines, and the vectors that are left.
pub open spec fn sent(lines: Seq<Seq<char>>, n: ReadingsView) -> (Seq<Seq<ImportView>>, Seq<ImportView>)
    decreases lines.len(),
{
    if lines.len() == 0 {
        (Seq::empty(), Seq::empty())
    } else {
        let (batches, kept) = sent(lines.drop_last(), n);
        match taken(kept, lines.last(), n) {
            (Some(b), left) => (batches.push(b), left),
            (None, left) => (batches, left),
        }
    }
}

impl Importer {
    /// Nothing was read yet.
    pub fn new() -> (r: Importer)
        ensures
            r@ == Seq::<ImportView>::empty(),
    {
        let r: Importer = Importer { batch: Vec::new() };
        assert(views(r.batch@) =~= Seq::empty());
        r
    }

    /// Takes a line, and returns a batch once it is full. Where texts of numbers
    /// have not been read yet, all of them are asked for and nothing is taken.
    pub fn take_line(&mut self, line: &str, known: &Readings) -> (r: Result<
        Option<Vec<ImportRecord>>,
        Vec<String>,
    >)
        requires
            known.wf(),
        ensures
            match r {
                Ok(Some(b)) => line_asks(line@, known@).len() == 0 && taken(old(self)@, line@, known@) == (
                    Some(views(b@)),
                    final(self)@,
                ),
                Ok(None) => line_asks(line@, known@).len() == 0 && taken(old(self)@, line@, known@) == (
                    None::<Seq<ImportView>>,
                    final(self)@,
                ),
                Err(t) => t@.len() > 0 && text::views(t@) == line_asks(line@, known@) && final(self)@
                    == old(self)@,
            },
    {
        let ghost before = self.batch@;
        match read_line(line, known) {
            Ok(Some(v)) => {
                self.batch.push(v);
                assert(views(self.batch@) =~= views(before).push(v@));
            },
            Ok(None) => {},
            Err(t) => {
                return Err(t);
            },
        }
        if self.batch.len() >= BATCH {
            let mut full: Vec<ImportRecord> = Vec::new();
            std::mem::swap(&mut full, &mut self.batch);
            assert(views(self.batch@) =~= Seq::empty());
            Ok(Some(full))
        } else {
            Ok(None)
        }
    }

    /// The last batch, if anything is left.
    pub fn finish(self) -> (r: Option<Vec<ImportRecord>>)
        ensures
            match r {
                Some(b) => views(b@) == self@ && self@.len() > 0,
                None => self@.len() == 0,
            },
    {
        if self.batch.len() == 0 {
            None
        } else {
            Some(self.batch)
        }
    }
}

/// Batches one behind the other.
pub open spec fn run_together(batches: Seq<Seq<ImportView>>) -> Seq<ImportView>
    decreases batches.len(),
{
    if batches.len() == 0 {
        Seq::empty()
    } else {
        run_together(batches.drop_last()) + batches.last()
    }
}

/// Nothing is lost on the way: the batches that were sent and what is left are
/// the vectors of the lines, in their order. Every batch is full, and what is
/// left is not.
pub proof fn batches_hold_every_line(lines: Seq<Seq<char>>, n: ReadingsView)
    ensures
        run_together(sent(lines, n).0) + sent(lines, n).1 == line_records(lines, n),
        forall|i: int| 0 <= i < sent(lines, n).0.len() ==> (#[trigger] sent(lines, n).0[i]).len() == BATCH,
        sent(lines, n).1.len() < BATCH,
    decreases lines.len(),
{
    if lines.len() > 0 {
        batches_hold_every_line(lines.drop_last(), n);
        let (batches, kept) = sent(lines.drop_last(), n);
        let (b, left) = taken(kept, lines.last(), n);
        if b is Some {
            let more = batches.push(b->0);
            assert(more.drop_last() =~= batches);
            assert(run_together(more) == run_together(batches) + b->0);
        }
        match line_record(lines.last(), n) {
            Some(r) => {
                assert(run_together(batches) + kept.push(r) =~= (run_together(batches) + kept).push(r));
            },
            None => {},
        }
        assert(run_together(sent(lines, n).0) + sent(lines, n).1 =~= line_records(lines, n));
    }
}

// ---------------------------------------------------------------------------
// Lines that are written
// ---------------------------------------------------------------------------

/// The line of a vector, given its components as texts.
pub open spec fn line_of(id: u64, vector: Seq<Seq<char>>, payload: Option<Seq<char>>, timestamp: u64) -> Seq<
    char,
> {
    "{\"id\":"@ + text::decimal_text(id as nat) + ",\"vector\":["@ + display::joined(vector, ","@)
        + "],\"payload\":"@ + (match payload {
        Some(p) => "\""@ + p + "\""@,
        None => "null"@,
    }) + ",\"timestamp\":"@ + text::decimal_text(timestamp as nat) + "}"@
}

/// The line of a vector, given its components as texts. A payload is written
/// between quotation marks as it is.
pub fn export_line(id: u64, vector: &Vec<String>, payload: Option<&str>, timestamp: u64) -> (r: String)
    ensures
        r@ == line_of(
            id,
            text::views(vector@),
            match payload {
                Some(p) => Some(p@),
                None => None,
            },
            timestamp,
        ),
{
    let mut s: String = "{\"id\":".to_owned();
    s.append(decimal(id).as_str());
    s.append(",\"vector\":[");
    s.append(join(vector, ",").as_str());
    s.append("],\"payload\":");
    let ghost head = s@;
    match payload {
        Some(p) => {
            s.append("\"");
            s.append(p);
            s.append("\"");
            assert(s@ =~= head + ("\""@ + p@ + "\""@));
        },
        None => {
            s.append("null");
        },
    }
    s.append(",\"timestamp\":");
    s.append(decimal(timestamp).as_str());
    s.append("}");
    s
}

/// A list of numbers is a vector of as many components, each the number in its
/// place.
pub proof fn components_stand_in_their_places(items: Seq<JsonView>, i: int)
    requires
        forall|k: int| 0 <= k < items.len() ==> #[trigger] items[k] is Number,
        0 <= i < items.len(),
    ensures
        numbers_of(items).len() == items.len(),
        numbers_of(items)[i] == items[i]->Number_0.double(),
    decreases items.len(),
{
    let rest = items.drop_last();
    assert(items.last() == items[items.len() - 1]);
    if rest.len() == 0 {
        assert(numbers_of(rest).len() == 0);
        assert(items.last() is Number);
    } else {
        assert forall|k: int| 0 <= k < rest.len() implies #[trigger] rest[k] is Number by {
            assert(rest[k] == items[k]);
        }
        if i < rest.len() {
            components_stand_in_their_places(rest, i);
        } else {
            components_stand_in_their_places(rest, 0);
        }
    }
}

/// What is no number does not count as a component, wherever it stands.
pub proof fn others_are_no_components(before: Seq<JsonView>, other: JsonView, after: Seq<JsonView>)
    requires
        !(other is Number),
    ensures
        numbers_of(before.push(other) + after) == numbers_of(before + after),
    decreases after.len(),
{
    let with = before.push(other) + after;
    let without = before + after;
    if after.len() == 0 {
        assert(with.drop_last() =~= before);
        assert(without =~= before);
    } else {
        others_are_no_components(before, other, after.drop_last());
        assert(with.drop_last() =~= before.push(other) + after.drop_last());
        assert(without.drop_last() =~= before + after.drop_last());
        assert(with.last() == without.last());
    }
}

/// An object describes the record that its members name: a natural number under
/// `id` and under `timestamp`, numbers under `vector`, a text under `payload`.
/// What is missing or of another kind leaves 0, no vector and no payload.
pub proof fn members_describe_the_record(j: JsonView)
    ensures
        j.member("id"@) matches Some(JsonView::Number(JsonNumber::Natural(n))) ==> described(j).id == n,
        !(j.member("id"@) matches Some(JsonView::Number(JsonNumber::Natural(n)))) ==> described(j).id == 0,
        j.member("timestamp"@) matches Some(JsonView::Number(JsonNumber::Natural(n))) ==> described(j).timestamp
            == n,
        !(j.member("timestamp"@) matches Some(JsonView::Number(JsonNumber::Natural(n)))) ==> described(
            j,
        ).timestamp == 0,
        j.member("vector"@) matches Some(JsonView::Array(items)) ==> described(j).vector == numbers_of(items),
        !(j.member("vector"@) matches Some(JsonView::Array(items))) ==> described(j).vector.len() == 0,
        j.member("payload"@) matches Some(JsonView::Text(t)) ==> described(j).payload == Some(t),
        !(j.member("payload"@) matches Some(JsonView::Text(t))) ==> described(j).payload is None,
{
}

/// Batches hold 500 records each, and fewer are kept back.
pub proof fn batches_are_full(lines: Seq<Seq<char>>, n: ReadingsView)
    ensures
        forall|i: int| 0 <= i < sent(lines, n).0.len() ==> (#[trigger] sent(lines, n).0[i]).len() == 500,
        sent(lines, n).1.len() < 500,
    decreases lines.len(),
{
    if lines.len() > 0 {
        batches_are_full(lines.drop_last(), n);
    }
}

/// Lines are read one by one: what is read of lines and more lines is what is
/// read of the first ones, and behind it what is read of the others. A line with
/// nothing on it or that is no JSON holds no record, any other one the record
/// that it describes.
pub proof fn lines_are_read_one_by_one(lines: Seq<Seq<char>>, more: Seq<Seq<char>>, line: Seq<char>, n: ReadingsView)
    ensures
        line_records(lines + more, n) == line_records(lines, n) + line_records(more, n),
        chars::trimmed(line).len() == 0 ==> line_records(seq![line], n).len() == 0,
        json_text::read_with(line, n) is Err ==> line_records(seq![line], n).len() == 0,
        chars::trimmed(line).len() > 0 ==> (json_text::read_with(line, n) matches Ok(j) ==> line_records(
            seq![line],
            n,
        ) == seq![described(j)]),
    decreases more.len(),
{
    let none = Seq::<Seq<char>>::empty();
    assert(seq![line].drop_last() =~= none);
    assert(line_records(none, n) =~= Seq::<ImportView>::empty());
    assert(json_text::read_with(line, n) matches Ok(j) ==> line_records(none, n).push(described(j)) =~= seq![
        described(j),
    ]);
    if more.len() == 0 {
        assert(lines + more =~= lines);
        assert(line_records(lines, n) + line_records(more, n) =~= line_records(lines, n));
    } else {
        lines_are_read_one_by_one(lines, more.drop_last(), line, n);
        assert((lines + more).drop_last() =~= lines + more.drop_last());
        assert((lines + more).last() == more.last());
        assert(line_records(lines + more, n) =~= line_records(lines, n) + line_records(more, n));
    }
}

/// A line that is exported names the id first and the time last, each in
/// decimal, and between them the components and the payload.
pub proof fn exported_lines_hold_the_record(
    id: u64,
    vector: Seq<Seq<char>>,
    payload: Option<Seq<char>>,
    timestamp: u64,
)
    ensures
        ({
            let line = line_of(id, vector, payload, timestamp);
            let head = "{\"id\":"@ + text::decimal_text(id as nat) + ",\"vector\":["@ + display::joined(vector, ","@)
                + "],\"payload\":"@;
            let tail = ",\"timestamp\":"@ + text::decimal_text(timestamp as nat) + "}"@;
            let middle = line.subrange(head.len() as int, line.len() - tail.len());
            &&& line.len() >= head.len() + tail.len()
            &&& line.take(head.len() as int) == head
            &&& line.skip(line.len() - tail.len()) == tail
            &&& payload is None ==> middle == "null"@
            &&& payload matches Some(p) ==> middle.len() == p.len() + 2 && middle[0] == '"' && middle.last() == '"'
                && middle.subrange(1, middle.len() - 1) == p
        }),
{
    reveal_strlit("\"");
    let line = line_of(id, vector, payload, timestamp);
    let head = "{\"id\":"@ + text::decimal_text(id as nat) + ",\"vector\":["@ + display::joined(vector, ","@)
        + "],\"payload\":"@;
    let tail = ",\"timestamp\":"@ + text::decimal_text(timestamp as nat) + "}"@;
    let inner = match payload {
        Some(p) => "\""@ + p + "\""@,
        None => "null"@,
    };
    assert(line =~= head + inner + tail);
    assert(line.take(head.len() as int) =~= head);
    assert(line.skip(line.len() - tail.len()) =~= tail);
    let middle = line.subrange(head.len() as int, line.len() - tail.len());
    assert(middle =~= inner);
    if let Some(p) = payload {
        assert(middle.subrange(1, middle.len() - 1) =~= p);
    }
}

} // verus!
