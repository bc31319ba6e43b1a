//! JSON text: reading it into [`Json`] and writing it, through `serde_json`.
//!
//! A number that is no integer is known here by its text only. How such a text
//! is read, and how such a number is written, comes with [`Readings`].

use vstd::prelude::*;

use crate::json;
use crate::json::{Json, JsonNumber, JsonView};
use crate::num::F64;
use crate::readings::{Readings, ReadingsView};
use crate::text;

verus! {

/// A JSON number as its text gives it: a natural number, a negative integer, or
/// the text of any other number.
pub enum RawNumber {
    Natural(u64),
    Negative(i64),
    Real(Seq<char>),
}

/// A JSON value as its text gives it. The members of an object stand in the
/// order in which they are visited.
pub enum RawView {
    Null,
    Bool(bool),
    Number(RawNumber),
    Text(Seq<char>),
    Array(Seq<RawView>),
    Object(Seq<(Seq<char>, RawView)>),
}

/// `serde_json::Value`, a JSON value.
#[verifier::external_type_specification]
#[verifier::external_body]
pub struct ExternalValue(serde_json::Value);

/// `serde_json::Number`, a JSON number.
#[verifier::external_type_specification]
#[verifier::external_body]
pub struct ExternalNumber(serde_json::Number);

/// What a `serde_json::Value` holds.
pub uninterp spec fn value_held(v: serde_json::Value) -> RawView;

/// What a `serde_json::Number` holds; a number that is no integer, by the text
/// that it renders itself to.
pub uninterp spec fn number_held(n: serde_json::Number) -> RawNumber;

/// What `serde_json::from_str` makes of a text: the value, or the message of
/// its error.
pub uninterp spec fn json_reading(text: Seq<char>) -> Result<RawView, Seq<char>>;

/// What `serde_json::Number` reads from a text, if it reads a number.
pub uninterp spec fn number_reading(text: Seq<char>) -> Option<RawNumber>;

/// The text that `serde_json::Value` renders itself to.
pub uninterp spec fn json_text(v: RawView) -> Seq<char>;

/// The text that `serde_json::to_string_pretty` renders a value to.
pub uninterp spec fn pretty_text(v: RawView) -> Seq<char>;

/// `serde_json::from_str` reads a value from text. What it returns, and the
/// message of its error, depend on the text alone; [`json_reading`] names them.
#[verifier::external_body]
fn read_value(text: &str) -> (r: Result<serde_json::Value, String>)
    ensures
        match r {
            Ok(v) => json_reading(text@) == Result::<RawView, Seq<char>>::Ok(value_held(v)),
            Err(m) => json_reading(text@) == Result::<RawView, Seq<char>>::Err(m@),
        },
{
    serde_json::from_str(text).map_err(|e: serde_json::Error| e.to_string())
}

/// Number of levels of arrays and objects that `serde_json` reads.
pub const LEVELS: u64 = 127;

/// Whether the text of a value is read back as the value: it nests no deeper
/// than a number of levels, the texts of its numbers are read as themselves, and
/// no member has the name that `serde_json` keeps for text that it leaves unread.
pub open spec fn readable(v: RawView, levels: nat) -> bool
    decreases v,
{
    match v {
        RawView::Number(RawNumber::Real(t)) => number_reading(t) == Some(RawNumber::Real(t)),
        RawView::Array(items) => levels > 0 && forall|i: int|
            0 <= i < items.len() ==> readable(#[trigger] items[i], (levels - 1) as nat),
        RawView::Object(members) => levels > 0 && forall|i: int|
            0 <= i < members.len() ==> (#[trigger] members[i]).0 != "$serde_json::private::RawValue"@
                && readable(members[i].1, (levels - 1) as nat),
        _ => true,
    }
}

/// Whether a text is read as a value.
pub open spec fn reads_as(text: Seq<char>, v: RawView) -> bool {
    json_reading(text) == Result::<RawView, Seq<char>>::Ok(v)
}

/// `serde_json::Value` renders itself as compact JSON text, which depends on
/// what it holds alone; [`json_text`] names it. `serde_json::from_str` reads that
/// text as the same value, where the value is [`readable`].
#[verifier::external_body]
pub(crate) fn write_value(v: &serde_json::Value) -> (r: String)
    ensures
        r@ == json_text(value_held(*v)),
        readable(value_held(*v), LEVELS as nat) ==> reads_as(r@, value_held(*v)),
{
    v.to_string()
}

/// `serde_json::to_string_pretty` renders a value as indented JSON text, which
/// depends on what it holds alone; [`pretty_text`] names it. Rendering a
/// `Value` does not fail.
#[verifier::external_body]
pub(crate) fn write_pretty(v: &serde_json::Value) -> (r: String)
    ensures
        r@ == pretty_text(value_held(*v)),
{
    serde_json::to_string_pretty(v).unwrap_or_default()
}

/// One level of a `serde_json::Value`.
pub enum Level {
    Null,
    Bool(bool),
    Number(serde_json::Number),
    Text(String),
    Array(Vec<serde_json::Value>),
    Object(Vec<(String, serde_json::Value)>),
}

/// What values hold, one by one.
pub open spec fn values_held(vs: Seq<serde_json::Value>) -> Seq<RawView> {
    Seq::new(vs.len(), |i: int| value_held(vs[i]))
}

/// What members hold, one by one.
pub open spec fn members_held(ms: Seq<(String, serde_json::Value)>) -> Seq<(Seq<char>, RawView)> {
    Seq::new(ms.len(), |i: int| (ms[i].0@, value_held(ms[i].1)))
}

/// Takes a `serde_json::Value` apart by its variants; the members of an object
/// come in the order of its map's iterator.
#[verifier::external_body]
fn open_value(v: serde_json::Value) -> (r: Level)
    ensures
        value_held(v) == (match r {
            Level::Null => RawView::Null,
            Level::Bool(b) => RawView::Bool(b),
            Level::Number(n) => RawView::Number(number_held(n)),
            Level::Text(s) => RawView::Text(s@),
            Level::Array(vs) => RawView::Array(values_held(vs@)),
            Level::Object(ms) => RawView::Object(members_held(ms@)),
        }),
{
    match v {
        serde_json::Value::Null => Level::Null,
        serde_json::Value::Bool(b) => Level::Bool(b),
        serde_json::Value::Number(n) => Level::Number(n),
        serde_json::Value::String(s) => Level::Text(s),
        serde_json::Value::Array(vs) => Level::Array(vs),
        serde_json::Value::Object(ms) => Level::Object(ms.into_iter().collect()),
    }
}

/// The signed integer that a number is, if it is one and fits.
pub open spec fn signed(n: RawNumber) -> Option<i64> {
    match n {
        RawNumber::Natural(x) => if x <= i64::MAX {
            Some(x as i64)
        } else {
            None
        },
        RawNumber::Negative(i) => Some(i),
        RawNumber::Real(_) => None,
    }
}

/// `Number::as_u64` gives the value of a natural number and nothing else.
#[verifier::external_body]
fn natural_of(n: &serde_json::Number) -> (r: Option<u64>)
    ensures
        r == (match number_held(*n) {
            RawNumber::Natural(x) => Some(x),
            _ => None,
        }),
{
    n.as_u64()
}

/// `Number::as_i64` gives the value of an integer that fits the signed range.
#[verifier::external_body]
fn integer_of(n: &serde_json::Number) -> (r: Option<i64>)
    ensures
        r == signed(number_held(*n)),
{
    n.as_i64()
}

/// `serde_json::Number` renders itself as text; a number that is no integer is
/// known by that text.
#[verifier::external_body]
fn text_of(n: &serde_json::Number) -> (r: String)
    ensures
        number_held(*n) matches RawNumber::Real(t) ==> r@ == t,
{
    n.to_string()
}

// ---------------------------------------------------------------------------
// Reading
// ---------------------------------------------------------------------------

/// The texts of a value's numbers that have not been read yet, in order.
pub open spec fn unread(v: RawView, n: ReadingsView) -> Seq<Seq<char>>
    decreases v, 0int,
{
    match v {
        RawView::Number(RawNumber::Real(t)) => if n.doubles.contains_key(t) {
            Seq::empty()
        } else {
            seq![t]
        },
        RawView::Array(items) => unread_items(items, n),
        RawView::Object(members) => unread_members(members, n),
        _ => Seq::empty(),
    }
}

/// The texts of the numbers of values that have not been read yet.
pub open spec fn unread_items(items: Seq<RawView>, n: ReadingsView) -> Seq<Seq<char>>
    decreases items, items.len(),
{
    if items.len() == 0 {
        Seq::empty()
    } else {
        unread_items(items.drop_last(), n) + unread(items.last(), n)
    }
}

/// The texts of the numbers of members that have not been read yet.
pub open spec fn unread_members(members: Seq<(Seq<char>, RawView)>, n: ReadingsView) -> Seq<Seq<char>>
    decreases members, members.len(),
{
    if members.len() == 0 {
        Seq::empty()
    } else {
        unread_members(members.drop_last(), n) + unread(members.last().1, n)
    }
}

/// A number whose text was read. A text that was found to be no number, or was
/// not read, leaves nothing.
pub open spec fn read_number(x: RawNumber, n: ReadingsView) -> JsonView {
    match x {
        RawNumber::Natural(m) => JsonView::Number(JsonNumber::Natural(m)),
        RawNumber::Negative(i) => JsonView::Number(JsonNumber::Negative(i)),
        RawNumber::Real(t) => if n.doubles.contains_key(t) {
            match n.doubles[t] {
                Some(f) => JsonView::Number(JsonNumber::Double(f)),
                None => JsonView::Null,
            }
        } else {
            JsonView::Null
        },
    }
}

/// A value with its numbers as they were read.
pub open spec fn filled(v: RawView, n: ReadingsView) -> JsonView
    decreases v,
{
    match v {
        RawView::Null => JsonView::Null,
        RawView::Bool(b) => JsonView::Bool(b),
        RawView::Number(x) => read_number(x, n),
        RawView::Text(s) => JsonView::Text(s),
        RawView::Array(items) => JsonView::Array(
            Seq::new(
                items.len(),
                |i: int|
                    if 0 <= i < items.len() {
                        filled(items[i], n)
                    } else {
                        JsonView::Null
                    },
            ),
        ),
        RawView::Object(members) => JsonView::Object(
            Seq::new(
                members.len(),
                |i: int|
                    if 0 <= i < members.len() {
                        (members[i].0, filled(members[i].1, n))
                    } else {
                        (Seq::empty(), JsonView::Null)
                    },
            ),
        ),
    }
}

/// Why a text was not read.
#[derive(Debug, PartialEq)]
pub enum ReadError {
    /// It is no JSON; the reader's message.
    Invalid(String),
    /// These texts of numbers have to be read first.
    Numbers(Vec<String>),
}

/// Why a text was not read, as a mathematical value.
pub enum ReadErrorView {
    Invalid(Seq<char>),
    Numbers(Seq<Seq<char>>),
}

impl View for ReadError {
    type V = ReadErrorView;

    open spec fn view(&self) -> ReadErrorView {
        match self {
            ReadError::Invalid(m) => ReadErrorView::Invalid(m@),
            ReadError::Numbers(t) => ReadErrorView::Numbers(text::views(t@)),
        }
    }
}

/// What a JSON text stands for, given how the texts of numbers were read.
pub open spec fn read_with(text: Seq<char>, n: ReadingsView) -> Result<JsonView, ReadErrorView> {
    match json_reading(text) {
        Ok(v) => if unread(v, n).len() > 0 {
            Err(ReadErrorView::Numbers(unread(v, n)))
        } else {
            Ok(filled(v, n))
        },
        Err(m) => Err(ReadErrorView::Invalid(m)),
    }
}

/// Whether a reading ended as it should.
pub open spec fn read_as(r: Result<Json, ReadError>, want: Result<JsonView, ReadErrorView>) -> bool {
    match (r, want) {
        (Ok(j), Ok(v)) => j@ == v,
        (Err(e), Err(v)) => e@ == v,
        _ => false,
    }
}

/// Texts that are asked for more than before.
spec fn asks(before: Seq<String>, after: Seq<String>, more: Seq<Seq<char>>) -> bool {
    text::views(after) == text::views(before) + more
}

fn from_number(n: &serde_json::Number, known: &Readings, asked: &mut Vec<String>) -> (r: Json)
    requires
        known.wf(),
    ensures
        r@ == read_number(number_held(*n), known@),
        asks(old(asked)@, final(asked)@, unread(RawView::Number(number_held(*n)), known@)),
{
    match natural_of(n) {
        Some(x) => {
            assert(text::views(asked@) =~= text::views(old(asked)@) + Seq::<Seq<char>>::empty());
            Json::Number(JsonNumber::Natural(x))
        },
        None => match integer_of(n) {
            Some(i) => {
                assert(text::views(asked@) =~= text::views(old(asked)@) + Seq::<Seq<char>>::empty());
                Json::Number(JsonNumber::Negative(i))
            },
            None => {
                let t: String = text_of(n);
                match known.double(t.as_str()) {
                    Some(read) => {
                        assert(text::views(asked@) =~= text::views(old(asked)@) + Seq::<Seq<char>>::empty());
                        match read {
                            Some(f) => Json::Number(JsonNumber::Double(f)),
                            None => Json::Null,
                        }
                    },
                    None => {
                        let ghost told = t@;
                        asked.push(t);
                        assert(text::views(asked@) =~= text::views(old(asked)@) + seq![told]);
                        Json::Null
                    },
                }
            },
        },
    }
}

fn from_value(v: serde_json::Value, known: &Readings, asked: &mut Vec<String>) -> (r: Json)
    requires
        known.wf(),
    ensures
        r@ == filled(value_held(v), known@),
        asks(old(asked)@, final(asked)@, unread(value_held(v), known@)),
    decreases value_held(v),
{
    let ghost start = asked@;
    let ghost n = known@;
    proof {
        assert(text::views(start) + Seq::<Seq<char>>::empty() =~= text::views(start));
    }
    match open_value(v) {
        Level::Null => Json::Null,
        Level::Bool(b) => Json::Bool(b),
        Level::Number(x) => from_number(&x, known, asked),
        Level::Text(s) => Json::Text(s),
        Level::Array(vs) => {
            let ghost all = vs@;
            let ghost held = values_held(all);
            let mut left: Vec<serde_json::Value> = reversed(vs);
            let mut items: Vec<Json> = Vec::new();
            assert(held.take(0) =~= Seq::empty());
            while left.len() > 0
                invariant
                    known.wf(),
                    n == known@,
                    held == values_held(all),
                    value_held(v) == RawView::Array(held),
                    left@.len() + items@.len() == all.len(),
                    forall|j: int| 0 <= j < left@.len() ==> #[trigger] left@[j] == all[all.len() - 1 - j],
                    forall|j: int| 0 <= j < items@.len() ==> (#[trigger] items@[j])@ == filled(held[j], n),
                    asks(start, asked@, unread_items(held.take(items@.len() as int), n)),
                decreases left@.len(),
            {
                let ghost k = items@.len() as int;
                let ghost before = asked@;
                if let Some(x) = left.pop() {
                    assert(x == all[k]);
                    assert(value_held(v)->Array_0[k] == value_held(x));
                    assert(decreases_to!(value_held(v) => value_held(v)->Array_0[k]));
                    items.push(from_value(x, known, asked));
                    proof {
                        assert(held.take(k + 1).drop_last() =~= held.take(k));
                        assert(held.take(k + 1).last() == held[k]);
                        let a = unread_items(held.take(k), n);
                        let b = unread(held[k], n);
                        assert(text::views(start) + (a + b) =~= (text::views(start) + a) + b);
                    }
                }
            }
            proof {
                assert(held.take(items@.len() as int) =~= held);
                json::lemma_array_view(items);
                assert(json::items_view(items@) =~= filled(value_held(v), n)->Array_0);
            }
            Json::Array(items)
        },
        Level::Object(ms) => {
            let ghost all = ms@;
            let ghost held = members_held(all);
            let mut left: Vec<(String, serde_json::Value)> = reversed(ms);
            let mut members: Vec<(String, Json)> = Vec::new();
            assert(held.take(0) =~= Seq::empty());
            while left.len() > 0
                invariant
                    known.wf(),
                    n == known@,
                    held == members_held(all),
                    value_held(v) == RawView::Object(held),
                    left@.len() + members@.len() == all.len(),
                    forall|j: int| 0 <= j < left@.len() ==> #[trigger] left@[j] == all[all.len() - 1 - j],
                    forall|j: int|
                        0 <= j < members@.len() ==> (#[trigger] members@[j]).0@ == held[j].0
                            && members@[j].1@ == filled(held[j].1, n),
                    asks(start, asked@, unread_members(held.take(members@.len() as int), n)),
                decreases left@.len(),
            {
                let ghost k = members@.len() as int;
                if let Some((name, x)) = left.pop() {
                    assert((name, x) == all[k]);
                    assert(value_held(v)->Object_0[k] == (name@, value_held(x)));
                    assert(decreases_to!(value_held(v) => value_held(v)->Object_0[k]));
                    assert(decreases_to!(value_held(v) => value_held(v)->Object_0[k].1));
                    members.push((name, from_value(x, known, asked)));
                    proof {
                        assert(held.take(k + 1).drop_last() =~= held.take(k));
                        assert(held.take(k + 1).last() == held[k]);
                        let a = unread_members(held.take(k), n);
                        let b = unread(held[k].1, n);
                        assert(text::views(start) + (a + b) =~= (text::views(start) + a) + b);
                    }
                }
            }
            proof {
                assert(held.take(members@.len() as int) =~= held);
                json::lemma_object_view(members);
                assert(json::members_view(members@) =~= filled(value_held(v), n)->Object_0);
            }
            Json::Object(members)
        },
    }
}

/// A vector back to front.
fn reversed<T>(v: Vec<T>) -> (r: Vec<T>)
    ensures
        r@.len() == v@.len(),
        forall|i: int| 0 <= i < v@.len() ==> #[trigger] r@[i] == v@[v@.len() - 1 - i],
{
    let mut v = v;
    let ghost all = v@;
    let mut out: Vec<T> = Vec::new();
    while v.len() > 0
        invariant
            v@.len() + out@.len() == all.len(),
            v@ == all.take(v@.len() as int),
            forall|i: int| 0 <= i < out@.len() ==> #[trigger] out@[i] == all[all.len() - 1 - i],
        decreases v@.len(),
    {
        let ghost k = v@.len() - 1;
        if let Some(x) = v.pop() {
            out.push(x);
            assert(v@ =~= all.take(k));
        }
    }
    out
}

impl Json {
    /// Reads JSON text. Where texts of numbers have not been read yet, all of
    /// them are asked for.
    pub fn read(text: &str, known: &Readings) -> (r: Result<Json, ReadError>)
        requires
            known.wf(),
        ensures
            read_as(r, read_with(text@, known@)),
    {
        match read_value(text) {
            Ok(v) => {
                let mut asked: Vec<String> = Vec::new();
                let j: Json = from_value(v, known, &mut asked);
                proof {
                    let none: Seq<String> = Seq::empty();
                    assert(text::views(none) + unread(value_held(v), known@) =~= unread(value_held(v), known@));
                }
                if asked.len() > 0 {
                    Err(ReadError::Numbers(asked))
                } else {
                    Ok(j)
                }
            },
            Err(m) => Err(ReadError::Invalid(m)),
        }
    }
}

/// JSON text laid out over lines. Text that is no JSON stays as it is.
pub fn laid_out(text: &str) -> (r: String)
    ensures
        r@ == (match json_reading(text@) {
            Ok(v) => pretty_text(v),
            Err(_) => text@,
        }),
{
    match read_value(text) {
        Ok(v) => write_pretty(&v),
        Err(_) => text.to_owned(),
    }
}

/// Only texts that have not been read yet are asked for.
pub proof fn lemma_asks_news(v: RawView, n: ReadingsView)
    ensures
        forall|i: int| 0 <= i < unread(v, n).len() ==> !n.doubles.contains_key(#[trigger] unread(v, n)[i]),
{
    let all = ReadingsView {
        doubles: Map::new(
            |t: Seq<char>| true,
            |t: Seq<char>|
                if n.doubles.contains_key(t) {
                    n.doubles[t]
                } else {
                    None
                },
        ),
        ..n
    };
    numbers_are_asked_for_once(v, n, all);
}

/// Whether nothing that was read is read otherwise later on.
pub open spec fn extends(a: ReadingsView, b: ReadingsView) -> bool {
    forall|t: Seq<char>| #[trigger]
        a.doubles.contains_key(t) ==> b.doubles.contains_key(t) && b.doubles[t] == a.doubles[t]
}

/// Only texts that have not been read yet are asked for, and once they are read
/// nothing is asked for any more.
pub proof fn numbers_are_asked_for_once(v: RawView, a: ReadingsView, b: ReadingsView)
    requires
        extends(a, b),
        forall|i: int| 0 <= i < unread(v, a).len() ==> b.doubles.contains_key(#[trigger] unread(v, a)[i]),
    ensures
        forall|i: int| 0 <= i < unread(v, a).len() ==> !a.doubles.contains_key(#[trigger] unread(v, a)[i]),
        unread(v, b) == Seq::<Seq<char>>::empty(),
    decreases v, 1int, 0nat,
{
    match v {
        RawView::Array(items) => {
            assert forall|i: int| 0 <= i < items.len() implies decreases_to!(v => #[trigger] items[i]) by {
                assert(v->Array_0[i] == items[i]);
            }
            assert(unread(v, a) == unread_items(items, a));
            lemma_items_asked_once(v, items, a, b);
            assert(unread(v, b) == unread_items(items, b));
        },
        RawView::Object(members) => {
            assert forall|i: int| 0 <= i < members.len() implies decreases_to!(v => (#[trigger] members[i]).1) by {
                assert(v->Object_0[i] == members[i]);
                assert(decreases_to!(v => v->Object_0[i]));
            }
            assert(unread(v, a) == unread_members(members, a));
            lemma_members_asked_once(v, members, a, b);
            assert(unread(v, b) == unread_members(members, b));
        },
        RawView::Number(RawNumber::Real(t)) => {
            if !a.doubles.contains_key(t) {
                assert(unread(v, a)[0] == t);
            }
        },
        _ => {},
    }
}

proof fn lemma_items_asked_once(v: RawView, items: Seq<RawView>, a: ReadingsView, b: ReadingsView)
    requires
        extends(a, b),
        forall|i: int| 0 <= i < items.len() ==> decreases_to!(v => #[trigger] items[i]),
        forall|i: int|
            0 <= i < unread_items(items, a).len() ==> b.doubles.contains_key(
                #[trigger] unread_items(items, a)[i],
            ),
    ensures
        forall|i: int|
            0 <= i < unread_items(items, a).len() ==> !a.doubles.contains_key(
                #[trigger] unread_items(items, a)[i],
            ),
        unread_items(items, b) == Seq::<Seq<char>>::empty(),
    decreases v, 0int, items.len(),
{
    if items.len() > 0 {
        let init = items.drop_last();
        let last = items.last();
        let x = unread_items(init, a);
        let y = unread(last, a);
        assert forall|i: int| 0 <= i < init.len() implies decreases_to!(v => #[trigger] init[i]) by {
            assert(init[i] == items[i]);
        }
        assert forall|i: int| 0 <= i < x.len() implies b.doubles.contains_key(#[trigger] x[i]) by {
            assert((x + y)[i] == x[i]);
        }
        assert forall|i: int| 0 <= i < y.len() implies b.doubles.contains_key(#[trigger] y[i]) by {
            assert((x + y)[x.len() + i] == y[i]);
        }
        lemma_items_asked_once(v, init, a, b);
        assert(last == items[items.len() - 1]);
        numbers_are_asked_for_once(last, a, b);
        assert forall|i: int| 0 <= i < (x + y).len() implies !a.doubles.contains_key(#[trigger] (x + y)[i]) by {
            if i < x.len() {
                assert((x + y)[i] == x[i]);
            } else {
                assert((x + y)[i] == y[i - x.len()]);
            }
        }
    }
}

proof fn lemma_members_asked_once(
    v: RawView,
    members: Seq<(Seq<char>, RawView)>,
    a: ReadingsView,
    b: ReadingsView,
)
    requires
        extends(a, b),
        forall|i: int| 0 <= i < members.len() ==> decreases_to!(v => (#[trigger] members[i]).1),
        forall|i: int|
            0 <= i < unread_members(members, a).len() ==> b.doubles.contains_key(
                #[trigger] unread_members(members, a)[i],
            ),
    ensures
        forall|i: int|
            0 <= i < unread_members(members, a).len() ==> !a.doubles.contains_key(
                #[trigger] unread_members(members, a)[i],
            ),
        unread_members(members, b) == Seq::<Seq<char>>::empty(),
    decreases v, 0int, members.len(),
{
    if members.len() > 0 {
        let init = members.drop_last();
        let last = members.last();
        let x = unread_members(init, a);
        let y = unread(last.1, a);
        assert forall|i: int| 0 <= i < init.len() implies decreases_to!(v => (#[trigger] init[i]).1) by {
            assert(init[i] == members[i]);
        }
        assert forall|i: int| 0 <= i < x.len() implies b.doubles.contains_key(#[trigger] x[i]) by {
            assert((x + y)[i] == x[i]);
        }
        assert forall|i: int| 0 <= i < y.len() implies b.doubles.contains_key(#[trigger] y[i]) by {
            assert((x + y)[x.len() + i] == y[i]);
        }
        lemma_members_asked_once(v, init, a, b);
        assert(last == members[members.len() - 1]);
        numbers_are_asked_for_once(last.1, a, b);
        assert forall|i: int| 0 <= i < (x + y).len() implies !a.doubles.contains_key(#[trigger] (x + y)[i]) by {
            if i < x.len() {
                assert((x + y)[i] == x[i]);
            } else {
                assert((x + y)[i] == y[i - x.len()]);
            }
        }
    }
}

/// Readings that come later change nothing of a value whose numbers were all
/// read.
pub proof fn later_readings_change_nothing(v: RawView, a: ReadingsView, b: ReadingsView)
    requires
        extends(a, b),
        unread(v, a).len() == 0,
    ensures
        filled(v, b) == filled(v, a),
    decreases v,
{
    match v {
        RawView::Array(items) => {
            assert forall|i: int| 0 <= i < items.len() implies filled(#[trigger] items[i], b) == filled(
                items[i],
                a,
            ) by {
                lemma_item_is_read(items, a, i);
                assert(decreases_to!(v => v->Array_0[i]));
                later_readings_change_nothing(items[i], a, b);
            }
            assert(filled(v, b)->Array_0 =~= filled(v, a)->Array_0);
        },
        RawView::Object(members) => {
            assert forall|i: int| 0 <= i < members.len() implies filled((#[trigger] members[i]).1, b) == filled(
                members[i].1,
                a,
            ) by {
                lemma_member_is_read(members, a, i);
                assert(decreases_to!(v => v->Object_0[i]));
                later_readings_change_nothing(members[i].1, a, b);
            }
            assert(filled(v, b)->Object_0 =~= filled(v, a)->Object_0);
        },
        _ => {},
    }
}

proof fn lemma_item_is_read(items: Seq<RawView>, n: ReadingsView, i: int)
    requires
        unread_items(items, n).len() == 0,
        0 <= i < items.len(),
    ensures
        unread(items[i], n).len() == 0,
    decreases items.len(),
{
    if i < items.len() - 1 {
        lemma_item_is_read(items.drop_last(), n, i);
    }
}

proof fn lemma_member_is_read(members: Seq<(Seq<char>, RawView)>, n: ReadingsView, i: int)
    requires
        unread_members(members, n).len() == 0,
        0 <= i < members.len(),
    ensures
        unread(members[i].1, n).len() == 0,
    decreases members.len(),
{
    if i < members.len() - 1 {
        lemma_member_is_read(members.drop_last(), n, i);
    }
}

// ---------------------------------------------------------------------------
// Writing
// ---------------------------------------------------------------------------

/// `Number::from` on an unsigned integer holds that natural number.
#[verifier::external_body]
fn number_from_u64(x: u64) -> (r: serde_json::Number)
    ensures
        number_held(r) == RawNumber::Natural(x),
{
    serde_json::Number::from(x)
}

/// `Number::from` on a negative integer holds that integer.
#[verifier::external_body]
fn number_from_i64(i: i64) -> (r: serde_json::Number)
    requires
        i < 0,
    ensures
        number_held(r) == RawNumber::Negative(i),
{
    serde_json::Number::from(i)
}

/// `serde_json::Number` is read from text, by its `FromStr`. What comes of it
/// depends on the text alone; [`number_reading`] names it.
#[verifier::external_body]
fn number_from_text(text: &str) -> (r: Option<serde_json::Number>)
    ensures
        match r {
            Some(n) => number_reading(text@) == Some(number_held(n)),
            None => number_reading(text@) is None,
        },
{
    text.parse::<serde_json::Number>().ok()
}

/// Builds a `serde_json::Value` from its parts. Of the members of an object
/// this is said for at most one: the map of several may order them anew.
#[verifier::external_body]
fn close_value(l: Level) -> (r: serde_json::Value)
    requires
        l matches Level::Object(ms) ==> ms@.len() <= 1,
    ensures
        value_held(r) == (match l {
            Level::Null => RawView::Null,
            Level::Bool(b) => RawView::Bool(b),
            Level::Number(n) => RawView::Number(number_held(n)),
            Level::Text(s) => RawView::Text(s@),
            Level::Array(vs) => RawView::Array(values_held(vs@)),
            Level::Object(ms) => RawView::Object(members_held(ms@)),
        }),
{
    match l {
        Level::Null => serde_json::Value::Null,
        Level::Bool(b) => serde_json::Value::Bool(b),
        Level::Number(n) => serde_json::Value::Number(n),
        Level::Text(s) => serde_json::Value::String(s),
        Level::Array(vs) => serde_json::Value::Array(vs),
        Level::Object(ms) => serde_json::Value::Object(ms.into_iter().collect()),
    }
}

/// Whether numbers are in their one form: negative integers are negative,
/// doubles are finite, and no object has more than one member.
pub open spec fn plain(v: JsonView) -> bool
    decreases v,
{
    match v {
        JsonView::Number(n) => match n {
            JsonNumber::Natural(_) => true,
            JsonNumber::Negative(i) => i < 0,
            JsonNumber::Double(f) => f.finite(),
        },
        JsonView::Array(items) => forall|i: int| 0 <= i < items.len() ==> plain(#[trigger] items[i]),
        JsonView::Object(members) => members.len() <= 1 && forall|i: int|
            0 <= i < members.len() ==> plain((#[trigger] members[i]).1),
        _ => true,
    }
}

proof fn lemma_plain_parts(v: JsonView)
    requires
        plain(v),
    ensures
        v matches JsonView::Array(items) ==> forall|i: int|
            0 <= i < items.len() ==> plain(#[trigger] items[i]),
        v matches JsonView::Object(members) ==> members.len() <= 1 && forall|i: int|
            0 <= i < members.len() ==> plain((#[trigger] members[i]).1),
{
    if let JsonView::Array(items) = v {
        assert forall|i: int| 0 <= i < items.len() implies plain(#[trigger] items[i]) by {
            assert(v->Array_0[i] == items[i]);
        }
    }
    if let JsonView::Object(members) = v {
        assert forall|i: int| 0 <= i < members.len() implies plain((#[trigger] members[i]).1) by {
            assert(v->Object_0[i] == members[i]);
        }
    }
}

/// The numbers of a value that have no text yet, in order.
pub open spec fn unwritten(v: JsonView, n: ReadingsView) -> Seq<F64>
    decreases v, 0int,
{
    match v {
        JsonView::Number(JsonNumber::Double(f)) => if n.texts.contains_key(f.bits) {
            Seq::empty()
        } else {
            seq![f]
        },
        JsonView::Array(items) => unwritten_items(items, n),
        JsonView::Object(members) => unwritten_members(members, n),
        _ => Seq::empty(),
    }
}

/// The numbers of values that have no text yet.
pub open spec fn unwritten_items(items: Seq<JsonView>, n: ReadingsView) -> Seq<F64>
    decreases items, items.len(),
{
    if items.len() == 0 {
        Seq::empty()
    } else {
        unwritten_items(items.drop_last(), n) + unwritten(items.last(), n)
    }
}

/// The numbers of members that have no text yet.
pub open spec fn unwritten_members(members: Seq<(Seq<char>, JsonView)>, n: ReadingsView) -> Seq<F64>
    decreases members, members.len(),
{
    if members.len() == 0 {
        Seq::empty()
    } else {
        unwritten_members(members.drop_last(), n) + unwritten(members.last().1, n)
    }
}

/// A number with its text. One without a text, or with a text that is no number,
/// leaves nothing.
pub open spec fn written_number(x: JsonNumber, n: ReadingsView) -> RawView {
    match x {
        JsonNumber::Natural(m) => RawView::Number(RawNumber::Natural(m)),
        JsonNumber::Negative(i) => RawView::Number(RawNumber::Negative(i)),
        JsonNumber::Double(f) => if n.texts.contains_key(f.bits) {
            match number_reading(n.texts[f.bits]) {
                Some(m) => RawView::Number(m),
                None => RawView::Null,
            }
        } else {
            RawView::Null
        },
    }
}

/// A value with its numbers as they are written.
pub open spec fn written(v: JsonView, n: ReadingsView) -> RawView
    decreases v,
{
    match v {
        JsonView::Null => RawView::Null,
        JsonView::Bool(b) => RawView::Bool(b),
        JsonView::Number(x) => written_number(x, n),
        JsonView::Text(s) => RawView::Text(s),
        JsonView::Array(items) => RawView::Array(
            Seq::new(
                items.len(),
                |i: int|
                    if 0 <= i < items.len() {
                        written(items[i], n)
                    } else {
                        RawView::Null
                    },
            ),
        ),
        JsonView::Object(members) => RawView::Object(
            Seq::new(
                members.len(),
                |i: int|
                    if 0 <= i < members.len() {
                        (members[i].0, written(members[i].1, n))
                    } else {
                        (Seq::empty(), RawView::Null)
                    },
            ),
        ),
    }
}

fn to_number(x: &JsonNumber, known: &Readings, asked: &mut Vec<F64>) -> (r: serde_json::Value)
    requires
        known.wf(),
        plain(JsonView::Number(*x)),
    ensures
        value_held(r) == written_number(*x, known@),
        final(asked)@ == old(asked)@ + unwritten(JsonView::Number(*x), known@),
{
    match x {
        JsonNumber::Natural(m) => close_value(Level::Number(number_from_u64(*m))),
        JsonNumber::Negative(i) => close_value(Level::Number(number_from_i64(*i))),
        JsonNumber::Double(f) => match known.text(*f) {
            Some(t) => match number_from_text(t.as_str()) {
                Some(m) => close_value(Level::Number(m)),
                None => close_value(Level::Null),
            },
            None => {
                asked.push(*f);
                close_value(Level::Null)
            },
        },
    }
}

fn to_value(j: &Json, known: &Readings, asked: &mut Vec<F64>) -> (r: serde_json::Value)
    requires
        known.wf(),
        plain(j@),
    ensures
        value_held(r) == written(j@, known@),
        final(asked)@ == old(asked)@ + unwritten(j@, known@),
    decreases j,
{
    let ghost start = asked@;
    let ghost n = known@;
    proof {
        lemma_plain_parts(j@);
    }
    match j {
        Json::Null => close_value(Level::Null),
        Json::Bool(b) => close_value(Level::Bool(*b)),
        Json::Number(x) => to_number(x, known, asked),
        Json::Text(s) => close_value(Level::Text(s.clone())),
        Json::Array(items) => {
            proof {
                json::lemma_array_view(*items);
            }
            let mut vs: Vec<serde_json::Value> = Vec::new();
            let mut i: usize = 0;
            let ghost views = json::items_view(items@);
            proof {
                assert(j@ == JsonView::Array(views));
                assert forall|k: int| 0 <= k < views.len() implies plain(#[trigger] views[k]) by {
                    assert(j@->Array_0[k] == views[k]);
                }
                assert(views.take(0) =~= Seq::empty());
            }
            while i < items.len()
                invariant
                    known.wf(),
                    n == known@,
                    i <= items.len(),
                    *j == Json::Array(*items),
                    j@ == JsonView::Array(views),
                    views == json::items_view(items@),
                    forall|k: int| 0 <= k < views.len() ==> plain(#[trigger] views[k]),
                    vs@.len() == i,
                    forall|k: int| 0 <= k < i ==> value_held(#[trigger] vs@[k]) == written(views[k], n),
                    asked@ == start + unwritten_items(views.take(i as int), n),
                decreases items.len() - i,
            {
                assert(plain(views[i as int]));
                vs.push(to_value(&items[i], known, asked));
                proof {
                    assert(views.take(i + 1).drop_last() =~= views.take(i as int));
                    assert(views.take(i + 1).last() == views[i as int]);
                }
                i += 1;
            }
            proof {
                assert(views.take(i as int) =~= views);
                assert(values_held(vs@) =~= written(j@, n)->Array_0);
            }
            close_value(Level::Array(vs))
        },
        Json::Object(members) => {
            proof {
                json::lemma_object_view(*members);
            }
            let mut ms: Vec<(String, serde_json::Value)> = Vec::new();
            let mut i: usize = 0;
            let ghost views = json::members_view(members@);
            assert(views.take(0) =~= Seq::empty());
            while i < members.len()
                invariant
                    known.wf(),
                    n == known@,
                    i <= members.len(),
                    *j == Json::Object(*members),
                    j@ == JsonView::Object(views),
                    views == json::members_view(members@),
                    forall|k: int| 0 <= k < members@.len() ==> plain((#[trigger] views[k]).1),
                    ms@.len() == i,
                    forall|k: int|
                        0 <= k < i ==> (#[trigger] ms@[k]).0@ == views[k].0 && value_held(ms@[k].1) == written(
                            views[k].1,
                            n,
                        ),
                    asked@ == start + unwritten_members(views.take(i as int), n),
                decreases members.len() - i,
            {
                assert(plain(views[i as int].1));
                ms.push((members[i].0.clone(), to_value(&members[i].1, known, asked)));
                proof {
                    assert(views.take(i + 1).drop_last() =~= views.take(i as int));
                    assert(views.take(i + 1).last() == views[i as int]);
                }
                i += 1;
            }
            proof {
                assert(views.take(i as int) =~= views);
                assert(members_held(ms@) =~= written(j@, n)->Object_0);
            }
            close_value(Level::Object(ms))
        },
    }
}

/// The text of a value, or the numbers whose texts are missing.
pub open spec fn write_with(v: JsonView, n: ReadingsView) -> Result<Seq<char>, Seq<F64>> {
    if unwritten(v, n).len() > 0 {
        Err(unwritten(v, n))
    } else {
        Ok(json_text(written(v, n)))
    }
}

/// Whether a writing ended as it should.
pub open spec fn wrote(r: Result<String, Vec<F64>>, want: Result<Seq<char>, Seq<F64>>) -> bool {
    match (r, want) {
        (Ok(t), Ok(w)) => t@ == w,
        (Err(f), Err(w)) => f@ == w,
        _ => false,
    }
}

/// Whether what is known of a value's numbers is of one piece: each has a text,
/// which is read as that number. The value nests no deeper than a number of
/// levels, and no member has the name that `serde_json` keeps.
pub open spec fn faithful(v: JsonView, n: ReadingsView, levels: nat) -> bool
    decreases v,
{
    match v {
        JsonView::Number(JsonNumber::Double(f)) => {
            let t = n.texts[f.bits];
            &&& n.texts.contains_key(f.bits)
            &&& number_reading(t) == Some(RawNumber::Real(t))
            &&& n.doubles.contains_key(t)
            &&& n.doubles[t] == Some(f)
        },
        JsonView::Array(items) => levels > 0 && forall|i: int|
            0 <= i < items.len() ==> faithful(#[trigger] items[i], n, (levels - 1) as nat),
        JsonView::Object(members) => levels > 0 && forall|i: int|
            0 <= i < members.len() ==> (#[trigger] members[i]).0 != "$serde_json::private::RawValue"@
                && faithful(members[i].1, n, (levels - 1) as nat),
        _ => true,
    }
}

proof fn lemma_faithful(v: JsonView, n: ReadingsView, levels: nat)
    requires
        faithful(v, n, levels),
    ensures
        unwritten(v, n) == Seq::<F64>::empty(),
        readable(written(v, n), levels),
        unread(written(v, n), n) == Seq::<Seq<char>>::empty(),
        filled(written(v, n), n) == v,
    decreases v,
{
    let w = written(v, n);
    match v {
        JsonView::Array(items) => {
            let less = (levels - 1) as nat;
            let raws = w->Array_0;
            assert forall|i: int| 0 <= i < items.len() implies {
                &&& unwritten(#[trigger] items[i], n) == Seq::<F64>::empty()
                &&& readable(raws[i], less)
                &&& unread(raws[i], n) == Seq::<Seq<char>>::empty()
                &&& filled(raws[i], n) == items[i]
            } by {
                assert(v->Array_0[i] == items[i]);
                assert(decreases_to!(v => v->Array_0[i]));
                assert(raws[i] == written(items[i], n));
                lemma_faithful(items[i], n, less);
            }
            assert forall|i: int| 0 <= i < raws.len() implies readable(#[trigger] raws[i], less) && unread(
                raws[i],
                n,
            ) == Seq::<Seq<char>>::empty() by {
                assert(unwritten(items[i], n) == Seq::<F64>::empty());
            }
            lemma_no_items_unwritten(items, n);
            lemma_no_items_unread(raws, n);
            assert(filled(w, n)->Array_0 =~= items);
        },
        JsonView::Object(members) => {
            let less = (levels - 1) as nat;
            let raws = w->Object_0;
            assert forall|i: int| 0 <= i < members.len() implies {
                &&& unwritten((#[trigger] members[i]).1, n) == Seq::<F64>::empty()
                &&& raws[i].0 == members[i].0
                &&& readable(raws[i].1, less)
                &&& unread(raws[i].1, n) == Seq::<Seq<char>>::empty()
                &&& filled(raws[i].1, n) == members[i].1
            } by {
                assert(v->Object_0[i] == members[i]);
                assert(decreases_to!(v => v->Object_0[i]));
                assert(raws[i] == (members[i].0, written(members[i].1, n)));
                lemma_faithful(members[i].1, n, less);
            }
            assert forall|i: int| 0 <= i < raws.len() implies (#[trigger] raws[i]).0
                != "$serde_json::private::RawValue"@ && readable(raws[i].1, less) && unread(raws[i].1, n)
                == Seq::<Seq<char>>::empty() by {
                assert(unwritten(members[i].1, n) == Seq::<F64>::empty());
            }
            lemma_no_members_unwritten(members, n);
            lemma_no_members_unread(raws, n);
            assert(filled(w, n)->Object_0 =~= members);
        },
        _ => {},
    }
}

proof fn lemma_no_items_unwritten(items: Seq<JsonView>, n: ReadingsView)
    requires
        forall|i: int| 0 <= i < items.len() ==> unwritten(#[trigger] items[i], n) == Seq::<F64>::empty(),
    ensures
        unwritten_items(items, n) == Seq::<F64>::empty(),
    decreases items.len(),
{
    if items.len() > 0 {
        let init = items.drop_last();
        assert forall|i: int| 0 <= i < init.len() implies unwritten(#[trigger] init[i], n) == Seq::<F64>::empty() by {
            assert(init[i] == items[i]);
        }
        lemma_no_items_unwritten(init, n);
        assert(items.last() == items[items.len() - 1]);
    }
}

proof fn lemma_no_members_unwritten(members: Seq<(Seq<char>, JsonView)>, n: ReadingsView)
    requires
        forall|i: int|
            0 <= i < members.len() ==> unwritten((#[trigger] members[i]).1, n) == Seq::<F64>::empty(),
    ensures
        unwritten_members(members, n) == Seq::<F64>::empty(),
    decreases members.len(),
{
    if members.len() > 0 {
        let init = members.drop_last();
        assert forall|i: int| 0 <= i < init.len() implies unwritten((#[trigger] init[i]).1, n) == Seq::<
            F64,
        >::empty() by {
            assert(init[i] == members[i]);
        }
        lemma_no_members_unwritten(init, n);
        assert(members.last() == members[members.len() - 1]);
    }
}

proof fn lemma_no_items_unread(items: Seq<RawView>, n: ReadingsView)
    requires
        forall|i: int| 0 <= i < items.len() ==> unread(#[trigger] items[i], n) == Seq::<Seq<char>>::empty(),
    ensures
        unread_items(items, n) == Seq::<Seq<char>>::empty(),
    decreases items.len(),
{
    if items.len() > 0 {
        let init = items.drop_last();
        assert forall|i: int| 0 <= i < init.len() implies unread(#[trigger] init[i], n) == Seq::<
            Seq<char>,
        >::empty() by {
            assert(init[i] == items[i]);
        }
        lemma_no_items_unread(init, n);
        assert(items.last() == items[items.len() - 1]);
    }
}

proof fn lemma_no_members_unread(members: Seq<(Seq<char>, RawView)>, n: ReadingsView)
    requires
        forall|i: int|
            0 <= i < members.len() ==> unread((#[trigger] members[i]).1, n) == Seq::<Seq<char>>::empty(),
    ensures
        unread_members(members, n) == Seq::<Seq<char>>::empty(),
    decreases members.len(),
{
    if members.len() > 0 {
        let init = members.drop_last();
        assert forall|i: int| 0 <= i < init.len() implies unread((#[trigger] init[i]).1, n) == Seq::<
            Seq<char>,
        >::empty() by {
            assert(init[i] == members[i]);
        }
        lemma_no_members_unread(init, n);
        assert(members.last() == members[members.len() - 1]);
    }
}

impl Json {
    /// Renders a plain JSON value as text. Where numbers have no text yet, all
    /// of them are asked for. The text is read back as the value, where what is
    /// known of its numbers is of one piece.
    pub fn write(&self, known: &Readings) -> (r: Result<String, Vec<F64>>)
        requires
            known.wf(),
            plain(self@),
        ensures
            wrote(r, write_with(self@, known@)),
            faithful(self@, known@, LEVELS as nat) ==> (r matches Ok(t) && read_with(t@, known@) == Result::<
                JsonView,
                ReadErrorView,
            >::Ok(self@)),
    {
        proof {
            if faithful(self@, known@, LEVELS as nat) {
                lemma_faithful(self@, known@, LEVELS as nat);
            }
        }
        let mut asked: Vec<F64> = Vec::new();
        let v: serde_json::Value = to_value(self, known, &mut asked);
        assert(asked@ =~= unwritten(self@, known@));
        if asked.len() > 0 {
            Err(asked)
        } else {
            Ok(write_value(&v))
        }
    }
}

/// Values are read as they stand in the text: nothing, truth values, texts and
/// integers as the same ones, a real as the number that it was read as, and
/// lists and objects part by part, under the same names.
pub proof fn values_are_read_as_they_stand(v: RawView, n: ReadingsView, i: int)
    ensures
        v is Null ==> filled(v, n) == JsonView::Null,
        v matches RawView::Bool(b) ==> filled(v, n) == JsonView::Bool(b),
        v matches RawView::Text(s) ==> filled(v, n) == JsonView::Text(s),
        v matches RawView::Number(RawNumber::Natural(x)) ==> filled(v, n) == JsonView::Number(JsonNumber::Natural(x)),
        v matches RawView::Number(RawNumber::Negative(x)) ==> filled(v, n) == JsonView::Number(
            JsonNumber::Negative(x),
        ),
        v matches RawView::Number(RawNumber::Real(t)) ==> (n.doubles.contains_key(t) ==> (n.doubles[t] matches Some(f)
            ==> filled(v, n) == JsonView::Number(JsonNumber::Double(f)))),
        v matches RawView::Array(items) ==> (filled(v, n) matches JsonView::Array(read) && read.len() == items.len()
            && (0 <= i < items.len() ==> read[i] == filled(items[i], n))),
        v matches RawView::Object(members) ==> (filled(v, n) matches JsonView::Object(read) && read.len()
            == members.len() && (0 <= i < members.len() ==> read[i] == (members[i].0, filled(members[i].1, n)))),
{
}

/// Values are written as they are, part by part, and what is written is read as
/// the same kind of value.
pub proof fn values_are_written_as_they_are(v: JsonView, n: ReadingsView, i: int)
    ensures
        v is Null ==> written(v, n) == RawView::Null,
        v matches JsonView::Bool(b) ==> written(v, n) == RawView::Bool(b),
        v matches JsonView::Text(s) ==> written(v, n) == RawView::Text(s),
        v matches JsonView::Number(JsonNumber::Natural(x)) ==> written(v, n) == RawView::Number(
            RawNumber::Natural(x),
        ),
        v matches JsonView::Number(JsonNumber::Negative(x)) ==> written(v, n) == RawView::Number(
            RawNumber::Negative(x),
        ),
        v matches JsonView::Number(JsonNumber::Double(f)) ==> (n.texts.contains_key(f.bits) ==> (number_reading(
            n.texts[f.bits],
        ) matches Some(x) ==> written(v, n) == RawView::Number(x))),
        v matches JsonView::Array(items) ==> (written(v, n) matches RawView::Array(out) && out.len() == items.len()
            && (0 <= i < items.len() ==> out[i] == written(items[i], n))),
        v matches JsonView::Object(members) ==> (written(v, n) matches RawView::Object(out) && out.len()
            == members.len() && (0 <= i < members.len() ==> out[i] == (members[i].0, written(members[i].1, n)))),
{
}

/// A text that is JSON is read as the value that it holds once all its reals are
/// known, and before that asks for those that are not; a text that is no JSON is
/// refused with the reason.
pub proof fn texts_are_read_once_all_is_known(text: Seq<char>, n: ReadingsView)
    ensures
        json_reading(text) matches Err(m) ==> read_with(text, n) == Result::<JsonView, ReadErrorView>::Err(
            ReadErrorView::Invalid(m),
        ),
        json_reading(text) matches Ok(v) ==> match read_with(text, n) {
            Ok(j) => j == filled(v, n) && unread(v, n).len() == 0,
            Err(ReadErrorView::Numbers(t)) => t == unread(v, n) && t.len() > 0,
            Err(ReadErrorView::Invalid(_)) => false,
        },
{
}

} // verus!
