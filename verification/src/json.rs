//! JSON values as the library reads and writes them.

use vstd::prelude::*;

use crate::num::F64;
use crate::text::same_text;

verus! {

/// A JSON number: a natural number, a negative integer or a double.
#[derive(Debug, Clone, Copy, PartialEq, Eq, Structural)]
pub enum JsonNumber {
    Natural(u64),
    Negative(i64),
    Double(F64),
}

/// A JSON value. The members of an object stand in the order in which they are
/// visited.
#[derive(Debug, PartialEq)]
pub enum Json {
    Null,
    Bool(bool),
    Number(JsonNumber),
    Text(String),
    Array(Vec<Json>),
    Object(Vec<(String, Json)>),
}

/// A JSON value as a mathematical value.
#[verifier::ext_equal]
pub enum JsonView {
    Null,
    Bool(bool),
    Number(JsonNumber),
    Text(Seq<char>),
    Array(Seq<JsonView>),
    Object(Seq<(Seq<char>, JsonView)>),
}

/// The mathematical value of a JSON value.
pub open spec fn json_view(j: Json) -> JsonView
    decreases j,
{
    match j {
        Json::Null => JsonView::Null,
        Json::Bool(b) => JsonView::Bool(b),
        Json::Number(n) => JsonView::Number(n),
        Json::Text(s) => JsonView::Text(s@),
        Json::Array(items) => JsonView::Array(
            Seq::new(
                items@.len(),
                |i: int|
                    if 0 <= i < items@.len() {
                        json_view(items@[i])
                    } else {
                        JsonView::Null
                    },
            ),
        ),
        Json::Object(members) => JsonView::Object(
            Seq::new(
                members@.len(),
                |i: int|
                    if 0 <= i < members@.len() {
                        (members@[i].0@, json_view(members@[i].1))
                    } else {
                        (Seq::empty(), JsonView::Null)
                    },
            ),
        ),
    }
}

impl View for Json {
    type V = JsonView;

    open spec fn view(&self) -> JsonView {
        json_view(*self)
    }
}

/// The values of an array.
pub open spec fn items_view(items: Seq<Json>) -> Seq<JsonView> {
    Seq::new(items.len(), |i: int| items[i]@)
}

/// The members of an object.
pub open spec fn members_view(members: Seq<(String, Json)>) -> Seq<(Seq<char>, JsonView)> {
    Seq::new(members.len(), |i: int| (members[i].0@, members[i].1@))
}

pub proof fn lemma_array_view(items: Vec<Json>)
    ensures
        Json::Array(items)@ == JsonView::Array(items_view(items@)),
{
    assert(Json::Array(items)@->Array_0 =~= items_view(items@));
}

pub proof fn lemma_object_view(members: Vec<(String, Json)>)
    ensures
        Json::Object(members)@ == JsonView::Object(members_view(members@)),
{
    assert(Json::Object(members)@->Object_0 =~= members_view(members@));
}

impl JsonNumber {
    /// The number as a signed integer, if it is one and fits.
    pub open spec fn integer(self) -> Option<i64> {
        match self {
            JsonNumber::Natural(n) => if n <= i64::MAX {
                Some(n as i64)
            } else {
                None
            },
            JsonNumber::Negative(i) => Some(i),
            JsonNumber::Double(_) => None,
        }
    }

    /// The number as a double.
    pub open spec fn double(self) -> F64 {
        match self {
            JsonNumber::Natural(n) => F64::of_int(n as int),
            JsonNumber::Negative(i) => F64::of_int(i as int),
            JsonNumber::Double(f) => f,
        }
    }

    /// The integer that the number is, if it fits.
    pub fn as_i64(&self) -> (r: Option<i64>)
        ensures
            r == self.integer(),
    {
        match self {
            JsonNumber::Natural(n) => if *n <= i64::MAX as u64 {
                Some(*n as i64)
            } else {
                None
            },
            JsonNumber::Negative(i) => Some(*i),
            JsonNumber::Double(_) => None,
        }
    }

    /// The number as a double.
    pub fn as_f64(&self) -> (r: F64)
        ensures
            r == self.double(),
    {
        match self {
            JsonNumber::Natural(n) => F64::from_u64(*n),
            JsonNumber::Negative(i) => F64::from_i64(*i),
            JsonNumber::Double(f) => *f,
        }
    }
}

impl JsonView {
    /// The name of the kind of a value, as error messages give it.
    pub open spec fn kind(self) -> Seq<char> {
        match self {
            JsonView::Null => "null"@,
            JsonView::Bool(_) => "boolean"@,
            JsonView::Number(_) => "number"@,
            JsonView::Text(_) => "string"@,
            JsonView::Array(_) => "array"@,
            JsonView::Object(_) => "object"@,
        }
    }

    /// The JSON form of a signed integer.
    pub open spec fn of_int(i: i64) -> JsonView {
        if i < 0 {
            JsonView::Number(JsonNumber::Negative(i))
        } else {
            JsonView::Number(JsonNumber::Natural(i as u64))
        }
    }

    /// The JSON form of a double: JSON knows finite numbers only, anything
    /// else is written as null.
    pub open spec fn of_double(f: F64) -> JsonView {
        if f.finite() {
            JsonView::Number(JsonNumber::Double(f))
        } else {
            JsonView::Null
        }
    }
}

impl Json {
    /// The name of the kind of this value.
    pub fn describe(&self) -> (r: &'static str)
        ensures
            r@ == self@.kind(),
    {
        match self {
            Json::Null => "null",
            Json::Bool(_) => "boolean",
            Json::Number(_) => "number",
            Json::Text(_) => "string",
            Json::Array(_) => "array",
            Json::Object(_) => "object",
        }
    }

    /// The JSON form of a signed integer.
    pub fn from_i64(i: i64) -> (r: Json)
        ensures
            r@ == JsonView::of_int(i),
    {
        if i < 0 {
            Json::Number(JsonNumber::Negative(i))
        } else {
            Json::Number(JsonNumber::Natural(i as u64))
        }
    }

    /// The JSON form of a double.
    pub fn from_f64(f: F64) -> (r: Json)
        ensures
            r@ == JsonView::of_double(f),
    {
        if f.is_finite() {
            Json::Number(JsonNumber::Double(f))
        } else {
            Json::Null
        }
    }
}

/// The first of some members that has a name.
pub open spec fn found_member(members: Seq<(Seq<char>, JsonView)>, name: Seq<char>) -> Option<JsonView>
    decreases members.len(),
{
    if members.len() == 0 {
        None
    } else if members[0].0 == name {
        Some(members[0].1)
    } else {
        found_member(members.drop_first(), name)
    }
}

impl JsonView {
    /// What stands under a name, if the value is an object that has it.
    pub open spec fn member(self, name: Seq<char>) -> Option<JsonView> {
        match self {
            JsonView::Object(members) => found_member(members, name),
            _ => None,
        }
    }

    /// The natural number that the value is, if it is one.
    pub open spec fn natural(self) -> Option<u64> {
        match self {
            JsonView::Number(JsonNumber::Natural(n)) => Some(n),
            _ => None,
        }
    }
}

impl Json {
    /// What stands under a name, if the value is an object that has it.
    #[verifier::loop_isolation(false)]
    pub fn member(&self, name: &str) -> (r: Option<&Json>)
        ensures
            match r {
                Some(j) => self@.member(name@) == Some(j@),
                None => self@.member(name@) is None,
            },
    {
        match self {
            Json::Object(members) => {
                let ghost all = members_view(members@);
                proof {
                    lemma_object_view(*members);
                    assert(all.skip(0) =~= all);
                }
                let mut i: usize = 0;
                while i < members.len()
                    invariant
                        i <= members.len(),
                        all == members_view(members@),
                        found_member(all, name@) == found_member(all.skip(i as int), name@),
                    decreases members.len() - i,
                {
                    proof {
                        assert(all.skip(i as int)[0] == all[i as int]);
                        assert(all.skip(i as int).drop_first() =~= all.skip(i + 1));
                    }
                    if same_text(members[i].0.as_str(), name) {
                        return Some(&members[i].1);
                    }
                    i += 1;
                }
                None
            },
            _ => None,
        }
    }

    /// The natural number that the value is, if it is one.
    pub fn as_natural(&self) -> (r: Option<u64>)
        ensures
            r == self@.natural(),
    {
        match self {
            Json::Number(JsonNumber::Natural(n)) => Some(*n),
            _ => None,
        }
    }
}

/// An object gives the first member of a name, and nothing for a name that none
/// of its members has; no other value has members.
pub proof fn members_are_found_by_name(v: JsonView, name: Seq<char>, i: int)
    ensures
        v matches JsonView::Object(members) ==> {
            &&& 0 <= i < members.len() && members[i].0 == name && (forall|j: int|
                0 <= j < i ==> (#[trigger] members[j]).0 != name) ==> v.member(name) == Some(members[i].1)
            &&& (forall|j: int| 0 <= j < members.len() ==> (#[trigger] members[j]).0 != name) ==> v.member(
                name,
            ) is None
        },
        !(v is Object) ==> v.member(name) is None,
{
    if let JsonView::Object(members) = v {
        lemma_found_member(members, name, i);
    }
}

proof fn lemma_found_member(members: Seq<(Seq<char>, JsonView)>, name: Seq<char>, i: int)
    ensures
        0 <= i < members.len() && members[i].0 == name && (forall|j: int|
            0 <= j < i ==> (#[trigger] members[j]).0 != name) ==> found_member(members, name) == Some(
            members[i].1,
        ),
        (forall|j: int| 0 <= j < members.len() ==> (#[trigger] members[j]).0 != name) ==> found_member(
            members,
            name,
        ) is None,
    decreases members.len(),
{
    if members.len() > 0 {
        let rest = members.drop_first();
        lemma_found_member(rest, name, i - 1);
        if members[0].0 != name {
            assert forall|j: int| 0 <= j < rest.len() implies #[trigger] rest[j] == members[j + 1] by {}
            if 0 < i < members.len() && members[i].0 == name && (forall|j: int|
                0 <= j < i ==> (#[trigger] members[j]).0 != name) {
                assert(rest[i - 1].0 == name);
                assert forall|j: int| 0 <= j < i - 1 implies (#[trigger] rest[j]).0 != name by {
                    assert(members[j + 1].0 != name);
                }
            }
            if forall|j: int| 0 <= j < members.len() ==> (#[trigger] members[j]).0 != name {
                assert forall|j: int| 0 <= j < rest.len() implies (#[trigger] rest[j]).0 != name by {
                    assert(members[j + 1].0 != name);
                }
            }
        }
    }
}

/// Integers keep their value as far as it fits; a real is none.
pub proof fn integers_keep_their_value(n: JsonNumber)
    ensures
        n matches JsonNumber::Natural(m) ==> {
            &&& JsonView::Number(n).natural() == Some(m)
            &&& n.integer() matches Some(i) ==> i == m
            &&& n.integer() is Some <==> m < 0x8000_0000_0000_0000
        },
        n matches JsonNumber::Negative(m) ==> n.integer() == Some(m) && JsonView::Number(n).natural() is None,
        n matches JsonNumber::Double(f) ==> n.integer() is None && n.double() == f && JsonView::Number(
            n,
        ).natural() is None,
{
}

/// A value stands for what it holds, lists and objects part by part.
pub proof fn json_stands_for_what_it_holds(j: Json, i: int)
    ensures
        j is Null ==> j@ == JsonView::Null,
        j matches Json::Bool(b) ==> j@ == JsonView::Bool(b),
        j matches Json::Number(n) ==> j@ == JsonView::Number(n),
        j matches Json::Text(s) ==> j@ == JsonView::Text(s@),
        j matches Json::Array(items) ==> (j@ matches JsonView::Array(vs) && vs.len() == items@.len() && (0 <= i
            < vs.len() ==> vs[i] == items@[i]@)),
        j matches Json::Object(members) ==> (j@ matches JsonView::Object(vs) && vs.len() == members@.len() && (0 <= i
            < vs.len() ==> vs[i] == (members@[i].0@, members@[i].1@))),
{
}

} // verus!
