//! Metadata filters: their JSON forms and what they match.
//!
//! A filter decides which records are eligible, never how they rank. These
//! JSON forms are read:
//!
//! - `{"a": {"$eq": 5}}`, and likewise `$ne`, `$gt`, `$gte`, `$lt`, `$lte`,
//!   `$in` and `$nin`
//! - `{"a": 5}`, short for `{"a": {"$eq": 5}}`
//! - `{"$and": [..]}` and `{"$or": [..]}`, nested as needed
//! - several fields at one level, which must all match

use vstd::prelude::*;
use vstd::string::*;

use crate::json;
use crate::json::{Json, JsonNumber, JsonView};
use crate::json_text;
use crate::json_text::{RawView, ReadError, ReadErrorView};
use crate::num;
use crate::num::F64;
use crate::readings::{Readings, ReadingsView};
use crate::text;
use crate::text::{glue, same_text};
use crate::types;
use crate::types::{MetaView, Metadata, MetadataValue};

verus! {

/// A comparison with the value under one name.
#[derive(Debug, PartialEq)]
pub enum ComparisonOp {
    /// Equal. Integers and doubles compare numerically.
    Eq(MetadataValue),
    /// Not equal. A name that is absent does not match.
    Ne(MetadataValue),
    /// Greater than a number.
    Gt(F64),
    /// Greater than or equal to a number.
    Gte(F64),
    /// Less than a number.
    Lt(F64),
    /// Less than or equal to a number.
    Lte(F64),
    /// Equal to one of the values.
    In(Vec<MetadataValue>),
    /// Equal to none of the values. A name that is absent matches.
    Nin(Vec<MetadataValue>),
}

/// A comparison as a mathematical value.
#[verifier::ext_equal]
pub enum OpView {
    Eq(MetaView),
    Ne(MetaView),
    Gt(F64),
    Gte(F64),
    Lt(F64),
    Lte(F64),
    In(Seq<MetaView>),
    Nin(Seq<MetaView>),
}

/// The values of a list.
pub open spec fn meta_views(vs: Seq<MetadataValue>) -> Seq<MetaView> {
    Seq::new(vs.len(), |i: int| vs[i]@)
}

impl View for ComparisonOp {
    type V = OpView;

    open spec fn view(&self) -> OpView {
        match self {
            ComparisonOp::Eq(v) => OpView::Eq(v@),
            ComparisonOp::Ne(v) => OpView::Ne(v@),
            ComparisonOp::Gt(n) => OpView::Gt(*n),
            ComparisonOp::Gte(n) => OpView::Gte(*n),
            ComparisonOp::Lt(n) => OpView::Lt(*n),
            ComparisonOp::Lte(n) => OpView::Lte(*n),
            ComparisonOp::In(vs) => OpView::In(meta_views(vs@)),
            ComparisonOp::Nin(vs) => OpView::Nin(meta_views(vs@)),
        }
    }
}

/// A filter tree: a comparison, or a list of conditions of which all or one
/// must match.
#[derive(Debug, PartialEq)]
pub enum WhereCondition {
    Comparison { key: String, op: ComparisonOp },
    And(Vec<WhereCondition>),
    Or(Vec<WhereCondition>),
}

/// A filter tree as a mathematical value.
#[verifier::ext_equal]
pub enum CondView {
    Comparison { key: Seq<char>, op: OpView },
    And(Seq<CondView>),
    Or(Seq<CondView>),
}

/// The mathematical value of a filter tree.
pub open spec fn cond_view(c: WhereCondition) -> CondView
    decreases c,
{
    match c {
        WhereCondition::Comparison { key, op } => CondView::Comparison { key: key@, op: op@ },
        WhereCondition::And(cs) => CondView::And(
            Seq::new(
                cs@.len(),
                |i: int|
                    if 0 <= i < cs@.len() {
                        cond_view(cs@[i])
                    } else {
                        CondView::And(Seq::empty())
                    },
            ),
        ),
        WhereCondition::Or(cs) => CondView::Or(
            Seq::new(
                cs@.len(),
                |i: int|
                    if 0 <= i < cs@.len() {
                        cond_view(cs@[i])
                    } else {
                        CondView::And(Seq::empty())
                    },
            ),
        ),
    }
}

/// The conditions of a list.
pub open spec fn cond_views(cs: Seq<WhereCondition>) -> Seq<CondView> {
    Seq::new(cs.len(), |i: int| cond_view(cs[i]))
}

impl View for WhereCondition {
    type V = CondView;

    open spec fn view(&self) -> CondView {
        cond_view(*self)
    }
}

/// The value of a list condition is the list of the values.
pub proof fn lemma_list_view(cs: Vec<WhereCondition>)
    ensures
        cond_view(WhereCondition::And(cs)) == CondView::And(cond_views(cs@)),
        cond_view(WhereCondition::Or(cs)) == CondView::Or(cond_views(cs@)),
{
    assert(cond_view(WhereCondition::And(cs))->And_0 =~= cond_views(cs@));
    assert(cond_view(WhereCondition::Or(cs))->Or_0 =~= cond_views(cs@));
}

/// A whole filter.
#[derive(Debug, PartialEq)]
pub struct WhereFilter {
    /// Root of the filter tree.
    pub condition: WhereCondition,
}

impl View for WhereFilter {
    type V = CondView;

    open spec fn view(&self) -> CondView {
        self.condition@
    }
}

// ---------------------------------------------------------------------------
// Matching
// ---------------------------------------------------------------------------

/// The number under a name, if there is one.
pub open spec fn number_under(m: Map<Seq<char>, MetaView>, key: Seq<char>) -> Option<F64> {
    if m.contains_key(key) {
        m[key].number()
    } else {
        None
    }
}

/// Whether a value equals one of a list.
pub open spec fn among(v: MetaView, vs: Seq<MetaView>) -> bool {
    exists|i: int| 0 <= i < vs.len() && v.same(#[trigger] vs[i])
}

/// Whether metadata satisfies a comparison.
pub open spec fn op_matches(key: Seq<char>, op: OpView, m: Map<Seq<char>, MetaView>) -> bool {
    match op {
        OpView::Eq(v) => m.contains_key(key) && m[key].same(v),
        OpView::Ne(v) => m.contains_key(key) && !m[key].same(v),
        OpView::Gt(n) => number_under(m, key) matches Some(a) && n.less(a),
        OpView::Gte(n) => number_under(m, key) matches Some(a) && (n.less(a) || n.equals(a)),
        OpView::Lt(n) => number_under(m, key) matches Some(a) && a.less(n),
        OpView::Lte(n) => number_under(m, key) matches Some(a) && (a.less(n) || a.equals(n)),
        OpView::In(vs) => m.contains_key(key) && among(m[key], vs),
        OpView::Nin(vs) => m.contains_key(key) ==> !among(m[key], vs),
    }
}

/// Whether metadata satisfies a filter tree.
pub open spec fn cond_matches(c: CondView, m: Map<Seq<char>, MetaView>) -> bool
    decreases c,
{
    match c {
        CondView::Comparison { key, op } => op_matches(key, op, m),
        CondView::And(cs) => forall|i: int| 0 <= i < cs.len() ==> cond_matches(#[trigger] cs[i], m),
        CondView::Or(cs) => exists|i: int| 0 <= i < cs.len() && cond_matches(#[trigger] cs[i], m),
    }
}

/// A conjunction matches when all its conditions do, a disjunction when one does.
pub proof fn lists_match_by_members(cs: Seq<CondView>, m: Map<Seq<char>, MetaView>)
    ensures
        cond_matches(CondView::And(cs), m) <==> forall|i: int|
            0 <= i < cs.len() ==> cond_matches(#[trigger] cs[i], m),
        cond_matches(CondView::Or(cs), m) <==> exists|i: int|
            0 <= i < cs.len() && cond_matches(#[trigger] cs[i], m),
{
    let all = CondView::And(cs);
    if cond_matches(all, m) {
        assert forall|i: int| 0 <= i < cs.len() implies cond_matches(#[trigger] cs[i], m) by {
            assert(all->And_0[i] == cs[i]);
        }
    }
    if forall|i: int| 0 <= i < cs.len() ==> cond_matches(#[trigger] cs[i], m) {
        assert(cond_matches(all, m));
    }
    let one = CondView::Or(cs);
    if cond_matches(one, m) {
        assert(exists|i: int| 0 <= i < cs.len() && cond_matches(#[trigger] cs[i], m));
    }
    if exists|i: int| 0 <= i < cs.len() && cond_matches(#[trigger] cs[i], m) {
        let i = choose|i: int| 0 <= i < cs.len() && cond_matches(#[trigger] cs[i], m);
        assert(cond_matches(one->Or_0[i], m));
        assert(cond_matches(one, m));
    }
}

/// Whether a value equals one of a list.
fn is_among(v: &MetadataValue, vs: &Vec<MetadataValue>) -> (r: bool)
    ensures
        r == among(v@, meta_views(vs@)),
{
    let mut i: usize = 0;
    while i < vs.len()
        invariant
            i <= vs.len(),
            forall|j: int| 0 <= j < i ==> !v@.same(#[trigger] meta_views(vs@)[j]),
        decreases vs.len() - i,
    {
        if crate::types::values_equal(v, &vs[i]) {
            assert(v@.same(meta_views(vs@)[i as int]));
            return true;
        }
        i += 1;
    }
    false
}

/// The number under a name, if there is one.
fn numeric(metadata: &Metadata, key: &str) -> (r: Option<F64>)
    ensures
        r == number_under(metadata@, key@),
{
    match metadata.get(key) {
        Some(v) => v.as_f64(),
        None => None,
    }
}

fn match_op(key: &str, op: &ComparisonOp, metadata: &Metadata) -> (r: bool)
    ensures
        r == op_matches(key@, op@, metadata@),
{
    match op {
        ComparisonOp::Eq(v) => match metadata.get(key) {
            Some(actual) => crate::types::values_equal(actual, v),
            None => false,
        },
        ComparisonOp::Ne(v) => match metadata.get(key) {
            Some(actual) => !crate::types::values_equal(actual, v),
            None => false,
        },
        ComparisonOp::Gt(n) => match numeric(metadata, key) {
            Some(actual) => n.num_lt(&actual),
            None => false,
        },
        ComparisonOp::Gte(n) => match numeric(metadata, key) {
            Some(actual) => n.num_lt(&actual) || n.num_eq(&actual),
            None => false,
        },
        ComparisonOp::Lt(n) => match numeric(metadata, key) {
            Some(actual) => actual.num_lt(n),
            None => false,
        },
        ComparisonOp::Lte(n) => match numeric(metadata, key) {
            Some(actual) => actual.num_lt(n) || actual.num_eq(n),
            None => false,
        },
        ComparisonOp::In(vs) => match metadata.get(key) {
            Some(actual) => is_among(actual, vs),
            None => false,
        },
        ComparisonOp::Nin(vs) => match metadata.get(key) {
            Some(actual) => !is_among(actual, vs),
            None => true,
        },
    }
}

#[verifier::loop_isolation(false)]
fn match_condition(cond: &WhereCondition, metadata: &Metadata) -> (r: bool)
    ensures
        r == cond_matches(cond@, metadata@),
    decreases cond,
{
    match cond {
        WhereCondition::Comparison { key, op } => match_op(key.as_str(), op, metadata),
        WhereCondition::And(conds) => {
            proof {
                lemma_list_view(*conds);
                lists_match_by_members(cond_views(conds@), metadata@);
            }
            let mut i: usize = 0;
            while i < conds.len()
                invariant
                    i <= conds.len(),
                    *cond == WhereCondition::And(*conds),
                    cond@ == CondView::And(cond_views(conds@)),
                    forall|j: int| 0 <= j < i ==> cond_matches(#[trigger] cond_views(conds@)[j], metadata@),
                decreases conds.len() - i,
            {
                let m: bool = match_condition(&conds[i], metadata);
                assert(cond_views(conds@)[i as int] == conds@[i as int]@);
                if !m {
                    return false;
                }
                i += 1;
            }
            true
        },
        WhereCondition::Or(conds) => {
            proof {
                lemma_list_view(*conds);
                lists_match_by_members(cond_views(conds@), metadata@);
            }
            let mut i: usize = 0;
            while i < conds.len()
                invariant
                    i <= conds.len(),
                    *cond == WhereCondition::Or(*conds),
                    cond@ == CondView::Or(cond_views(conds@)),
                    forall|j: int| 0 <= j < i ==> !cond_matches(#[trigger] cond_views(conds@)[j], metadata@),
                decreases conds.len() - i,
            {
                let m: bool = match_condition(&conds[i], metadata);
                assert(cond_views(conds@)[i as int] == conds@[i as int]@);
                if m {
                    return true;
                }
                i += 1;
            }
            false
        },
    }
}

impl WhereFilter {
    /// Whether a record with this metadata is eligible.
    pub fn matches(&self, metadata: &Metadata) -> (r: bool)
        ensures
            r == cond_matches(self@, metadata@),
    {
        match_condition(&self.condition, metadata)
    }
}

// ---------------------------------------------------------------------------
// Reading
// ---------------------------------------------------------------------------

/// Why a JSON value is not a filter.
#[derive(Debug, Clone, PartialEq, Eq)]
pub enum WhereParseError {
    /// A condition is not an object but a value of this kind.
    ExpectedObject(&'static str),
    /// The value of a list operator is not an array.
    ExpectedArray { op: &'static str, value: &'static str },
    /// No comparison has this name.
    UnknownOperator(String),
    /// A numeric comparison has a value of this kind.
    ExpectedNumber { op: &'static str, value: &'static str },
    /// The comparisons of this field are an empty object.
    EmptyOps(String),
    /// A value of this kind cannot be metadata.
    InvalidValue(&'static str),
    /// An integer is outside the signed range.
    NumberOutOfRange,
    /// `$and` and `$or` stand in one object.
    AndOrConflict,
    /// `$or` stands beside other keys.
    OrWithOtherKeys,
    /// There are no conditions.
    Empty,
    /// A list of conditions is empty.
    EmptyList(&'static str),
    /// The text is not JSON.
    InvalidJson(String),
    /// These texts of numbers have to be read first.
    Numbers(Vec<String>),
}

/// A reading error as a mathematical value.
pub enum WhereErrorView {
    ExpectedObject(Seq<char>),
    ExpectedArray { op: Seq<char>, value: Seq<char> },
    UnknownOperator(Seq<char>),
    ExpectedNumber { op: Seq<char>, value: Seq<char> },
    EmptyOps(Seq<char>),
    InvalidValue(Seq<char>),
    NumberOutOfRange,
    AndOrConflict,
    OrWithOtherKeys,
    Empty,
    EmptyList(Seq<char>),
    InvalidJson(Seq<char>),
    Numbers(Seq<Seq<char>>),
}

impl View for WhereParseError {
    type V = WhereErrorView;

    open spec fn view(&self) -> WhereErrorView {
        match self {
            WhereParseError::ExpectedObject(v) => WhereErrorView::ExpectedObject(v@),
            WhereParseError::ExpectedArray { op, value } => WhereErrorView::ExpectedArray {
                op: op@,
                value: value@,
            },
            WhereParseError::UnknownOperator(s) => WhereErrorView::UnknownOperator(s@),
            WhereParseError::ExpectedNumber { op, value } => WhereErrorView::ExpectedNumber {
                op: op@,
                value: value@,
            },
            WhereParseError::EmptyOps(s) => WhereErrorView::EmptyOps(s@),
            WhereParseError::InvalidValue(v) => WhereErrorView::InvalidValue(v@),
            WhereParseError::NumberOutOfRange => WhereErrorView::NumberOutOfRange,
            WhereParseError::AndOrConflict => WhereErrorView::AndOrConflict,
            WhereParseError::OrWithOtherKeys => WhereErrorView::OrWithOtherKeys,
            WhereParseError::Empty => WhereErrorView::Empty,
            WhereParseError::EmptyList(v) => WhereErrorView::EmptyList(v@),
            WhereParseError::InvalidJson(s) => WhereErrorView::InvalidJson(s@),
            WhereParseError::Numbers(t) => WhereErrorView::Numbers(text::views(t@)),
        }
    }
}

impl WhereErrorView {
    /// The message that describes the error.
    pub open spec fn text(self) -> Seq<char> {
        match self {
            WhereErrorView::ExpectedObject(v) => "where filter must be a JSON object, got "@ + v,
            WhereErrorView::ExpectedArray { op, value } => "`"@ + op + "` must be a JSON array, got "@
                + value,
            WhereErrorView::UnknownOperator(s) => "unknown comparison operator `"@ + s
                + "` (expected $eq, $ne, $gt, $gte, $lt, $lte, $in, or $nin)"@,
            WhereErrorView::ExpectedNumber { op, value } => "operator `"@ + op
                + "` requires a numeric value, got "@ + value,
            WhereErrorView::EmptyOps(s) => "field `"@ + s + "` has an empty operator object"@,
            WhereErrorView::InvalidValue(v) => "unsupported metadata value `"@ + v
                + "` (expected string, boolean, integer, or float)"@,
            WhereErrorView::NumberOutOfRange => "integer value out of i64 range"@,
            WhereErrorView::AndOrConflict => "`$and` and `$or` cannot appear in the same object"@,
            WhereErrorView::OrWithOtherKeys => "`$or` cannot be combined with other conditions"@,
            WhereErrorView::Empty => "where filter cannot be empty"@,
            WhereErrorView::EmptyList(v) => "`"@ + v + "` list cannot be empty"@,
            WhereErrorView::InvalidJson(s) => "invalid JSON: "@ + s,
            WhereErrorView::Numbers(_) => "numbers not read"@,
        }
    }
}

impl WhereParseError {
    /// The message that describes the error.
    pub fn message(&self) -> (r: String)
        ensures
            r@ == self@.text(),
    {
        proof {
            reveal_strlit("");
        }
        match self {
            WhereParseError::ExpectedObject(v) => glue("where filter must be a JSON object, got ", v, ""),
            WhereParseError::ExpectedArray { op, value } => glue(
                "`",
                op,
                "` must be a JSON array, got ",
            ).concat(value),
            WhereParseError::UnknownOperator(s) => glue(
                "unknown comparison operator `",
                s.as_str(),
                "` (expected $eq, $ne, $gt, $gte, $lt, $lte, $in, or $nin)",
            ),
            WhereParseError::ExpectedNumber { op, value } => glue(
                "operator `",
                op,
                "` requires a numeric value, got ",
            ).concat(value),
            WhereParseError::EmptyOps(s) => glue("field `", s.as_str(), "` has an empty operator object"),
            WhereParseError::InvalidValue(v) => glue(
                "unsupported metadata value `",
                v,
                "` (expected string, boolean, integer, or float)",
            ),
            WhereParseError::NumberOutOfRange => "integer value out of i64 range".to_owned(),
            WhereParseError::AndOrConflict => "`$and` and `$or` cannot appear in the same object".to_owned(),
            WhereParseError::OrWithOtherKeys => "`$or` cannot be combined with other conditions".to_owned(),
            WhereParseError::Empty => "where filter cannot be empty".to_owned(),
            WhereParseError::EmptyList(v) => glue("`", v, "` list cannot be empty"),
            WhereParseError::InvalidJson(s) => glue("invalid JSON: ", s.as_str(), ""),
            WhereParseError::Numbers(_) => "numbers not read".to_owned(),
        }
    }
}

/// The metadata value that a JSON value stands for.
pub open spec fn meta_of(v: JsonView) -> Result<MetaView, WhereErrorView> {
    match v {
        JsonView::Text(s) => Ok(MetaView::Str(s)),
        JsonView::Bool(b) => Ok(MetaView::Bool(b)),
        JsonView::Number(JsonNumber::Double(f)) => Ok(MetaView::Float(f)),
        JsonView::Number(n) => match n.integer() {
            Some(i) => Ok(MetaView::Int(i)),
            None => Err(WhereErrorView::NumberOutOfRange),
        },
        _ => Err(WhereErrorView::InvalidValue(v.kind())),
    }
}

/// The metadata values of a JSON array, or the first error.
pub open spec fn metas_of(items: Seq<JsonView>) -> Result<Seq<MetaView>, WhereErrorView>
    decreases items.len(),
{
    if items.len() == 0 {
        Ok(Seq::empty())
    } else {
        match metas_of(items.drop_last()) {
            Ok(vs) => match meta_of(items.last()) {
                Ok(v) => Ok(vs.push(v)),
                Err(e) => Err(e),
            },
            Err(e) => Err(e),
        }
    }
}

/// The operand of a numeric comparison.
pub open spec fn number_of(v: JsonView, op: Seq<char>) -> Result<F64, WhereErrorView> {
    match v {
        JsonView::Number(n) => Ok(n.double()),
        _ => Err(WhereErrorView::ExpectedNumber { op, value: v.kind() }),
    }
}

/// The operand of a list comparison.
pub open spec fn list_of(v: JsonView, op: Seq<char>) -> Result<Seq<MetaView>, WhereErrorView> {
    match v {
        JsonView::Array(items) => metas_of(items),
        _ => Err(WhereErrorView::ExpectedArray { op, value: v.kind() }),
    }
}

/// The comparison with the given name and operand.
pub open spec fn op_of(op: Seq<char>, v: JsonView) -> Result<OpView, WhereErrorView> {
    if op == "$eq"@ {
        match meta_of(v) {
            Ok(m) => Ok(OpView::Eq(m)),
            Err(e) => Err(e),
        }
    } else if op == "$ne"@ {
        match meta_of(v) {
            Ok(m) => Ok(OpView::Ne(m)),
            Err(e) => Err(e),
        }
    } else if op == "$gt"@ {
        match number_of(v, op) {
            Ok(n) => Ok(OpView::Gt(n)),
            Err(e) => Err(e),
        }
    } else if op == "$gte"@ {
        match number_of(v, op) {
            Ok(n) => Ok(OpView::Gte(n)),
            Err(e) => Err(e),
        }
    } else if op == "$lt"@ {
        match number_of(v, op) {
            Ok(n) => Ok(OpView::Lt(n)),
            Err(e) => Err(e),
        }
    } else if op == "$lte"@ {
        match number_of(v, op) {
            Ok(n) => Ok(OpView::Lte(n)),
            Err(e) => Err(e),
        }
    } else if op == "$in"@ {
        match list_of(v, op) {
            Ok(vs) => Ok(OpView::In(vs)),
            Err(e) => Err(e),
        }
    } else if op == "$nin"@ {
        match list_of(v, op) {
            Ok(vs) => Ok(OpView::Nin(vs)),
            Err(e) => Err(e),
        }
    } else {
        Err(WhereErrorView::UnknownOperator(op))
    }
}

/// The comparisons of one field, or the first error.
pub open spec fn comparisons_of(key: Seq<char>, ops: Seq<(Seq<char>, JsonView)>) -> Result<
    Seq<CondView>,
    WhereErrorView,
>
    decreases ops.len(),
{
    if ops.len() == 0 {
        Ok(Seq::empty())
    } else {
        match comparisons_of(key, ops.drop_last()) {
            Ok(cs) => match op_of(ops.last().0, ops.last().1) {
                Ok(op) => Ok(cs.push(CondView::Comparison { key, op })),
                Err(e) => Err(e),
            },
            Err(e) => Err(e),
        }
    }
}

/// The condition that all of a list must match: the one condition itself
/// where the list has just one, and an error where it has none.
pub open spec fn all_of(cs: Seq<CondView>, what: Seq<char>) -> Result<CondView, WhereErrorView> {
    if cs.len() == 0 {
        Err(WhereErrorView::EmptyList(what))
    } else if cs.len() == 1 {
        Ok(cs[0])
    } else {
        Ok(CondView::And(cs))
    }
}

/// The condition of one field.
pub open spec fn field_of(key: Seq<char>, v: JsonView) -> Result<CondView, WhereErrorView> {
    match v {
        JsonView::Object(ops) => if ops.len() == 0 {
            Err(WhereErrorView::EmptyOps(key))
        } else {
            match comparisons_of(key, ops) {
                Ok(cs) => all_of(cs, "operator"@),
                Err(e) => Err(e),
            }
        },
        _ => match meta_of(v) {
            Ok(m) => Ok(CondView::Comparison { key, op: OpView::Eq(m) }),
            Err(e) => Err(e),
        },
    }
}

/// The conditions of the fields of an object, or the first error among its
/// members. `$and` and `$or` are no fields, but must be arrays.
pub open spec fn fields_of(members: Seq<(Seq<char>, JsonView)>) -> Result<Seq<CondView>, WhereErrorView>
    decreases members.len(),
{
    if members.len() == 0 {
        Ok(Seq::empty())
    } else {
        let (key, v) = members.last();
        match fields_of(members.drop_last()) {
            Ok(cs) => if key == "$and"@ || key == "$or"@ {
                if v is Array {
                    Ok(cs)
                } else {
                    Err(WhereErrorView::ExpectedArray { op: key, value: v.kind() })
                }
            } else {
                match field_of(key, v) {
                    Ok(c) => Ok(cs.push(c)),
                    Err(e) => Err(e),
                }
            },
            Err(e) => Err(e),
        }
    }
}

/// The place of the last member with the given name, or -1.
pub open spec fn last_named(members: Seq<(Seq<char>, JsonView)>, name: Seq<char>) -> int
    decreases members.len(),
{
    if members.len() == 0 {
        -1
    } else if members.last().0 == name {
        members.len() - 1
    } else {
        last_named(members.drop_last(), name)
    }
}

/// The condition that a JSON value stands for, or why it is none.
pub open spec fn condition_of(v: JsonView) -> Result<CondView, WhereErrorView>
    decreases v, 0int,
{
    match v {
        JsonView::Object(members) => match fields_of(members) {
            Ok(fields) => {
                let a = last_named(members, "$and"@);
                let o = last_named(members, "$or"@);
                if a >= 0 && o >= 0 {
                    Err(WhereErrorView::AndOrConflict)
                } else if 0 <= o < members.len() && members[o].1 is Array {
                    if fields.len() > 0 {
                        Err(WhereErrorView::OrWithOtherKeys)
                    } else {
                        match conditions_of(members[o].1->Array_0) {
                            Ok(cs) => if cs.len() == 0 {
                                Err(WhereErrorView::EmptyList("$or"@))
                            } else if cs.len() == 1 {
                                Ok(cs[0])
                            } else {
                                Ok(CondView::Or(cs))
                            },
                            Err(e) => Err(e),
                        }
                    }
                } else if 0 <= a < members.len() && members[a].1 is Array {
                    match conditions_of(members[a].1->Array_0) {
                        Ok(cs) => all_of(cs + fields, "$and"@),
                        Err(e) => Err(e),
                    }
                } else if fields.len() == 0 {
                    Err(WhereErrorView::Empty)
                } else {
                    all_of(fields, "field"@)
                }
            },
            Err(e) => Err(e),
        },
        _ => Err(WhereErrorView::ExpectedObject(v.kind())),
    }
}

/// The conditions of a JSON array, or the first error.
pub open spec fn conditions_of(items: Seq<JsonView>) -> Result<Seq<CondView>, WhereErrorView>
    decreases items, items.len(),
{
    if items.len() == 0 {
        Ok(Seq::empty())
    } else {
        match conditions_of(items.drop_last()) {
            Ok(cs) => match condition_of(items.last()) {
                Ok(c) => Ok(cs.push(c)),
                Err(e) => Err(e),
            },
            Err(e) => Err(e),
        }
    }
}

/// A successful or failed reading as a mathematical value.
pub open spec fn condition_result(r: Result<WhereCondition, WhereParseError>) -> Result<
    CondView,
    WhereErrorView,
> {
    match r {
        Ok(c) => Ok(c@),
        Err(e) => Err(e@),
    }
}

/// A successful or failed reading of a list as a mathematical value.
pub open spec fn conditions_result(r: Result<Vec<WhereCondition>, WhereParseError>) -> Result<
    Seq<CondView>,
    WhereErrorView,
> {
    match r {
        Ok(cs) => Ok(cond_views(cs@)),
        Err(e) => Err(e@),
    }
}

fn metadata_value(value: &Json) -> (r: Result<MetadataValue, WhereParseError>)
    ensures
        match r {
            Ok(v) => meta_of(value@) == Result::<MetaView, WhereErrorView>::Ok(v@),
            Err(e) => meta_of(value@) == Result::<MetaView, WhereErrorView>::Err(e@),
        },
{
    match value {
        Json::Text(s) => Ok(MetadataValue::Str(s.clone())),
        Json::Bool(b) => Ok(MetadataValue::Bool(*b)),
        Json::Number(JsonNumber::Double(f)) => Ok(MetadataValue::Float(*f)),
        Json::Number(n) => match n.as_i64() {
            Some(i) => Ok(MetadataValue::Int(i)),
            None => Err(WhereParseError::NumberOutOfRange),
        },
        other => Err(WhereParseError::InvalidValue(other.describe())),
    }
}

fn number(value: &Json, op: &'static str) -> (r: Result<F64, WhereParseError>)
    ensures
        match r {
            Ok(n) => number_of(value@, op@) == Result::<F64, WhereErrorView>::Ok(n),
            Err(e) => number_of(value@, op@) == Result::<F64, WhereErrorView>::Err(e@),
        },
{
    match value {
        Json::Number(n) => Ok(n.as_f64()),
        other => Err(WhereParseError::ExpectedNumber { op, value: other.describe() }),
    }
}

fn value_list(value: &Json, op: &'static str) -> (r: Result<Vec<MetadataValue>, WhereParseError>)
    ensures
        match r {
            Ok(vs) => list_of(value@, op@) == Result::<Seq<MetaView>, WhereErrorView>::Ok(
                meta_views(vs@),
            ),
            Err(e) => list_of(value@, op@) == Result::<Seq<MetaView>, WhereErrorView>::Err(e@),
        },
{
    match value {
        Json::Array(items) => {
            let ghost views = json::items_view(items@);
            proof {
                json::lemma_array_view(*items);
            }
            let mut out: Vec<MetadataValue> = Vec::new();
            let mut i: usize = 0;
            assert(meta_views(out@) =~= Seq::<MetaView>::empty());
            while i < items.len()
                invariant
                    i <= items.len(),
                    views == json::items_view(items@),
                    value@ == JsonView::Array(views),
                    metas_of(views.take(i as int)) == Result::<Seq<MetaView>, WhereErrorView>::Ok(
                        meta_views(out@),
                    ),
                decreases items.len() - i,
            {
                let ghost done = views.take(i + 1);
                assert(done.drop_last() =~= views.take(i as int));
                assert(done.last() == items@[i as int]@);
                match metadata_value(&items[i]) {
                    Ok(v) => {
                        let ghost before = meta_views(out@);
                        out.push(v);
                        assert(meta_views(out@) =~= before.push(v@));
                    },
                    Err(e) => {
                        proof {
                            lemma_metas_error(views, i + 1);
                        }
                        return Err(e);
                    },
                }
                i += 1;
            }
            assert(views.take(items@.len() as int) =~= views);
            Ok(out)
        },
        other => Err(WhereParseError::ExpectedArray { op, value: other.describe() }),
    }
}

proof fn lemma_metas_error(items: Seq<JsonView>, n: int)
    requires
        0 <= n <= items.len(),
        metas_of(items.take(n)) is Err,
    ensures
        metas_of(items) == metas_of(items.take(n)),
    decreases items.len(),
{
    if n < items.len() {
        assert(items.drop_last().take(n) =~= items.take(n));
        lemma_metas_error(items.drop_last(), n);
    } else {
        assert(items.take(n) =~= items);
    }
}

fn parse_op(op: &str, value: &Json) -> (r: Result<ComparisonOp, WhereParseError>)
    ensures
        match r {
            Ok(o) => op_of(op@, value@) == Result::<OpView, WhereErrorView>::Ok(o@),
            Err(e) => op_of(op@, value@) == Result::<OpView, WhereErrorView>::Err(e@),
        },
{
    if same_text(op, "$eq") {
        match metadata_value(value) {
            Ok(v) => Ok(ComparisonOp::Eq(v)),
            Err(e) => Err(e),
        }
    } else if same_text(op, "$ne") {
        match metadata_value(value) {
            Ok(v) => Ok(ComparisonOp::Ne(v)),
            Err(e) => Err(e),
        }
    } else if same_text(op, "$gt") {
        match number(value, "$gt") {
            Ok(n) => Ok(ComparisonOp::Gt(n)),
            Err(e) => Err(e),
        }
    } else if same_text(op, "$gte") {
        match number(value, "$gte") {
            Ok(n) => Ok(ComparisonOp::Gte(n)),
            Err(e) => Err(e),
        }
    } else if same_text(op, "$lt") {
        match number(value, "$lt") {
            Ok(n) => Ok(ComparisonOp::Lt(n)),
            Err(e) => Err(e),
        }
    } else if same_text(op, "$lte") {
        match number(value, "$lte") {
            Ok(n) => Ok(ComparisonOp::Lte(n)),
            Err(e) => Err(e),
        }
    } else if same_text(op, "$in") {
        match value_list(value, "$in") {
            Ok(vs) => Ok(ComparisonOp::In(vs)),
            Err(e) => Err(e),
        }
    } else if same_text(op, "$nin") {
        match value_list(value, "$nin") {
            Ok(vs) => Ok(ComparisonOp::Nin(vs)),
            Err(e) => Err(e),
        }
    } else {
        Err(WhereParseError::UnknownOperator(op.to_owned()))
    }
}

/// The names of the comparisons and of the lists differ from each other.
proof fn lemma_op_names()
    ensures
        "$eq"@ != "$ne"@,
        "$eq"@ != "$gt"@,
        "$eq"@ != "$gte"@,
        "$eq"@ != "$lt"@,
        "$eq"@ != "$lte"@,
        "$eq"@ != "$in"@,
        "$eq"@ != "$nin"@,
        "$ne"@ != "$gt"@,
        "$ne"@ != "$gte"@,
        "$ne"@ != "$lt"@,
        "$ne"@ != "$lte"@,
        "$ne"@ != "$in"@,
        "$ne"@ != "$nin"@,
        "$gt"@ != "$gte"@,
        "$gt"@ != "$lt"@,
        "$gt"@ != "$lte"@,
        "$gt"@ != "$in"@,
        "$gt"@ != "$nin"@,
        "$gte"@ != "$lt"@,
        "$gte"@ != "$lte"@,
        "$gte"@ != "$in"@,
        "$gte"@ != "$nin"@,
        "$lt"@ != "$lte"@,
        "$lt"@ != "$in"@,
        "$lt"@ != "$nin"@,
        "$lte"@ != "$in"@,
        "$lte"@ != "$nin"@,
        "$in"@ != "$nin"@,
        "$and"@ != "$or"@,
{
    reveal_strlit("$eq");
    reveal_strlit("$ne");
    reveal_strlit("$gt");
    reveal_strlit("$gte");
    reveal_strlit("$lt");
    reveal_strlit("$lte");
    reveal_strlit("$in");
    reveal_strlit("$nin");
    reveal_strlit("$and");
    reveal_strlit("$or");
    assert("$eq"@[1] == 'e' && "$ne"@[1] == 'n' && "$gt"@[1] == 'g' && "$gte"@[1] == 'g');
    assert("$lt"@[1] == 'l' && "$lte"@[1] == 'l' && "$in"@[1] == 'i' && "$nin"@[1] == 'n');
    assert("$ne"@[2] == 'e' && "$nin"@[2] == 'i');
    assert("$and"@[1] == 'a' && "$or"@[1] == 'o');
    assert("$gt"@.len() == 3 && "$gte"@.len() == 4 && "$lt"@.len() == 3 && "$lte"@.len() == 4);
}

proof fn lemma_comparisons_error(key: Seq<char>, ops: Seq<(Seq<char>, JsonView)>, n: int)
    requires
        0 <= n <= ops.len(),
        comparisons_of(key, ops.take(n)) is Err,
    ensures
        comparisons_of(key, ops) == comparisons_of(key, ops.take(n)),
    decreases ops.len(),
{
    if n < ops.len() {
        assert(ops.drop_last().take(n) =~= ops.take(n));
        lemma_comparisons_error(key, ops.drop_last(), n);
    } else {
        assert(ops.take(n) =~= ops);
    }
}

proof fn lemma_fields_error(members: Seq<(Seq<char>, JsonView)>, n: int)
    requires
        0 <= n <= members.len(),
        fields_of(members.take(n)) is Err,
    ensures
        fields_of(members) == fields_of(members.take(n)),
    decreases members.len(),
{
    if n < members.len() {
        assert(members.drop_last().take(n) =~= members.take(n));
        lemma_fields_error(members.drop_last(), n);
    } else {
        assert(members.take(n) =~= members);
    }
}

proof fn lemma_conditions_error(items: Seq<JsonView>, n: int)
    requires
        0 <= n <= items.len(),
        conditions_of(items.take(n)) is Err,
    ensures
        conditions_of(items) == conditions_of(items.take(n)),
    decreases items.len(),
{
    if n < items.len() {
        assert(items.drop_last().take(n) =~= items.take(n));
        lemma_conditions_error(items.drop_last(), n);
    } else {
        assert(items.take(n) =~= items);
    }
}

fn normalize_list(conds: Vec<WhereCondition>, what: &'static str) -> (r: Result<
    WhereCondition,
    WhereParseError,
>)
    ensures
        condition_result(r) == all_of(cond_views(conds@), what@),
{
    let mut conds = conds;
    let ghost views = cond_views(conds@);
    if conds.len() == 0 {
        return Err(WhereParseError::EmptyList(what));
    }
    if conds.len() == 1 {
        let ghost first = conds@[0];
        assert(views[0] == cond_view(first));
        let c: Option<WhereCondition> = conds.pop();
        match c {
            Some(c) => Ok(c),
            None => Err(WhereParseError::Empty),
        }
    } else {
        proof {
            lemma_list_view(conds);
        }
        Ok(WhereCondition::And(conds))
    }
}

fn parse_field_condition(key: &str, value: &Json) -> (r: Result<WhereCondition, WhereParseError>)
    ensures
        condition_result(r) == field_of(key@, value@),
{
    match value {
        Json::Object(ops) => {
            let ghost views = json::members_view(ops@);
            proof {
                json::lemma_object_view(*ops);
            }
            if ops.len() == 0 {
                return Err(WhereParseError::EmptyOps(key.to_owned()));
            }
            let mut conds: Vec<WhereCondition> = Vec::new();
            let mut i: usize = 0;
            assert(cond_views(conds@) =~= Seq::<CondView>::empty());
            while i < ops.len()
                invariant
                    i <= ops.len(),
                    ops@.len() > 0,
                    views == json::members_view(ops@),
                    value@ == JsonView::Object(views),
                    comparisons_of(key@, views.take(i as int)) == Result::<
                        Seq<CondView>,
                        WhereErrorView,
                    >::Ok(cond_views(conds@)),
                decreases ops.len() - i,
            {
                assert(views.take(i + 1).drop_last() =~= views.take(i as int));
                assert(views.take(i + 1).last() == (ops@[i as int].0@, ops@[i as int].1@));
                match parse_op(ops[i].0.as_str(), &ops[i].1) {
                    Ok(op) => {
                        let ghost before = cond_views(conds@);
                        let c = WhereCondition::Comparison { key: key.to_owned(), op };
                        let ghost cv = c@;
                        conds.push(c);
                        assert(cond_views(conds@) =~= before.push(cv));
                    },
                    Err(e) => {
                        proof {
                            lemma_comparisons_error(key@, views, i + 1);
                        }
                        return Err(e);
                    },
                }
                i += 1;
            }
            assert(views.take(ops@.len() as int) =~= views);
            normalize_list(conds, "operator")
        },
        _ => match metadata_value(value) {
            Ok(v) => Ok(
                WhereCondition::Comparison { key: key.to_owned(), op: ComparisonOp::Eq(v) },
            ),
            Err(e) => Err(e),
        },
    }
}

proof fn lemma_last_named(members: Seq<(Seq<char>, JsonView)>, name: Seq<char>)
    ensures
        -1 <= last_named(members, name) < members.len(),
        last_named(members, name) >= 0 ==> members[last_named(members, name)].0 == name,
    decreases members.len(),
{
    if members.len() > 0 && members.last().0 != name {
        lemma_last_named(members.drop_last(), name);
    }
}

proof fn lemma_lists_are_arrays(members: Seq<(Seq<char>, JsonView)>, i: int)
    requires
        fields_of(members) is Ok,
        0 <= i < members.len(),
        members[i].0 == "$and"@ || members[i].0 == "$or"@,
    ensures
        members[i].1 is Array,
    decreases members.len(),
{
    if i < members.len() - 1 {
        assert(members.drop_last()[i] == members[i]);
        lemma_lists_are_arrays(members.drop_last(), i);
    }
}

/// The array of a member that holds one.
fn array_of(value: &Json) -> (r: Option<&Vec<Json>>)
    ensures
        match r {
            Some(items) => *value == Json::Array(*items) && value@ == JsonView::Array(
                json::items_view(items@),
            ),
            None => !(value@ is Array),
        },
{
    match value {
        Json::Array(items) => {
            proof {
                json::lemma_array_view(*items);
            }
            Some(items)
        },
        _ => None,
    }
}

#[verifier::loop_isolation(false)]
fn parse_object(members: &Vec<(String, Json)>) -> (r: Result<WhereCondition, WhereParseError>)
    ensures
        condition_result(r) == condition_of(JsonView::Object(json::members_view(members@))),
    decreases members, 0int,
{
    let ghost views = json::members_view(members@);
    let mut fields: Vec<WhereCondition> = Vec::new();
    let mut explicit_and: Option<usize> = None;
    let mut explicit_or: Option<usize> = None;
    let mut i: usize = 0;
    assert(cond_views(fields@) =~= Seq::<CondView>::empty());
    assert(views.take(0) =~= Seq::<(Seq<char>, JsonView)>::empty());
    proof {
        lemma_op_names();
    }
    while i < members.len()
        invariant
            i <= members.len(),
            views == json::members_view(members@),
            fields_of(views.take(i as int)) == Result::<Seq<CondView>, WhereErrorView>::Ok(
                cond_views(fields@),
            ),
            last_named(views.take(i as int), "$and"@) == (match explicit_and {
                Some(k) => k as int,
                None => -1,
            }),
            last_named(views.take(i as int), "$or"@) == (match explicit_or {
                Some(k) => k as int,
                None => -1,
            }),
        decreases members.len() - i,
    {
        let ghost done = views.take(i + 1);
        assert(done.drop_last() =~= views.take(i as int));
        assert(done.last() == (members@[i as int].0@, members@[i as int].1@));
        let key: &str = members[i].0.as_str();
        let value: &Json = &members[i].1;
        if same_text(key, "$and") {
            match array_of(value) {
                Some(_) => {
                    explicit_and = Some(i);
                },
                None => {
                    proof {
                        lemma_fields_error(views, i + 1);
                    }
                    return Err(
                        WhereParseError::ExpectedArray { op: "$and", value: value.describe() },
                    );
                },
            }
        } else if same_text(key, "$or") {
            match array_of(value) {
                Some(_) => {
                    explicit_or = Some(i);
                },
                None => {
                    proof {
                        lemma_fields_error(views, i + 1);
                    }
                    return Err(
                        WhereParseError::ExpectedArray { op: "$or", value: value.describe() },
                    );
                },
            }
        } else {
            match parse_field_condition(key, value) {
                Ok(c) => {
                    let ghost before = cond_views(fields@);
                    let ghost cv = c@;
                    fields.push(c);
                    assert(cond_views(fields@) =~= before.push(cv));
                },
                Err(e) => {
                    proof {
                        lemma_fields_error(views, i + 1);
                    }
                    return Err(e);
                },
            }
        }
        i += 1;
    }
    assert(views.take(views.len() as int) =~= views);
    proof {
        lemma_last_named(views, "$and"@);
        lemma_last_named(views, "$or"@);
    }
    if explicit_and.is_some() && explicit_or.is_some() {
        return Err(WhereParseError::AndOrConflict);
    }
    if let Some(o) = explicit_or {
        proof {
            lemma_lists_are_arrays(views, o as int);
        }
        if fields.len() > 0 {
            assert(cond_views(fields@).len() > 0);
            return Err(WhereParseError::OrWithOtherKeys);
        }
        assert(views[o as int] == (members@[o as int].0@, members@[o as int].1@));
        return match array_of(&members[o].1) {
            Some(items) => match parse_list(items) {
                Ok(conds) => {
                    let mut conds = conds;
                    let ghost cvs = cond_views(conds@);
                    if conds.len() == 0 {
                        Err(WhereParseError::EmptyList("$or"))
                    } else if conds.len() == 1 {
                        assert(cvs[0] == cond_view(conds@[0]));
                        match conds.pop() {
                            Some(c) => Ok(c),
                            None => Err(WhereParseError::Empty),
                        }
                    } else {
                        proof {
                            lemma_list_view(conds);
                        }
                        Ok(WhereCondition::Or(conds))
                    }
                },
                Err(e) => Err(e),
            },
            None => Err(WhereParseError::Empty),
        };
    }
    if let Some(a) = explicit_and {
        proof {
            lemma_lists_are_arrays(views, a as int);
        }
        assert(views[a as int] == (members@[a as int].0@, members@[a as int].1@));
        return match array_of(&members[a].1) {
            Some(items) => match parse_list(items) {
                Ok(conds) => {
                    let mut conds = conds;
                    let ghost listed = cond_views(conds@);
                    let ghost own = cond_views(fields@);
                    conds.append(&mut fields);
                    assert(cond_views(conds@) =~= listed + own);
                    normalize_list(conds, "$and")
                },
                Err(e) => Err(e),
            },
            None => Err(WhereParseError::Empty),
        };
    }
    if fields.len() == 0 {
        return Err(WhereParseError::Empty);
    }
    normalize_list(fields, "field")
}

fn parse_list(items: &Vec<Json>) -> (r: Result<Vec<WhereCondition>, WhereParseError>)
    ensures
        conditions_result(r) == conditions_of(json::items_view(items@)),
    decreases items, 2int,
{
    let ghost views = json::items_view(items@);
    let mut out: Vec<WhereCondition> = Vec::new();
    let mut i: usize = 0;
    assert(cond_views(out@) =~= Seq::<CondView>::empty());
    while i < items.len()
        invariant
            i <= items.len(),
            views == json::items_view(items@),
            conditions_of(views.take(i as int)) == Result::<Seq<CondView>, WhereErrorView>::Ok(
                cond_views(out@),
            ),
        decreases items.len() - i,
    {
        assert(views.take(i + 1).drop_last() =~= views.take(i as int));
        assert(views.take(i + 1).last() == items@[i as int]@);
        match parse_condition(&items[i]) {
            Ok(c) => {
                let ghost before = cond_views(out@);
                let ghost cv = c@;
                out.push(c);
                assert(cond_views(out@) =~= before.push(cv));
            },
            Err(e) => {
                proof {
                    lemma_conditions_error(views, i + 1);
                }
                return Err(e);
            },
        }
        i += 1;
    }
    assert(views.take(views.len() as int) =~= views);
    Ok(out)
}

fn parse_condition(value: &Json) -> (r: Result<WhereCondition, WhereParseError>)
    ensures
        condition_result(r) == condition_of(value@),
    decreases value, 1int,
{
    match value {
        Json::Object(members) => {
            proof {
                json::lemma_object_view(*members);
            }
            parse_object(members)
        },
        other => Err(WhereParseError::ExpectedObject(other.describe())),
    }
}

impl WhereFilter {
    /// Reads a filter from a JSON value in any of its forms.
    pub fn from_json_value(value: &Json) -> (r: Result<WhereFilter, WhereParseError>)
        ensures
            match r {
                Ok(f) => condition_of(value@) == Result::<CondView, WhereErrorView>::Ok(f@),
                Err(e) => condition_of(value@) == Result::<CondView, WhereErrorView>::Err(e@),
            },
    {
        match parse_condition(value) {
            Ok(condition) => Ok(WhereFilter { condition }),
            Err(e) => Err(e),
        }
    }
}

// ---------------------------------------------------------------------------
// Writing
// ---------------------------------------------------------------------------

/// The JSON form of a metadata value.
pub open spec fn meta_json(v: MetaView) -> JsonView {
    match v {
        MetaView::Str(s) => JsonView::Text(s),
        MetaView::Bool(b) => JsonView::Bool(b),
        MetaView::Int(i) => JsonView::of_int(i),
        MetaView::Float(f) => JsonView::of_double(f),
    }
}

/// The JSON form of a list of metadata values.
pub open spec fn metas_json(vs: Seq<MetaView>) -> JsonView {
    JsonView::Array(Seq::new(vs.len(), |i: int| meta_json(vs[i])))
}

/// An object with one member.
pub open spec fn single(name: Seq<char>, v: JsonView) -> JsonView {
    JsonView::Object(seq![(name, v)])
}

/// The operator form of a comparison.
pub open spec fn op_json(op: OpView) -> JsonView {
    match op {
        OpView::Eq(v) => single("$eq"@, meta_json(v)),
        OpView::Ne(v) => single("$ne"@, meta_json(v)),
        OpView::Gt(n) => single("$gt"@, JsonView::of_double(n)),
        OpView::Gte(n) => single("$gte"@, JsonView::of_double(n)),
        OpView::Lt(n) => single("$lt"@, JsonView::of_double(n)),
        OpView::Lte(n) => single("$lte"@, JsonView::of_double(n)),
        OpView::In(vs) => single("$in"@, metas_json(vs)),
        OpView::Nin(vs) => single("$nin"@, metas_json(vs)),
    }
}

/// The JSON form of a filter tree, in operator form throughout.
pub open spec fn cond_json(c: CondView) -> JsonView
    decreases c, 0int,
{
    match c {
        CondView::Comparison { key, op } => single(key, op_json(op)),
        CondView::And(cs) => single("$and"@, JsonView::Array(conds_json(cs))),
        CondView::Or(cs) => single("$or"@, JsonView::Array(conds_json(cs))),
    }
}

/// The JSON forms of a list of conditions.
pub open spec fn conds_json(cs: Seq<CondView>) -> Seq<JsonView>
    decreases cs, cs.len(),
{
    if cs.len() == 0 {
        Seq::empty()
    } else {
        conds_json(cs.drop_last()).push(cond_json(cs.last()))
    }
}

fn metadata_value_to_json(v: &MetadataValue) -> (r: Json)
    ensures
        r@ == meta_json(v@),
{
    match v {
        MetadataValue::Str(s) => Json::Text(s.clone()),
        MetadataValue::Bool(b) => Json::Bool(*b),
        MetadataValue::Int(i) => Json::from_i64(*i),
        MetadataValue::Float(f) => Json::from_f64(*f),
    }
}

fn metadata_values_to_json(vs: &Vec<MetadataValue>) -> (r: Json)
    ensures
        r@ == metas_json(meta_views(vs@)),
{
    let mut items: Vec<Json> = Vec::new();
    let mut i: usize = 0;
    while i < vs.len()
        invariant
            i <= vs.len(),
            items@.len() == i,
            forall|j: int| 0 <= j < i ==> (#[trigger] items@[j])@ == meta_json(vs@[j]@),
        decreases vs.len() - i,
    {
        items.push(metadata_value_to_json(&vs[i]));
        i += 1;
    }
    proof {
        json::lemma_array_view(items);
        assert(json::items_view(items@) =~= metas_json(meta_views(vs@))->Array_0);
    }
    Json::Array(items)
}

/// An object with one member.
fn single_member(name: String, value: Json) -> (r: Json)
    ensures
        r@ == single(name@, value@),
{
    let ghost n = name@;
    let ghost v = value@;
    let mut members: Vec<(String, Json)> = Vec::new();
    members.push((name, value));
    proof {
        json::lemma_object_view(members);
        assert(json::members_view(members@) =~= seq![(n, v)]);
    }
    Json::Object(members)
}

fn op_to_value(op: &ComparisonOp) -> (r: Json)
    ensures
        r@ == op_json(op@),
{
    match op {
        ComparisonOp::Eq(v) => single_member("$eq".to_owned(), metadata_value_to_json(v)),
        ComparisonOp::Ne(v) => single_member("$ne".to_owned(), metadata_value_to_json(v)),
        ComparisonOp::Gt(n) => single_member("$gt".to_owned(), Json::from_f64(*n)),
        ComparisonOp::Gte(n) => single_member("$gte".to_owned(), Json::from_f64(*n)),
        ComparisonOp::Lt(n) => single_member("$lt".to_owned(), Json::from_f64(*n)),
        ComparisonOp::Lte(n) => single_member("$lte".to_owned(), Json::from_f64(*n)),
        ComparisonOp::In(vs) => single_member("$in".to_owned(), metadata_values_to_json(vs)),
        ComparisonOp::Nin(vs) => single_member("$nin".to_owned(), metadata_values_to_json(vs)),
    }
}

fn conditions_to_values(conds: &Vec<WhereCondition>) -> (r: Vec<Json>)
    ensures
        json::items_view(r@) == conds_json(cond_views(conds@)),
    decreases conds, 1int,
{
    let mut items: Vec<Json> = Vec::new();
    let ghost views = cond_views(conds@);
    let mut i: usize = 0;
    assert(json::items_view(items@) =~= Seq::<JsonView>::empty());
    while i < conds.len()
        invariant
            i <= conds.len(),
            views == cond_views(conds@),
            json::items_view(items@) == conds_json(views.take(i as int)),
        decreases conds.len() - i,
    {
        assert(views.take(i + 1).drop_last() =~= views.take(i as int));
        assert(views.take(i + 1).last() == conds@[i as int]@);
        let ghost before = json::items_view(items@);
        let item: Json = condition_to_value(&conds[i]);
        let ghost v = item@;
        items.push(item);
        assert(json::items_view(items@) =~= before.push(v));
        i += 1;
    }
    assert(views.take(views.len() as int) =~= views);
    items
}

fn condition_to_value(cond: &WhereCondition) -> (r: Json)
    ensures
        r@ == cond_json(cond@),
    decreases cond, 0int,
{
    match cond {
        WhereCondition::Comparison { key, op } => single_member(key.clone(), op_to_value(op)),
        WhereCondition::And(conds) => {
            proof {
                lemma_list_view(*conds);
            }
            let items: Vec<Json> = conditions_to_values(conds);
            proof {
                json::lemma_array_view(items);
            }
            single_member("$and".to_owned(), Json::Array(items))
        },
        WhereCondition::Or(conds) => {
            proof {
                lemma_list_view(*conds);
            }
            let items: Vec<Json> = conditions_to_values(conds);
            proof {
                json::lemma_array_view(items);
            }
            single_member("$or".to_owned(), Json::Array(items))
        },
    }
}

impl WhereFilter {
    /// The canonical JSON form of the filter.
    pub fn to_json_value(&self) -> (r: Json)
        ensures
            r@ == cond_json(self@),
    {
        condition_to_value(&self.condition)
    }
}

/// Whether every number in a comparison is finite, so that JSON can hold it.
pub open spec fn op_writable(op: OpView) -> bool {
    match op {
        OpView::Eq(v) => meta_writable(v),
        OpView::Ne(v) => meta_writable(v),
        OpView::Gt(n) => n.finite(),
        OpView::Gte(n) => n.finite(),
        OpView::Lt(n) => n.finite(),
        OpView::Lte(n) => n.finite(),
        OpView::In(vs) => forall|i: int| 0 <= i < vs.len() ==> meta_writable(#[trigger] vs[i]),
        OpView::Nin(vs) => forall|i: int| 0 <= i < vs.len() ==> meta_writable(#[trigger] vs[i]),
    }
}

/// Whether a metadata value is anything but an infinity or not a number.
pub open spec fn meta_writable(v: MetaView) -> bool {
    v matches MetaView::Float(f) ==> f.finite()
}

/// Whether a filter tree is one that its JSON form determines: numbers are
/// finite, no field is named like a list, and no list has fewer than two
/// conditions, since a list of one is read as that one.
pub open spec fn writable(c: CondView) -> bool
    decreases c,
{
    match c {
        CondView::Comparison { key, op } => key != "$and"@ && key != "$or"@ && op_writable(op),
        CondView::And(cs) => cs.len() >= 2 && forall|i: int|
            0 <= i < cs.len() ==> writable(#[trigger] cs[i]),
        CondView::Or(cs) => cs.len() >= 2 && forall|i: int|
            0 <= i < cs.len() ==> writable(#[trigger] cs[i]),
    }
}

proof fn lemma_meta_read_back(v: MetaView)
    requires
        meta_writable(v),
    ensures
        meta_of(meta_json(v)) == Result::<MetaView, WhereErrorView>::Ok(v),
{
}

proof fn lemma_metas_read_back(vs: Seq<MetaView>)
    requires
        forall|i: int| 0 <= i < vs.len() ==> meta_writable(#[trigger] vs[i]),
    ensures
        metas_of(metas_json(vs)->Array_0) == Result::<Seq<MetaView>, WhereErrorView>::Ok(vs),
    decreases vs.len(),
{
    let items = metas_json(vs)->Array_0;
    if vs.len() > 0 {
        let init = vs.drop_last();
        assert forall|i: int| 0 <= i < init.len() implies meta_writable(#[trigger] init[i]) by {
            assert(init[i] == vs[i]);
        }
        lemma_metas_read_back(init);
        assert(items.drop_last() =~= metas_json(init)->Array_0);
        lemma_meta_read_back(vs.last());
        assert(init.push(vs.last()) =~= vs);
    } else {
        assert(vs =~= Seq::<MetaView>::empty());
    }
}

proof fn lemma_op_read_back(op: OpView)
    requires
        op_writable(op),
    ensures
        ({
            let o = op_json(op)->Object_0;
            &&& o.len() == 1
            &&& op_of(o[0].0, o[0].1) == Result::<OpView, WhereErrorView>::Ok(op)
        }),
{
    lemma_op_names();
    match op {
        OpView::Eq(v) => {
            lemma_meta_read_back(v);
        },
        OpView::Ne(v) => {
            lemma_meta_read_back(v);
        },
        OpView::In(vs) => {
            lemma_metas_read_back(vs);
        },
        OpView::Nin(vs) => {
            lemma_metas_read_back(vs);
        },
        _ => {},
    }
}

proof fn lemma_lists_writable(cs: Seq<CondView>)
    ensures
        writable(CondView::And(cs)) <==> cs.len() >= 2 && forall|i: int|
            0 <= i < cs.len() ==> writable(#[trigger] cs[i]),
        writable(CondView::Or(cs)) <==> cs.len() >= 2 && forall|i: int|
            0 <= i < cs.len() ==> writable(#[trigger] cs[i]),
{
    let a = CondView::And(cs);
    let o = CondView::Or(cs);
    if writable(a) {
        assert forall|i: int| 0 <= i < cs.len() implies writable(#[trigger] cs[i]) by {
            assert(a->And_0[i] == cs[i]);
        }
    }
    if writable(o) {
        assert forall|i: int| 0 <= i < cs.len() implies writable(#[trigger] cs[i]) by {
            assert(o->Or_0[i] == cs[i]);
        }
    }
    if cs.len() >= 2 && forall|i: int| 0 <= i < cs.len() ==> writable(#[trigger] cs[i]) {
        assert(writable(a));
        assert(writable(o));
    }
}

/// Writing a filter and reading it again gives the same filter.
pub proof fn written_filter_is_read_back(c: CondView)
    requires
        writable(c),
    ensures
        condition_of(cond_json(c)) == Result::<CondView, WhereErrorView>::Ok(c),
    decreases c, 1int, 0nat,
{
    lemma_op_names();
    let members = cond_json(c)->Object_0;
    assert(members.drop_last() =~= Seq::<(Seq<char>, JsonView)>::empty());
    reveal_with_fuel(last_named, 2);
    reveal_with_fuel(fields_of, 2);
    match c {
        CondView::Comparison { key, op } => {
            lemma_op_read_back(op);
            let ops = op_json(op)->Object_0;
            assert(ops.drop_last() =~= Seq::<(Seq<char>, JsonView)>::empty());
            reveal_with_fuel(comparisons_of, 2);
            let cs = Seq::<CondView>::empty().push(CondView::Comparison { key, op });
            assert(comparisons_of(key, ops) == Result::<Seq<CondView>, WhereErrorView>::Ok(cs));
            assert(cs[0] == c);
            assert(field_of(key, op_json(op)) == Result::<CondView, WhereErrorView>::Ok(c));
            let fs = Seq::<CondView>::empty().push(c);
            assert(fields_of(members) == Result::<Seq<CondView>, WhereErrorView>::Ok(fs));
            assert(fs[0] == c);
        },
        CondView::And(cs) => {
            lemma_lists_writable(cs);
            lemma_list_read_back(c, cs);
            assert(cs + Seq::<CondView>::empty() =~= cs);
            assert(last_named(members, "$and"@) == 0);
            assert(last_named(members, "$or"@) == -1);
            assert(members[0].1 == JsonView::Array(conds_json(cs)));
        },
        CondView::Or(cs) => {
            lemma_lists_writable(cs);
            lemma_list_read_back(c, cs);
            assert(last_named(members, "$or"@) == 0);
            assert(last_named(members, "$and"@) == -1);
            assert(members[0].1 == JsonView::Array(conds_json(cs)));
        },
    }
}

proof fn lemma_list_read_back(c: CondView, cs: Seq<CondView>)
    requires
        forall|i: int| 0 <= i < cs.len() ==> writable(#[trigger] cs[i]),
        forall|i: int| 0 <= i < cs.len() ==> decreases_to!(c => #[trigger] cs[i]),
    ensures
        conditions_of(conds_json(cs)) == Result::<Seq<CondView>, WhereErrorView>::Ok(cs),
        conds_json(cs).len() == cs.len(),
    decreases c, 0int, cs.len(),
{
    if cs.len() > 0 {
        let init = cs.drop_last();
        assert forall|i: int| 0 <= i < init.len() implies writable(#[trigger] init[i]) by {
            assert(init[i] == cs[i]);
        }
        assert forall|i: int| 0 <= i < init.len() implies decreases_to!(c => #[trigger] init[i]) by {
            assert(init[i] == cs[i]);
        }
        lemma_list_read_back(c, init);
        assert(cs.last() == cs[cs.len() - 1]);
        written_filter_is_read_back(cs.last());
        assert(conds_json(cs).drop_last() =~= conds_json(init));
        assert(init.push(cs.last()) =~= cs);
    } else {
        assert(cs =~= Seq::<CondView>::empty());
    }
}

/// Whether the numbers of a JSON value are finite.
pub open spec fn finite_numbers(v: JsonView) -> bool
    decreases v,
{
    match v {
        JsonView::Number(JsonNumber::Double(f)) => f.finite(),
        JsonView::Array(items) => forall|i: int| 0 <= i < items.len() ==> finite_numbers(#[trigger] items[i]),
        JsonView::Object(members) => forall|i: int|
            0 <= i < members.len() ==> finite_numbers((#[trigger] members[i]).1),
        _ => true,
    }
}

proof fn lemma_finite_parts(v: JsonView)
    requires
        finite_numbers(v),
    ensures
        v matches JsonView::Array(items) ==> forall|i: int|
            0 <= i < items.len() ==> finite_numbers(#[trigger] items[i]),
        v matches JsonView::Object(members) ==> forall|i: int|
            0 <= i < members.len() ==> finite_numbers((#[trigger] members[i]).1),
{
    if let JsonView::Array(items) = v {
        assert forall|i: int| 0 <= i < items.len() implies finite_numbers(#[trigger] items[i]) by {
            assert(v->Array_0[i] == items[i]);
        }
    }
    if let JsonView::Object(members) = v {
        assert forall|i: int| 0 <= i < members.len() implies finite_numbers((#[trigger] members[i]).1) by {
            assert(v->Object_0[i] == members[i]);
        }
    }
}

proof fn lemma_metas_writable(items: Seq<JsonView>)
    requires
        forall|i: int| 0 <= i < items.len() ==> finite_numbers(#[trigger] items[i]),
    ensures
        metas_of(items) matches Ok(vs) ==> forall|i: int| 0 <= i < vs.len() ==> meta_writable(#[trigger] vs[i]),
    decreases items.len(),
{
    if items.len() > 0 {
        let init = items.drop_last();
        assert forall|i: int| 0 <= i < init.len() implies finite_numbers(#[trigger] init[i]) by {
            assert(init[i] == items[i]);
        }
        lemma_metas_writable(init);
        assert(finite_numbers(items[items.len() - 1]));
    }
}

proof fn lemma_op_writable(name: Seq<char>, v: JsonView)
    requires
        finite_numbers(v),
    ensures
        op_of(name, v) matches Ok(op) ==> op_writable(op),
{
    lemma_finite_parts(v);
    match v {
        JsonView::Array(items) => {
            lemma_metas_writable(items);
        },
        JsonView::Number(JsonNumber::Natural(n)) => {
            num::naturals_convert_to_numbers(n);
        },
        JsonView::Number(JsonNumber::Negative(i)) => {
            num::integers_convert_to_numbers(i);
        },
        _ => {},
    }
}

proof fn lemma_comparisons_writable(key: Seq<char>, ops: Seq<(Seq<char>, JsonView)>)
    requires
        key != "$and"@ && key != "$or"@,
        forall|i: int| 0 <= i < ops.len() ==> finite_numbers((#[trigger] ops[i]).1),
    ensures
        comparisons_of(key, ops) matches Ok(cs) ==> forall|i: int|
            0 <= i < cs.len() ==> writable(#[trigger] cs[i]),
    decreases ops.len(),
{
    if ops.len() > 0 {
        let init = ops.drop_last();
        assert forall|i: int| 0 <= i < init.len() implies finite_numbers((#[trigger] init[i]).1) by {
            assert(init[i] == ops[i]);
        }
        lemma_comparisons_writable(key, init);
        assert(finite_numbers(ops[ops.len() - 1].1));
        lemma_op_writable(ops.last().0, ops.last().1);
    }
}

proof fn lemma_all_of_writable(cs: Seq<CondView>, what: Seq<char>)
    requires
        forall|i: int| 0 <= i < cs.len() ==> writable(#[trigger] cs[i]),
    ensures
        all_of(cs, what) matches Ok(c) ==> writable(c),
{
    lemma_lists_writable(cs);
}

proof fn lemma_field_writable(key: Seq<char>, v: JsonView)
    requires
        key != "$and"@ && key != "$or"@,
        finite_numbers(v),
    ensures
        field_of(key, v) matches Ok(c) ==> writable(c),
{
    lemma_finite_parts(v);
    if let JsonView::Object(ops) = v {
        lemma_comparisons_writable(key, ops);
        if let Ok(cs) = comparisons_of(key, ops) {
            lemma_all_of_writable(cs, "operator"@);
        }
    }
}

proof fn lemma_fields_writable(members: Seq<(Seq<char>, JsonView)>)
    requires
        forall|i: int| 0 <= i < members.len() ==> finite_numbers((#[trigger] members[i]).1),
    ensures
        fields_of(members) matches Ok(cs) ==> forall|i: int|
            0 <= i < cs.len() ==> writable(#[trigger] cs[i]),
    decreases members.len(),
{
    if members.len() > 0 {
        let init = members.drop_last();
        assert forall|i: int| 0 <= i < init.len() implies finite_numbers((#[trigger] init[i]).1) by {
            assert(init[i] == members[i]);
        }
        lemma_fields_writable(init);
        assert(finite_numbers(members[members.len() - 1].1));
        let (key, v) = members.last();
        if key != "$and"@ && key != "$or"@ {
            lemma_field_writable(key, v);
        }
    }
}

proof fn lemma_conditions_writable(v: JsonView, items: Seq<JsonView>)
    requires
        forall|i: int| 0 <= i < items.len() ==> finite_numbers(#[trigger] items[i]),
        forall|i: int| 0 <= i < items.len() ==> decreases_to!(v => #[trigger] items[i]),
    ensures
        conditions_of(items) matches Ok(cs) ==> forall|i: int|
            0 <= i < cs.len() ==> writable(#[trigger] cs[i]),
    decreases v, 0int, items.len(),
{
    if items.len() > 0 {
        let init = items.drop_last();
        assert forall|i: int| 0 <= i < init.len() implies finite_numbers(#[trigger] init[i])
            && decreases_to!(v => init[i]) by {
            assert(init[i] == items[i]);
        }
        lemma_conditions_writable(v, init);
        assert(items.last() == items[items.len() - 1]);
        read_filters_are_writable(items.last());
    }
}

proof fn lemma_list_writable(v: JsonView, members: Seq<(Seq<char>, JsonView)>, k: int)
    requires
        v == JsonView::Object(members),
        finite_numbers(v),
        0 <= k < members.len(),
        members[k].1 is Array,
    ensures
        conditions_of(members[k].1->Array_0) matches Ok(cs) ==> forall|i: int|
            0 <= i < cs.len() ==> writable(#[trigger] cs[i]),
    decreases v, 1int, 0nat,
{
    lemma_finite_parts(v);
    let a = members[k].1;
    assert(v->Object_0[k] == members[k]);
    assert(finite_numbers(a));
    lemma_finite_parts(a);
    let items = a->Array_0;
    assert(decreases_to!(v => v->Object_0[k]));
    assert(decreases_to!(v => v->Object_0[k].1));
    assert forall|i: int| 0 <= i < items.len() implies decreases_to!(v => #[trigger] items[i]) by {
        assert(a->Array_0[i] == items[i]);
        assert(decreases_to!(a => a->Array_0[i]));
    }
    lemma_conditions_writable(v, items);
}

/// A filter that was read from a value with finite numbers can be written: its
/// JSON form determines it.
pub proof fn read_filters_are_writable(v: JsonView)
    requires
        finite_numbers(v),
    ensures
        condition_of(v) matches Ok(c) ==> writable(c),
    decreases v, 2int, 0nat,
{
    if let JsonView::Object(members) = v {
        lemma_finite_parts(v);
        lemma_fields_writable(members);
        let a = last_named(members, "$and"@);
        let o = last_named(members, "$or"@);
        if let Ok(fields) = fields_of(members) {
            lemma_all_of_writable(fields, "field"@);
            if 0 <= o < members.len() && members[o].1 is Array {
                lemma_list_writable(v, members, o);
                if let Ok(cs) = conditions_of(members[o].1->Array_0) {
                    lemma_lists_writable(cs);
                }
            }
            if 0 <= a < members.len() && members[a].1 is Array {
                lemma_list_writable(v, members, a);
                if let Ok(cs) = conditions_of(members[a].1->Array_0) {
                    let all = cs + fields;
                    assert forall|i: int| 0 <= i < all.len() implies writable(#[trigger] all[i]) by {
                        if i < cs.len() {
                            assert(all[i] == cs[i]);
                        } else {
                            assert(all[i] == fields[i - cs.len()]);
                        }
                    }
                    lemma_all_of_writable(all, "$and"@);
                }
            }
        }
    }
}

/// Whatever form a filter was read from, its canonical form stands for the same
/// filter: nothing is lost.
pub proof fn canonical_forms_lose_nothing(v: JsonView)
    requires
        finite_numbers(v),
    ensures
        condition_of(v) matches Ok(c) ==> condition_of(cond_json(c)) == Result::<
            CondView,
            WhereErrorView,
        >::Ok(c),
{
    read_filters_are_writable(v);
    if let Ok(c) = condition_of(v) {
        written_filter_is_read_back(c);
    }
}

/// Whether every number that a text was read as is finite.
pub open spec fn finite_readings(n: ReadingsView) -> bool {
    forall|t: Seq<char>| #[trigger]
        n.doubles.contains_key(t) ==> (n.doubles[t] matches Some(f) ==> f.finite())
}

proof fn lemma_filled_is_finite(v: RawView, n: ReadingsView)
    requires
        finite_readings(n),
    ensures
        finite_numbers(json_text::filled(v, n)),
    decreases v,
{
    let w = json_text::filled(v, n);
    match v {
        RawView::Array(items) => {
            assert forall|i: int| 0 <= i < w->Array_0.len() implies finite_numbers(#[trigger] w->Array_0[i]) by {
                assert(decreases_to!(v => v->Array_0[i]));
                assert(w->Array_0[i] == json_text::filled(items[i], n));
                lemma_filled_is_finite(items[i], n);
            }
        },
        RawView::Object(members) => {
            assert forall|i: int| 0 <= i < w->Object_0.len() implies finite_numbers(
                (#[trigger] w->Object_0[i]).1,
            ) by {
                assert(decreases_to!(v => v->Object_0[i]));
                assert(w->Object_0[i].1 == json_text::filled(members[i].1, n));
                lemma_filled_is_finite(members[i].1, n);
            }
        },
        _ => {},
    }
}

/// A filter that was read from text can be written, where numbers were read as
/// finite ones. So [`WhereFilter::to_json`] gives a text that is read back as it.
pub proof fn parsed_filters_are_writable(text: Seq<char>, n: ReadingsView)
    requires
        finite_readings(n),
    ensures
        filter_read(text, n) matches Ok(c) ==> writable(c),
{
    if let Ok(raw) = json_text::json_reading(text) {
        lemma_filled_is_finite(raw, n);
        read_filters_are_writable(json_text::filled(raw, n));
    }
}

proof fn lemma_json_is_plain(c: CondView)
    ensures
        json_text::plain(cond_json(c)),
    decreases c, 1int, 0nat,
{
    let v = cond_json(c);
    match c {
        CondView::Comparison { key, op } => {
            lemma_op_json_is_plain(op);
            assert forall|i: int| 0 <= i < v->Object_0.len() implies json_text::plain(
                (#[trigger] v->Object_0[i]).1,
            ) by {}
        },
        CondView::And(cs) => {
            lemma_jsons_are_plain(c, cs);
            let a = JsonView::Array(conds_json(cs));
            assert(json_text::plain(a)) by {
                assert forall|i: int| 0 <= i < a->Array_0.len() implies json_text::plain(
                    #[trigger] a->Array_0[i],
                ) by {}
            }
            assert forall|i: int| 0 <= i < v->Object_0.len() implies json_text::plain(
                (#[trigger] v->Object_0[i]).1,
            ) by {}
        },
        CondView::Or(cs) => {
            lemma_jsons_are_plain(c, cs);
            let a = JsonView::Array(conds_json(cs));
            assert(json_text::plain(a)) by {
                assert forall|i: int| 0 <= i < a->Array_0.len() implies json_text::plain(
                    #[trigger] a->Array_0[i],
                ) by {}
            }
            assert forall|i: int| 0 <= i < v->Object_0.len() implies json_text::plain(
                (#[trigger] v->Object_0[i]).1,
            ) by {}
        },
    }
}

proof fn lemma_jsons_are_plain(c: CondView, cs: Seq<CondView>)
    requires
        forall|i: int| 0 <= i < cs.len() ==> decreases_to!(c => #[trigger] cs[i]),
    ensures
        forall|i: int| 0 <= i < conds_json(cs).len() ==> json_text::plain(#[trigger] conds_json(cs)[i]),
    decreases c, 0int, cs.len(),
{
    if cs.len() > 0 {
        let init = cs.drop_last();
        assert forall|i: int| 0 <= i < init.len() implies decreases_to!(c => #[trigger] init[i]) by {
            assert(init[i] == cs[i]);
        }
        lemma_jsons_are_plain(c, init);
        assert(cs.last() == cs[cs.len() - 1]);
        lemma_json_is_plain(cs.last());
        assert forall|i: int| 0 <= i < conds_json(cs).len() implies json_text::plain(
            #[trigger] conds_json(cs)[i],
        ) by {
            if i < conds_json(init).len() {
                assert(conds_json(cs)[i] == conds_json(init)[i]);
            }
        }
    }
}

proof fn lemma_op_json_is_plain(op: OpView)
    ensures
        json_text::plain(op_json(op)),
{
    let v = op_json(op);
    match op {
        OpView::In(vs) => {
            lemma_metas_json_is_plain(vs);
        },
        OpView::Nin(vs) => {
            lemma_metas_json_is_plain(vs);
        },
        _ => {},
    }
    assert forall|i: int| 0 <= i < v->Object_0.len() implies json_text::plain(
        (#[trigger] v->Object_0[i]).1,
    ) by {}
}

proof fn lemma_metas_json_is_plain(vs: Seq<MetaView>)
    ensures
        json_text::plain(metas_json(vs)),
{
    let a = metas_json(vs);
    assert forall|i: int| 0 <= i < a->Array_0.len() implies json_text::plain(
        #[trigger] a->Array_0[i],
    ) by {}
}

/// What the text of a filter stands for, given how the texts of numbers were
/// read.
pub open spec fn filter_read(text: Seq<char>, n: ReadingsView) -> Result<CondView, WhereErrorView> {
    match json_text::read_with(text, n) {
        Ok(v) => condition_of(v),
        Err(ReadErrorView::Invalid(m)) => Err(WhereErrorView::InvalidJson(m)),
        Err(ReadErrorView::Numbers(t)) => Err(WhereErrorView::Numbers(t)),
    }
}

impl WhereFilter {
    /// The canonical JSON text of the filter, for storage and logging. Where
    /// numbers have no text yet, all of them are asked for. The text is read back
    /// as the filter, where what is known of its numbers is of one piece.
    pub fn to_json(&self, known: &Readings) -> (r: Result<String, Vec<F64>>)
        requires
            known.wf(),
        ensures
            json_text::wrote(r, json_text::write_with(cond_json(self@), known@)),
            writable(self@) && json_text::faithful(
                cond_json(self@),
                known@,
                json_text::LEVELS as nat,
            ) ==> (r matches Ok(t) && filter_read(t@, known@) == Result::<CondView, WhereErrorView>::Ok(
                self@,
            )),
    {
        proof {
            lemma_json_is_plain(self@);
            if writable(self@) {
                written_filter_is_read_back(self@);
            }
        }
        self.to_json_value().write(known)
    }

    /// Reads a filter from JSON text in any of its forms. Where texts of numbers
    /// have not been read yet, all of them are asked for.
    pub fn parse_json(text: &str, known: &Readings) -> (r: Result<WhereFilter, WhereParseError>)
        requires
            known.wf(),
        ensures
            match r {
                Ok(f) => filter_read(text@, known@) == Result::<CondView, WhereErrorView>::Ok(f@),
                Err(e) => filter_read(text@, known@) == Result::<CondView, WhereErrorView>::Err(e@),
            },
    {
        match Json::read(text, known) {
            Ok(v) => WhereFilter::from_json_value(&v),
            Err(ReadError::Invalid(m)) => Err(WhereParseError::InvalidJson(m)),
            Err(ReadError::Numbers(t)) => Err(WhereParseError::Numbers(t)),
        }
    }
}

// ---------------------------------------------------------------------------
// What filters are for
// ---------------------------------------------------------------------------

/// The numeric comparisons compare the number under the name with the operand,
/// by value.
pub proof fn comparisons_compare_numbers(key: Seq<char>, m: Map<Seq<char>, MetaView>, x: F64)
    requires
        m.contains_key(key),
        types::is_numeric(m[key]),
        x.bits % 0x8000_0000_0000_0000 <= 0x7FF0_0000_0000_0000,
    ensures
        op_matches(key, OpView::Gt(x), m) <==> types::value_units(m[key]) > num::double_units(x),
        op_matches(key, OpView::Gte(x), m) <==> types::value_units(m[key]) >= num::double_units(x),
        op_matches(key, OpView::Lt(x), m) <==> types::value_units(m[key]) < num::double_units(x),
        op_matches(key, OpView::Lte(x), m) <==> types::value_units(m[key]) <= num::double_units(x),
{
    let a = m[key].number()->0;
    if let MetaView::Int(i) = m[key] {
        num::integers_convert_to_numbers(i);
    }
    num::finite_patterns_are_below_infinity(a);
    num::doubles_compare_by_value(a, x);
    num::doubles_compare_by_value(x, a);
}

/// What is absent, or is no number, matches no numeric comparison.
pub proof fn only_numbers_are_compared(key: Seq<char>, m: Map<Seq<char>, MetaView>, x: F64)
    requires
        !m.contains_key(key) || !types::is_numeric(m[key]),
    ensures
        !op_matches(key, OpView::Gt(x), m),
        !op_matches(key, OpView::Gte(x), m),
        !op_matches(key, OpView::Lt(x), m),
        !op_matches(key, OpView::Lte(x), m),
{
    if m.contains_key(key) {
        if let MetaView::Float(f) = m[key] {
            num::no_number_compares(f, x);
        }
    }
}

/// `$ne` matches the values under a name that `$eq` does not match; `$in`
/// matches what `$eq` matches with one of the list, and `$nin` all else, what is
/// absent among it.
pub proof fn lists_and_negations_follow_equality(
    key: Seq<char>,
    m: Map<Seq<char>, MetaView>,
    v: MetaView,
    vs: Seq<MetaView>,
)
    ensures
        op_matches(key, OpView::Eq(v), m) <==> m.contains_key(key) && m[key].same(v),
        op_matches(key, OpView::Ne(v), m) <==> m.contains_key(key) && !op_matches(key, OpView::Eq(v), m),
        op_matches(key, OpView::In(vs), m) <==> exists|i: int|
            0 <= i < vs.len() && op_matches(key, OpView::Eq(#[trigger] vs[i]), m),
        op_matches(key, OpView::Nin(vs), m) <==> !op_matches(key, OpView::In(vs), m),
{
    if m.contains_key(key) && among(m[key], vs) {
        let i = choose|i: int| 0 <= i < vs.len() && m[key].same(#[trigger] vs[i]);
        assert(op_matches(key, OpView::Eq(vs[i]), m));
    }
}

/// A condition on other names than those of some metadata's changes does not
/// notice them.
pub proof fn comparisons_look_at_their_name(
    key: Seq<char>,
    op: OpView,
    m: Map<Seq<char>, MetaView>,
    n: Map<Seq<char>, MetaView>,
)
    requires
        m.contains_key(key) == n.contains_key(key),
        m.contains_key(key) ==> m[key] == n[key],
    ensures
        op_matches(key, op, m) == op_matches(key, op, n),
{
}

/// The operators mean what their names say: with an integer operand, and an
/// integer under the name, they compare the two.
pub proof fn operators_mean_their_names(key: Seq<char>, m: Map<Seq<char>, MetaView>, i: i64, n: i64)
    requires
        -0x20_0000_0000_0000 <= i <= 0x20_0000_0000_0000,
        -0x20_0000_0000_0000 <= n <= 0x20_0000_0000_0000,
        m.contains_key(key),
        m[key] == MetaView::Int(i),
    ensures
        ({
            let v = JsonView::of_int(n);
            &&& op_of("$eq"@, v) matches Ok(op) && (op_matches(key, op, m) <==> i == n)
            &&& op_of("$ne"@, v) matches Ok(op) && (op_matches(key, op, m) <==> i != n)
            &&& op_of("$gt"@, v) matches Ok(op) && (op_matches(key, op, m) <==> i > n)
            &&& op_of("$gte"@, v) matches Ok(op) && (op_matches(key, op, m) <==> i >= n)
            &&& op_of("$lt"@, v) matches Ok(op) && (op_matches(key, op, m) <==> i < n)
            &&& op_of("$lte"@, v) matches Ok(op) && (op_matches(key, op, m) <==> i <= n)
        }),
{
    lemma_op_names();
    let x = F64::of_int(n as int);
    num::integers_convert_to_numbers(n);
    num::finite_patterns_are_below_infinity(x);
    comparisons_compare_numbers(key, m, x);
    num::small_integers_keep_their_value(i as int);
    num::small_integers_keep_their_value(n as int);
    lists_and_negations_follow_equality(key, m, MetaView::Int(n), Seq::empty());
    types::values_are_equal_by_kind(MetaView::Int(i), MetaView::Int(n));
    let u = vstd::arithmetic::power2::pow2(1074);
    vstd::arithmetic::power2::lemma_pow2_pos(1074);
    let (a, b) = (i as int, n as int);
    assert(a < b <==> a * u < b * u) by (nonlinear_arith)
        requires
            u > 0,
    ;
    assert(a == b <==> a * u == b * u) by (nonlinear_arith)
        requires
            u > 0,
    ;
}

/// A name with an operator that has a text, a truth value or a double for its
/// operand compares with that value.
pub proof fn operands_are_read_as_they_stand(key: Seq<char>, m: Map<Seq<char>, MetaView>, v: MetaView)
    requires
        v matches MetaView::Float(f) ==> f.bits % 0x8000_0000_0000_0000 < 0x7FF0_0000_0000_0000,
    ensures
        ({
            let j = match v {
                MetaView::Str(s) => JsonView::Text(s),
                MetaView::Bool(b) => JsonView::Bool(b),
                MetaView::Int(i) => JsonView::of_int(i),
                MetaView::Float(f) => JsonView::Number(JsonNumber::Double(f)),
            };
            &&& op_of("$eq"@, j) matches Ok(op) && (op_matches(key, op, m) <==> m.contains_key(key)
                && m[key].same(v))
            &&& op_of("$ne"@, j) matches Ok(op) && (op_matches(key, op, m) <==> m.contains_key(key)
                && !m[key].same(v))
            &&& v is Str || v is Bool ==> op_of("$gt"@, j) is Err && op_of("$gte"@, j) is Err && op_of(
                "$lt"@,
                j,
            ) is Err && op_of("$lte"@, j) is Err
            &&& v is Int || v is Float ==> {
                &&& op_of("$gt"@, j) == Result::<OpView, WhereErrorView>::Ok(OpView::Gt(v.number()->0))
                &&& op_of("$gte"@, j) == Result::<OpView, WhereErrorView>::Ok(OpView::Gte(v.number()->0))
                &&& op_of("$lt"@, j) == Result::<OpView, WhereErrorView>::Ok(OpView::Lt(v.number()->0))
                &&& op_of("$lte"@, j) == Result::<OpView, WhereErrorView>::Ok(OpView::Lte(v.number()->0))
            }
            &&& op_of("$in"@, j) is Err && op_of("$nin"@, j) is Err
        }),
{
    lemma_op_names();
}

/// `$in` with an array is `$eq` with one of its members; `$nin` is its opposite.
pub proof fn list_operands_are_read_member_by_member(
    key: Seq<char>,
    m: Map<Seq<char>, MetaView>,
    items: Seq<JsonView>,
)
    requires
        op_of("$in"@, JsonView::Array(items)) is Ok,
    ensures
        ({
            let one = op_of("$in"@, JsonView::Array(items))->Ok_0;
            &&& op_matches(key, one, m) <==> exists|i: int|
                0 <= i < items.len() && (op_of("$eq"@, #[trigger] items[i]) matches Ok(op) && op_matches(
                    key,
                    op,
                    m,
                ))
            &&& forall|i: int| 0 <= i < items.len() ==> op_of("$eq"@, #[trigger] items[i]) is Ok
            &&& op_of("$nin"@, JsonView::Array(items)) matches Ok(none) && (op_matches(key, none, m)
                <==> !op_matches(key, one, m))
        }),
{
    lemma_op_names();
    lemma_metas_read(items);
    let vs = metas_of(items)->Ok_0;
    lists_and_negations_follow_equality(key, m, MetaView::Bool(true), vs);
    let one = op_of("$in"@, JsonView::Array(items))->Ok_0;
    if op_matches(key, one, m) {
        let i = choose|i: int| 0 <= i < vs.len() && op_matches(key, OpView::Eq(#[trigger] vs[i]), m);
        assert(meta_of(items[i]) == Result::<MetaView, WhereErrorView>::Ok(vs[i]));
        assert(op_of("$eq"@, items[i]) matches Ok(op) && op_matches(key, op, m));
    }
    assert forall|i: int| 0 <= i < items.len() implies op_of("$eq"@, #[trigger] items[i]) is Ok by {
        assert(meta_of(items[i]) == Result::<MetaView, WhereErrorView>::Ok(vs[i]));
    }
    if exists|i: int|
        0 <= i < items.len() && (op_of("$eq"@, #[trigger] items[i]) matches Ok(op) && op_matches(
            key,
            op,
            m,
        )) {
        let i = choose|i: int|
            0 <= i < items.len() && (op_of("$eq"@, #[trigger] items[i]) matches Ok(op) && op_matches(
                key,
                op,
                m,
            ));
        assert(meta_of(items[i]) == Result::<MetaView, WhereErrorView>::Ok(vs[i]));
        assert(op_matches(key, OpView::Eq(vs[i]), m));
    }
}

proof fn lemma_metas_read(items: Seq<JsonView>)
    requires
        metas_of(items) is Ok,
    ensures
        metas_of(items)->Ok_0.len() == items.len(),
        forall|i: int|
            0 <= i < items.len() ==> meta_of(#[trigger] items[i]) == Result::<MetaView, WhereErrorView>::Ok(
                metas_of(items)->Ok_0[i],
            ),
    decreases items.len(),
{
    if items.len() > 0 {
        lemma_metas_read(items.drop_last());
        assert forall|i: int| 0 <= i < items.len() implies meta_of(#[trigger] items[i]) == Result::<
            MetaView,
            WhereErrorView,
        >::Ok(metas_of(items)->Ok_0[i]) by {
            if i < items.len() - 1 {
                assert(items.drop_last()[i] == items[i]);
            }
        }
    }
}

/// Whether an operator with its operand can be read, and matches.
pub open spec fn operator_applies(
    key: Seq<char>,
    op: (Seq<char>, JsonView),
    m: Map<Seq<char>, MetaView>,
) -> bool {
    op_of(op.0, op.1) matches Ok(o) && op_matches(key, o, m)
}

proof fn lemma_comparisons_read(key: Seq<char>, ops: Seq<(Seq<char>, JsonView)>, m: Map<Seq<char>, MetaView>)
    ensures
        comparisons_of(key, ops) is Ok <==> forall|i: int|
            0 <= i < ops.len() ==> op_of((#[trigger] ops[i]).0, ops[i].1) is Ok,
        comparisons_of(key, ops) matches Ok(cs) ==> cs.len() == ops.len() && forall|i: int|
            0 <= i < ops.len() ==> op_of((#[trigger] ops[i]).0, ops[i].1) is Ok && cs[i]
                == (CondView::Comparison { key, op: op_of(ops[i].0, ops[i].1)->Ok_0 }),
    decreases ops.len(),
{
    if ops.len() > 0 {
        let rest = ops.drop_last();
        lemma_comparisons_read(key, rest, m);
        assert(forall|i: int| 0 <= i < rest.len() ==> #[trigger] rest[i] == ops[i]);
        assert(ops.last() == ops[ops.len() - 1]);
        if forall|i: int| 0 <= i < ops.len() ==> op_of((#[trigger] ops[i]).0, ops[i].1) is Ok {
            assert forall|i: int| 0 <= i < rest.len() implies op_of((#[trigger] rest[i]).0, rest[i].1) is Ok by {
                assert(rest[i] == ops[i]);
            }
        }
        if comparisons_of(key, ops) is Ok {
            assert forall|i: int| 0 <= i < ops.len() implies op_of((#[trigger] ops[i]).0, ops[i].1) is Ok
                && comparisons_of(key, ops)->Ok_0[i] == (CondView::Comparison {
                key,
                op: op_of(ops[i].0, ops[i].1)->Ok_0,
            }) by {
                if i < rest.len() {
                    assert(rest[i] == ops[i]);
                }
            }
        }
    }
}

/// A condition that all of a list must match matches when all do.
proof fn lemma_all_of_matches(cs: Seq<CondView>, what: Seq<char>, m: Map<Seq<char>, MetaView>)
    ensures
        all_of(cs, what) is Ok <==> cs.len() > 0,
        all_of(cs, what) matches Ok(c) ==> (cond_matches(c, m) <==> forall|i: int|
            0 <= i < cs.len() ==> cond_matches(#[trigger] cs[i], m)),
{
    lists_match_by_members(cs, m);
    if cs.len() == 1 && cond_matches(cs[0], m) {
        assert forall|i: int| 0 <= i < cs.len() implies cond_matches(#[trigger] cs[i], m) by {}
    }
}

/// Several operators on one field must all match: an object of operators is read
/// when each can be, and matches when each does.
pub proof fn operators_of_a_field_all_apply(
    key: Seq<char>,
    ops: Seq<(Seq<char>, JsonView)>,
    m: Map<Seq<char>, MetaView>,
)
    ensures
        field_of(key, JsonView::Object(ops)) is Ok <==> ops.len() > 0 && forall|i: int|
            0 <= i < ops.len() ==> op_of((#[trigger] ops[i]).0, ops[i].1) is Ok,
        field_of(key, JsonView::Object(ops)) matches Ok(c) ==> (cond_matches(c, m) <==> forall|i: int|
            0 <= i < ops.len() ==> operator_applies(key, #[trigger] ops[i], m)),
{
    lemma_comparisons_read(key, ops, m);
    if let Ok(cs) = comparisons_of(key, ops) {
        lemma_all_of_matches(cs, "operator"@, m);
        assert forall|i: int| 0 <= i < ops.len() implies cond_matches(cs[i], m) == operator_applies(
            key,
            #[trigger] ops[i],
            m,
        ) by {
            assert(op_of(ops[i].0, ops[i].1) is Ok);
        }
        if forall|i: int| 0 <= i < ops.len() ==> operator_applies(key, #[trigger] ops[i], m) {
            assert forall|i: int| 0 <= i < cs.len() implies cond_matches(#[trigger] cs[i], m) by {
                assert(operator_applies(key, ops[i], m));
            }
        }
        if forall|i: int| 0 <= i < cs.len() ==> cond_matches(#[trigger] cs[i], m) {
            assert forall|i: int| 0 <= i < ops.len() implies operator_applies(key, #[trigger] ops[i], m) by {
                assert(cond_matches(cs[i], m));
            }
        }
    }
}

/// A plain value stands for an object with `$eq` alone.
pub proof fn plain_values_are_equalities(key: Seq<char>, v: JsonView, m: Map<Seq<char>, MetaView>)
    requires
        !(v is Object),
    ensures
        field_of(key, v) is Ok <==> field_of(key, JsonView::Object(seq![("$eq"@, v)])) is Ok,
        field_of(key, v) matches Ok(c) ==> (cond_matches(c, m) <==> operator_applies(key, ("$eq"@, v), m)),
{
    let ops = seq![("$eq"@, v)];
    operators_of_a_field_all_apply(key, ops, m);
    assert(ops[0] == ("$eq"@, v));
    if op_of("$eq"@, v) is Ok {
        assert forall|i: int| 0 <= i < ops.len() implies op_of((#[trigger] ops[i]).0, ops[i].1) is Ok by {}
    }
}

/// Whether one of the conditions of an array can be read, and matches.
pub open spec fn item_applies(item: JsonView, m: Map<Seq<char>, MetaView>) -> bool {
    condition_of(item) matches Ok(c) && cond_matches(c, m)
}

/// Whether a member of an object of conditions can be read, and matches: an
/// array under `$and` when all of its conditions do, a field when its condition
/// does.
pub open spec fn member_applies(member: (Seq<char>, JsonView), m: Map<Seq<char>, MetaView>) -> bool {
    if member.0 == "$and"@ {
        member.1 matches JsonView::Array(items) && forall|i: int|
            0 <= i < items.len() ==> item_applies(#[trigger] items[i], m)
    } else {
        field_of(member.0, member.1) matches Ok(c) && cond_matches(c, m)
    }
}

proof fn lemma_conditions_read(items: Seq<JsonView>, m: Map<Seq<char>, MetaView>)
    requires
        conditions_of(items) is Ok,
    ensures
        conditions_of(items)->Ok_0.len() == items.len(),
        forall|i: int|
            0 <= i < items.len() ==> condition_of(#[trigger] items[i]) == Result::<
                CondView,
                WhereErrorView,
            >::Ok(conditions_of(items)->Ok_0[i]),
    decreases items.len(),
{
    if items.len() > 0 {
        lemma_conditions_read(items.drop_last(), m);
        assert forall|i: int| 0 <= i < items.len() implies condition_of(#[trigger] items[i]) == Result::<
            CondView,
            WhereErrorView,
        >::Ok(conditions_of(items)->Ok_0[i]) by {
            if i < items.len() - 1 {
                assert(items.drop_last()[i] == items[i]);
            }
        }
    }
}

/// Whether a member is a field, not a list of conditions.
pub open spec fn is_field(name: Seq<char>) -> bool {
    name != "$and"@ && name != "$or"@
}

proof fn lemma_fields_match(members: Seq<(Seq<char>, JsonView)>, m: Map<Seq<char>, MetaView>)
    requires
        fields_of(members) is Ok,
    ensures
        ({
            let cs = fields_of(members)->Ok_0;
            &&& (forall|i: int| 0 <= i < cs.len() ==> cond_matches(#[trigger] cs[i], m)) <==> (forall|
                i: int,
            |
                0 <= i < members.len() && is_field((#[trigger] members[i]).0) ==> member_applies(
                    members[i],
                    m,
                ))
            &&& cs.len() == 0 <==> forall|i: int|
                0 <= i < members.len() ==> !is_field((#[trigger] members[i]).0)
            &&& forall|i: int|
                0 <= i < members.len() && !is_field((#[trigger] members[i]).0) ==> members[i].1 is Array
        }),
    decreases members.len(),
{
    lemma_op_names();
    if members.len() > 0 {
        let rest = members.drop_last();
        lemma_fields_match(rest, m);
        let cs = fields_of(members)->Ok_0;
        let before = fields_of(rest)->Ok_0;
        let last = members.last();
        assert(last == members[members.len() - 1]);
        assert(forall|i: int| 0 <= i < rest.len() ==> #[trigger] rest[i] == members[i]);
        let all = forall|i: int| 0 <= i < cs.len() ==> cond_matches(#[trigger] cs[i], m);
        let old_all = forall|i: int| 0 <= i < before.len() ==> cond_matches(#[trigger] before[i], m);
        let every = forall|i: int|
            0 <= i < members.len() && is_field((#[trigger] members[i]).0) ==> member_applies(members[i], m);
        let old_every = forall|i: int|
            0 <= i < rest.len() && is_field((#[trigger] rest[i]).0) ==> member_applies(rest[i], m);
        if every {
            assert forall|i: int| 0 <= i < rest.len() && is_field((#[trigger] rest[i]).0) implies member_applies(
                rest[i],
                m,
            ) by {
                assert(rest[i] == members[i]);
            }
        }
        if is_field(last.0) {
            let c = field_of(last.0, last.1)->Ok_0;
            assert(cs == before.push(c));
            if all {
                assert forall|i: int| 0 <= i < before.len() implies cond_matches(#[trigger] before[i], m) by {
                    assert(cs[i] == before[i]);
                }
                assert(cond_matches(cs[before.len() as int], m));
            }
            if every {
                assert(member_applies(last, m));
                assert forall|i: int| 0 <= i < cs.len() implies cond_matches(#[trigger] cs[i], m) by {
                    if i < before.len() {
                        assert(cond_matches(before[i], m));
                    }
                }
            }
            assert(!(forall|i: int| 0 <= i < members.len() ==> !is_field((#[trigger] members[i]).0)));
        } else {
            assert(cs == before);
        }
        if all {
            assert forall|i: int|
                0 <= i < members.len() && is_field((#[trigger] members[i]).0) implies member_applies(
                members[i],
                m,
            ) by {
                if i < rest.len() {
                    assert(rest[i] == members[i]);
                }
            }
        }
        assert forall|i: int|
            0 <= i < members.len() && !is_field((#[trigger] members[i]).0) implies members[i].1 is Array by {
            if i < rest.len() {
                assert(rest[i] == members[i]);
            }
        }
        if cs.len() == 0 {
            assert forall|i: int| 0 <= i < members.len() implies !is_field((#[trigger] members[i]).0) by {
                if i < rest.len() {
                    assert(rest[i] == members[i]);
                }
            }
        }
        if forall|i: int| 0 <= i < members.len() ==> !is_field((#[trigger] members[i]).0) {
            assert forall|i: int| 0 <= i < rest.len() implies !is_field((#[trigger] rest[i]).0) by {
                assert(rest[i] == members[i]);
            }
        }
    }
}

proof fn lemma_named_last(members: Seq<(Seq<char>, JsonView)>, name: Seq<char>)
    ensures
        -1 <= last_named(members, name) < members.len(),
        last_named(members, name) >= 0 ==> members[last_named(members, name)].0 == name,
        last_named(members, name) < 0 ==> forall|i: int|
            0 <= i < members.len() ==> (#[trigger] members[i]).0 != name,
    decreases members.len(),
{
    if members.len() > 0 {
        let rest = members.drop_last();
        lemma_named_last(rest, name);
        assert(forall|i: int| 0 <= i < rest.len() ==> #[trigger] rest[i] == members[i]);
        if members.last().0 != name && last_named(rest, name) < 0 {
            assert forall|i: int| 0 <= i < members.len() implies (#[trigger] members[i]).0 != name by {
                if i < rest.len() {
                    assert(rest[i] == members[i]);
                }
            }
        }
    }
}

/// An object with one field stands for the condition of that field.
pub proof fn lemma_lone_field(key: Seq<char>, v: JsonView)
    requires
        is_field(key),
    ensures
        condition_of(JsonView::Object(seq![(key, v)])) == field_of(key, v),
{
    let members = seq![(key, v)];
    assert(members.last() == (key, v));
    assert(members.drop_last() =~= Seq::<(Seq<char>, JsonView)>::empty());
    reveal_with_fuel(fields_of, 3);
    reveal_with_fuel(last_named, 3);
    assert(fields_of(members.drop_last()) == Result::<Seq<CondView>, WhereErrorView>::Ok(
        Seq::<CondView>::empty(),
    ));
    assert(last_named(members.drop_last(), "$and"@) == -1);
    assert(last_named(members.drop_last(), "$or"@) == -1);
    match field_of(key, v) {
        Ok(c) => {
            assert(Seq::<CondView>::empty().push(c)[0] == c);
        },
        Err(_) => {},
    }
}

/// An object of conditions matches when all its members do: every field, and
/// every condition of an array under `$and`.
pub proof fn members_of_an_object_all_apply(members: Seq<(Seq<char>, JsonView)>, m: Map<Seq<char>, MetaView>)
    requires
        forall|i: int, j: int|
            0 <= i < j < members.len() ==> (#[trigger] members[i]).0 != (#[trigger] members[j]).0,
        forall|i: int| 0 <= i < members.len() ==> (#[trigger] members[i]).0 != "$or"@,
    ensures
        condition_of(JsonView::Object(members)) matches Ok(c) ==> members.len() > 0 && (cond_matches(c, m)
            <==> forall|i: int| 0 <= i < members.len() ==> member_applies(#[trigger] members[i], m)),
{
    lemma_op_names();
    if let Ok(c) = condition_of(JsonView::Object(members)) {
        let fields = fields_of(members)->Ok_0;
        let a = last_named(members, "$and"@);
        lemma_fields_match(members, m);
        lemma_named_last(members, "$and"@);
        lemma_named_last(members, "$or"@);
        if a >= 0 {
            let items = members[a].1->Array_0;
            let cs = conditions_of(items)->Ok_0;
            lemma_conditions_read(items, m);
            let both = cs + fields;
            lemma_all_of_matches(both, "$and"@, m);
            let applied = member_applies(members[a], m);
            if cond_matches(c, m) {
                assert forall|i: int| 0 <= i < items.len() implies item_applies(#[trigger] items[i], m) by {
                    assert(both[i] == cs[i]);
                    assert(cond_matches(both[i], m));
                }
                assert forall|i: int| 0 <= i < fields.len() implies cond_matches(#[trigger] fields[i], m) by {
                    assert(both[cs.len() + i] == fields[i]);
                    assert(cond_matches(both[cs.len() + i], m));
                }
                assert forall|i: int| 0 <= i < members.len() implies member_applies(
                    #[trigger] members[i],
                    m,
                ) by {
                    if i != a {
                        assert(is_field(members[i].0));
                    }
                }
            }
            if forall|i: int| 0 <= i < members.len() ==> member_applies(#[trigger] members[i], m) {
                assert(member_applies(members[a], m));
                assert forall|i: int| 0 <= i < both.len() implies cond_matches(#[trigger] both[i], m) by {
                    if i < cs.len() {
                        assert(item_applies(items[i], m));
                    } else {
                        assert(both[i] == fields[i - cs.len()]);
                    }
                }
            }
        } else {
            lemma_all_of_matches(fields, "field"@, m);
            assert forall|i: int| 0 <= i < members.len() implies is_field((#[trigger] members[i]).0) by {}
            if cond_matches(c, m) {
                assert forall|i: int| 0 <= i < members.len() implies member_applies(
                    #[trigger] members[i],
                    m,
                ) by {
                    assert(is_field(members[i].0));
                }
            }
            if forall|i: int| 0 <= i < members.len() ==> member_applies(#[trigger] members[i], m) {
                assert(forall|i: int| 0 <= i < fields.len() ==> cond_matches(#[trigger] fields[i], m));
            }
        }
    }
}

/// An array under `$or` stands alone in its object, and matches when one of its
/// conditions does.
pub proof fn one_of_the_alternatives_applies(
    members: Seq<(Seq<char>, JsonView)>,
    o: int,
    m: Map<Seq<char>, MetaView>,
)
    requires
        0 <= o < members.len(),
        members[o].0 == "$or"@,
        forall|i: int, j: int|
            0 <= i < j < members.len() ==> (#[trigger] members[i]).0 != (#[trigger] members[j]).0,
    ensures
        condition_of(JsonView::Object(members)) matches Ok(c) ==> members.len() == 1 && members[o].1 is Array
            && (cond_matches(c, m) <==> exists|i: int|
            0 <= i < (members[o].1->Array_0).len() && item_applies(#[trigger] members[o].1->Array_0[i], m)),
{
    lemma_op_names();
    if let Ok(c) = condition_of(JsonView::Object(members)) {
        let fields = fields_of(members)->Ok_0;
        lemma_fields_match(members, m);
        lemma_named_last(members, "$and"@);
        lemma_named_last(members, "$or"@);
        let p = last_named(members, "$or"@);
        if p < 0 {
            assert(members[o].0 != "$or"@);
        }
        if p < o {
            assert(members[p].0 != members[o].0);
        }
        if o < p {
            assert(members[o].0 != members[p].0);
        }
        assert(p == o);
        assert(!is_field(members[o].0));
        let items = members[o].1->Array_0;
        let cs = conditions_of(items)->Ok_0;
        lemma_conditions_read(items, m);
        lists_match_by_members(cs, m);
        if members.len() > 1 {
            let k: int = if o == 0 {
                1
            } else {
                0
            };
            assert(members[k].0 != "$or"@);
            assert(members[k].0 != "$and"@);
            assert(is_field(members[k].0));
            assert(false);
        }
        if cond_matches(c, m) {
            let i = if cs.len() == 1 {
                0
            } else {
                choose|i: int| 0 <= i < cs.len() && cond_matches(#[trigger] cs[i], m)
            };
            assert(cond_matches(cs[i], m));
            assert(item_applies(items[i], m));
        }
        if exists|i: int| 0 <= i < items.len() && item_applies(#[trigger] items[i], m) {
            let i = choose|i: int| 0 <= i < items.len() && item_applies(#[trigger] items[i], m);
            assert(cond_matches(cs[i], m));
        }
    }
}

/// Operands that cannot be compared with are refused: nothing, lists and objects
/// by every operator but `$in` and `$nin`, whole numbers beyond 64 bits by
/// `$eq`; and an operator that is not known is refused by its name.
pub proof fn other_operands_are_refused(op: Seq<char>, v: JsonView)
    ensures
        op_of("$eq"@, v) is Ok <==> (v is Text || v is Bool || (v matches JsonView::Number(n) && (n
            matches JsonNumber::Natural(x) ==> x < 0x8000_0000_0000_0000))),
        op_of("$ne"@, v) is Ok <==> op_of("$eq"@, v) is Ok,
        op_of("$gt"@, v) is Ok <==> v is Number,
        op_of("$gte"@, v) is Ok <==> v is Number,
        op_of("$lt"@, v) is Ok <==> v is Number,
        op_of("$lte"@, v) is Ok <==> v is Number,
        op_of("$nin"@, v) is Ok <==> op_of("$in"@, v) is Ok,
        op_of("$in"@, v) is Ok <==> (v matches JsonView::Array(items) && forall|i: int|
            0 <= i < items.len() ==> op_of("$eq"@, #[trigger] items[i]) is Ok),
        op != "$eq"@ && op != "$ne"@ && op != "$gt"@ && op != "$gte"@ && op != "$lt"@ && op != "$lte"@ && op
            != "$in"@ && op != "$nin"@ ==> op_of(op, v) == Result::<OpView, WhereErrorView>::Err(
            WhereErrorView::UnknownOperator(op),
        ),
{
    lemma_op_names();
    if let JsonView::Array(items) = v {
        lemma_metas_readable(items);
        assert forall|i: int| 0 <= i < items.len() implies (op_of("$eq"@, #[trigger] items[i]) is Ok <==> meta_of(
            items[i],
        ) is Ok) by {}
    }
}

proof fn lemma_metas_readable(items: Seq<JsonView>)
    ensures
        metas_of(items) is Ok <==> forall|i: int| 0 <= i < items.len() ==> meta_of(#[trigger] items[i]) is Ok,
    decreases items.len(),
{
    if items.len() > 0 {
        let rest = items.drop_last();
        lemma_metas_readable(rest);
        assert(items.last() == items[items.len() - 1]);
        assert forall|i: int| 0 <= i < rest.len() implies #[trigger] rest[i] == items[i] by {}
        if forall|i: int| 0 <= i < items.len() ==> meta_of(#[trigger] items[i]) is Ok {
            assert forall|i: int| 0 <= i < rest.len() implies meta_of(#[trigger] rest[i]) is Ok by {
                assert(meta_of(items[i]) is Ok);
            }
        }
        if metas_of(items) is Ok {
            assert forall|i: int| 0 <= i < items.len() implies meta_of(#[trigger] items[i]) is Ok by {
                if i < rest.len() {
                    assert(meta_of(rest[i]) is Ok);
                }
            }
        }
    }
}

proof fn lemma_conditions_readable(items: Seq<JsonView>)
    ensures
        conditions_of(items) is Ok <==> forall|i: int|
            0 <= i < items.len() ==> condition_of(#[trigger] items[i]) is Ok,
    decreases items.len(),
{
    if items.len() > 0 {
        let rest = items.drop_last();
        lemma_conditions_readable(rest);
        assert(items.last() == items[items.len() - 1]);
        assert forall|i: int| 0 <= i < rest.len() implies #[trigger] rest[i] == items[i] by {}
        if forall|i: int| 0 <= i < items.len() ==> condition_of(#[trigger] items[i]) is Ok {
            assert forall|i: int| 0 <= i < rest.len() implies condition_of(#[trigger] rest[i]) is Ok by {
                assert(condition_of(items[i]) is Ok);
            }
        }
        if conditions_of(items) is Ok {
            assert forall|i: int| 0 <= i < items.len() implies condition_of(#[trigger] items[i]) is Ok by {
                if i < rest.len() {
                    assert(condition_of(rest[i]) is Ok);
                }
            }
        }
    }
}

/// Whether a member of an object can be read: a field with its operators, a list
/// of conditions under `$and` or `$or`.
pub open spec fn member_readable(member: (Seq<char>, JsonView)) -> bool {
    if is_field(member.0) {
        field_of(member.0, member.1) is Ok
    } else {
        member.1 matches JsonView::Array(items) && forall|i: int|
            0 <= i < items.len() ==> condition_of(#[trigger] items[i]) is Ok
    }
}

/// Whether a member of an object holds a condition at all.
pub open spec fn member_counts(member: (Seq<char>, JsonView)) -> bool {
    is_field(member.0) || (member.1 matches JsonView::Array(items) && items.len() > 0)
}

proof fn lemma_fields_readable(members: Seq<(Seq<char>, JsonView)>)
    ensures
        fields_of(members) is Ok <==> forall|i: int|
            0 <= i < members.len() ==> (if is_field((#[trigger] members[i]).0) {
                field_of(members[i].0, members[i].1) is Ok
            } else {
                members[i].1 is Array
            }),
        fields_of(members) matches Ok(cs) ==> (cs.len() > 0 <==> exists|i: int|
            0 <= i < members.len() && is_field((#[trigger] members[i]).0)),
    decreases members.len(),
{
    if members.len() > 0 {
        let rest = members.drop_last();
        lemma_fields_readable(rest);
        let last = members[members.len() - 1];
        assert(members.last() == last);
        assert forall|i: int| 0 <= i < rest.len() implies #[trigger] rest[i] == members[i] by {}
        if forall|i: int|
            0 <= i < members.len() ==> (if is_field((#[trigger] members[i]).0) {
                field_of(members[i].0, members[i].1) is Ok
            } else {
                members[i].1 is Array
            }) {
            assert forall|i: int| 0 <= i < rest.len() implies (if is_field((#[trigger] rest[i]).0) {
                field_of(rest[i].0, rest[i].1) is Ok
            } else {
                rest[i].1 is Array
            }) by {
                assert(rest[i] == members[i]);
            }
        }
        if fields_of(members) is Ok {
            assert forall|i: int| 0 <= i < members.len() implies (if is_field((#[trigger] members[i]).0) {
                field_of(members[i].0, members[i].1) is Ok
            } else {
                members[i].1 is Array
            }) by {
                if i < rest.len() {
                    assert(rest[i] == members[i]);
                }
            }
            if exists|i: int| 0 <= i < rest.len() && is_field((#[trigger] rest[i]).0) {
                let i = choose|i: int| 0 <= i < rest.len() && is_field((#[trigger] rest[i]).0);
                assert(is_field(members[i].0));
            }
            if exists|i: int| 0 <= i < members.len() && is_field((#[trigger] members[i]).0) {
                let i = choose|i: int| 0 <= i < members.len() && is_field((#[trigger] members[i]).0);
                if i < rest.len() {
                    assert(is_field(rest[i].0));
                }
            }
        }
    }
}

/// An object is read as a condition just where all its members can be read and
/// one of them holds a condition, and where `$or`, if it is there, is its only
/// member. Nothing but an object is read as a condition.
pub proof fn conditions_are_readable_objects(members: Seq<(Seq<char>, JsonView)>, other: JsonView)
    requires
        forall|i: int, j: int|
            0 <= i < j < members.len() ==> (#[trigger] members[i]).0 != (#[trigger] members[j]).0,
    ensures
        condition_of(JsonView::Object(members)) is Ok <==> {
            &&& forall|i: int| 0 <= i < members.len() ==> member_readable(#[trigger] members[i])
            &&& exists|i: int| 0 <= i < members.len() && member_counts(#[trigger] members[i])
            &&& forall|i: int| 0 <= i < members.len() && (#[trigger] members[i]).0 == "$or"@ ==> members.len() == 1
        },
        !(other is Object) ==> condition_of(other) is Err,
{
    lemma_op_names();
    lemma_fields_readable(members);
    lemma_named_last(members, "$and"@);
    lemma_named_last(members, "$or"@);
    let a = last_named(members, "$and"@);
    let o = last_named(members, "$or"@);
    let whole = JsonView::Object(members);
    assert forall|i: int| 0 <= i < members.len() implies (is_field((#[trigger] members[i]).0) <==> i != a && i != o) by {
        if a >= 0 && i < a {
            assert(members[i].0 != members[a].0);
        }
        if a >= 0 && a < i {
            assert(members[a].0 != members[i].0);
        }
        if o >= 0 && i < o {
            assert(members[i].0 != members[o].0);
        }
        if o >= 0 && o < i {
            assert(members[o].0 != members[i].0);
        }
    }
    if a >= 0 {
        lemma_conditions_readable(members[a].1->Array_0);
    }
    if o >= 0 {
        lemma_conditions_readable(members[o].1->Array_0);
    }
    let readable = forall|i: int| 0 <= i < members.len() ==> member_readable(#[trigger] members[i]);
    let counts = exists|i: int| 0 <= i < members.len() && member_counts(#[trigger] members[i]);
    let alone = forall|i: int| 0 <= i < members.len() && (#[trigger] members[i]).0 == "$or"@ ==> members.len() == 1;
    if condition_of(whole) is Ok {
        lemma_readable_when_read(members, a, o);
    }
    if readable && counts && alone {
        assert forall|i: int| 0 <= i < members.len() implies (if is_field((#[trigger] members[i]).0) {
            field_of(members[i].0, members[i].1) is Ok
        } else {
            members[i].1 is Array
        }) by {
            assert(member_readable(members[i]));
        }
        assert(fields_of(members) is Ok);
        let c = choose|i: int| 0 <= i < members.len() && member_counts(#[trigger] members[i]);
        if o >= 0 {
            assert(members[o].0 == "$or"@);
            assert(members.len() == 1 && o == 0 && a < 0 && c == 0);
            assert(member_readable(members[o]));
            assert(member_counts(members[o]));
            let items = members[o].1->Array_0;
            assert(conditions_of(items) is Ok);
            lemma_conditions_read(items, Map::empty());
        } else if a >= 0 {
            assert(member_readable(members[a]));
            let items = members[a].1->Array_0;
            assert(conditions_of(items) is Ok);
            lemma_conditions_read(items, Map::empty());
            if c != a {
                assert(is_field(members[c].0));
            }
        } else {
            assert(is_field(members[c].0));
        }
    }
}

proof fn lemma_readable_when_read(members: Seq<(Seq<char>, JsonView)>, a: int, o: int)
    requires
        a == last_named(members, "$and"@),
        o == last_named(members, "$or"@),
        -1 <= a < members.len(),
        -1 <= o < members.len(),
        a >= 0 ==> members[a].0 == "$and"@,
        o >= 0 ==> members[o].0 == "$or"@,
        condition_of(JsonView::Object(members)) is Ok,
        forall|i: int| 0 <= i < members.len() ==> (is_field((#[trigger] members[i]).0) <==> i != a && i != o),
    ensures
        forall|i: int| 0 <= i < members.len() ==> member_readable(#[trigger] members[i]),
        exists|i: int| 0 <= i < members.len() && member_counts(#[trigger] members[i]),
        forall|i: int| 0 <= i < members.len() && (#[trigger] members[i]).0 == "$or"@ ==> members.len() == 1,
{
    lemma_op_names();
    lemma_fields_readable(members);
    let fields = fields_of(members)->Ok_0;
    if a >= 0 {
        assert(!is_field(members[a].0));
        lemma_conditions_readable(members[a].1->Array_0);
    }
    if o >= 0 {
        assert(!is_field(members[o].0));
        lemma_conditions_readable(members[o].1->Array_0);
    }
    assert forall|i: int| 0 <= i < members.len() implies member_readable(#[trigger] members[i]) by {
        if i == a {
            assert(conditions_of(members[a].1->Array_0) is Ok);
        } else if i == o {
            assert(conditions_of(members[o].1->Array_0) is Ok);
        } else {
            assert(is_field(members[i].0));
        }
    }
    if o >= 0 {
        lemma_conditions_read(members[o].1->Array_0, Map::empty());
        assert(member_counts(members[o]));
        if members.len() > 1 {
            let k: int = if o == 0 {
                1
            } else {
                0
            };
            assert(is_field(members[k].0));
            assert(false);
        }
    } else if a >= 0 {
        lemma_conditions_read(members[a].1->Array_0, Map::empty());
        if members[a].1->Array_0.len() > 0 {
            assert(member_counts(members[a]));
        } else {
            assert(fields.len() > 0);
            let i = choose|i: int| 0 <= i < members.len() && is_field((#[trigger] members[i]).0);
            assert(member_counts(members[i]));
        }
    } else {
        let i = choose|i: int| 0 <= i < members.len() && is_field((#[trigger] members[i]).0);
        assert(member_counts(members[i]));
    }
    assert forall|i: int| 0 <= i < members.len() && (#[trigger] members[i]).0 == "$or"@ implies members.len() == 1 by {
        assert(!is_field(members[i].0));
        assert(i == a || i == o);
    }
}

/// A filter stands for what it holds: its comparisons by their own names and
/// operands, and its lists with all or one of their conditions.
pub proof fn filters_stand_for_what_they_hold(c: WhereCondition, op: ComparisonOp, i: int)
    ensures
        c matches WhereCondition::Comparison { key, op } ==> c@ == (CondView::Comparison { key: key@, op: op@ }),
        c matches WhereCondition::And(cs) ==> (c@ matches CondView::And(vs) && vs.len() == cs@.len() && (0 <= i
            < vs.len() ==> vs[i] == cs@[i]@)),
        c matches WhereCondition::Or(cs) ==> (c@ matches CondView::Or(vs) && vs.len() == cs@.len() && (0 <= i
            < vs.len() ==> vs[i] == cs@[i]@)),
        op matches ComparisonOp::Eq(v) ==> op@ == OpView::Eq(v@),
        op matches ComparisonOp::Ne(v) ==> op@ == OpView::Ne(v@),
        op matches ComparisonOp::Gt(n) ==> op@ == OpView::Gt(n),
        op matches ComparisonOp::Gte(n) ==> op@ == OpView::Gte(n),
        op matches ComparisonOp::Lt(n) ==> op@ == OpView::Lt(n),
        op matches ComparisonOp::Lte(n) ==> op@ == OpView::Lte(n),
        op matches ComparisonOp::In(l) ==> (op@ matches OpView::In(vs) && vs.len() == l@.len() && (0 <= i < vs.len()
            ==> vs[i] == l@[i]@)),
        op matches ComparisonOp::Nin(l) ==> (op@ matches OpView::Nin(vs) && vs.len() == l@.len() && (0 <= i
            < vs.len() ==> vs[i] == l@[i]@)),
{
}

} // verus!
