//! The query language of the interactive client.

use vstd::prelude::*;
use vstd::string::*;

use crate::chars;
use crate::chars::{byte_count, bytes_before, cut, find, part, read_integer, read_natural};
use crate::chars::{split, starts_with, trim, trim_end_char};
use crate::command::is_word;
use crate::filter;
use crate::json;
use crate::json::{Json, JsonView};
use crate::json_text;
use crate::json_text::{ReadError, ReadErrorView};
use crate::readings::{Readings, ReadingsView};
use crate::text;
use crate::text::{from_chars, to_chars};
use crate::types;
use crate::types::{Embedding, MetaView};

verus! {

// ---------------------------------------------------------------------------
// What the language rests on
// ---------------------------------------------------------------------------

/// What `str::to_uppercase` makes of a text.
pub uninterp spec fn uppercase(text: Seq<char>) -> Seq<char>;

/// `str::to_uppercase` depends on the text alone; [`uppercase`] names its
/// result.
#[verifier::external_body]
fn to_upper(text: &str) -> (r: String)
    ensures
        r@ == uppercase(text@),
{
    text.to_uppercase()
}

// ---------------------------------------------------------------------------
// Queries and errors
// ---------------------------------------------------------------------------

/// A query that was read.
#[derive(Debug, PartialEq)]
pub enum ParsedQuery {
    Select {
        collection: String,
        fields: Vec<String>,
        nearest_to: Option<Embedding>,
        where_filter: Option<Json>,
        limit: Option<usize>,
        vertical: bool,
    },
    Count { collection: String },
    CreateCollection { name: String },
}

/// A query as a mathematical value.
pub enum QueryView {
    Select {
        collection: Seq<char>,
        fields: Seq<Seq<char>>,
        nearest_to: Option<Seq<u32>>,
        where_filter: Option<JsonView>,
        limit: Option<nat>,
        vertical: bool,
    },
    Count { collection: Seq<char> },
    CreateCollection { name: Seq<char> },
}

/// Optional JSON as a mathematical value.
pub open spec fn json_opt(j: Option<Json>) -> Option<JsonView> {
    match j {
        Some(j) => Some(j@),
        None => None,
    }
}

/// An optional number as a mathematical value.
pub open spec fn number_opt(n: Option<usize>) -> Option<nat> {
    match n {
        Some(n) => Some(n as nat),
        None => None,
    }
}

/// An optional vector as a mathematical value.
pub open spec fn vector_opt(v: Option<Embedding>) -> Option<Seq<u32>> {
    match v {
        Some(v) => Some(v@),
        None => None,
    }
}

impl View for ParsedQuery {
    type V = QueryView;

    open spec fn view(&self) -> QueryView {
        match self {
            ParsedQuery::Select { collection, fields, nearest_to, where_filter, limit, vertical } =>
            QueryView::Select {
                collection: collection@,
                fields: text::views(fields@),
                nearest_to: vector_opt(*nearest_to),
                where_filter: json_opt(*where_filter),
                limit: number_opt(*limit),
                vertical: *vertical,
            },
            ParsedQuery::Count { collection } => QueryView::Count { collection: collection@ },
            ParsedQuery::CreateCollection { name } => QueryView::CreateCollection { name: name@ },
        }
    }
}

/// Why a text is no query.
#[derive(Debug, PartialEq)]
pub enum QueryError {
    MissingName,
    MissingFromClause,
    MissingSelect,
    MissingFrom,
    MissingOpen,
    MissingClose,
    /// A component of a vector is no number, with the reader's message.
    BadElement(String),
    /// A condition without an operator.
    BadCondition(String),
    /// No known form of query.
    Unsupported(String),
    /// The parts of the query do not follow each other as they should, or a
    /// keyword stands where the text cannot be cut.
    OutOfOrder,
    /// A text has to be read as a single-precision number first.
    NeedsSingle(String),
    /// A text has to be read as a double-precision number first.
    NeedsDouble(String),
}

/// An error as a mathematical value.
pub enum QueryErrorView {
    MissingName,
    MissingFromClause,
    MissingSelect,
    MissingFrom,
    MissingOpen,
    MissingClose,
    BadElement(Seq<char>),
    BadCondition(Seq<char>),
    Unsupported(Seq<char>),
    OutOfOrder,
    NeedsSingle(Seq<char>),
    NeedsDouble(Seq<char>),
}

impl View for QueryError {
    type V = QueryErrorView;

    open spec fn view(&self) -> QueryErrorView {
        match self {
            QueryError::MissingName => QueryErrorView::MissingName,
            QueryError::MissingFromClause => QueryErrorView::MissingFromClause,
            QueryError::MissingSelect => QueryErrorView::MissingSelect,
            QueryError::MissingFrom => QueryErrorView::MissingFrom,
            QueryError::MissingOpen => QueryErrorView::MissingOpen,
            QueryError::MissingClose => QueryErrorView::MissingClose,
            QueryError::BadElement(s) => QueryErrorView::BadElement(s@),
            QueryError::BadCondition(s) => QueryErrorView::BadCondition(s@),
            QueryError::Unsupported(s) => QueryErrorView::Unsupported(s@),
            QueryError::OutOfOrder => QueryErrorView::OutOfOrder,
            QueryError::NeedsSingle(s) => QueryErrorView::NeedsSingle(s@),
            QueryError::NeedsDouble(s) => QueryErrorView::NeedsDouble(s@),
        }
    }
}

impl QueryErrorView {
    /// The message that describes the error.
    pub open spec fn text(self) -> Seq<char> {
        match self {
            QueryErrorView::MissingName => "Missing collection name"@,
            QueryErrorView::MissingFromClause => "Missing FROM clause"@,
            QueryErrorView::MissingSelect => "Missing SELECT"@,
            QueryErrorView::MissingFrom => "Missing FROM"@,
            QueryErrorView::MissingOpen => "Missing '[' in vector"@,
            QueryErrorView::MissingClose => "Missing ']' in vector"@,
            QueryErrorView::BadElement(s) => "Invalid vector element: "@ + s,
            QueryErrorView::BadCondition(s) => "Cannot parse condition: "@ + s,
            QueryErrorView::Unsupported(s) => "Unsupported query: "@ + s,
            QueryErrorView::OutOfOrder => "Query parts out of order"@,
            QueryErrorView::NeedsSingle(s) => "Number not read: "@ + s,
            QueryErrorView::NeedsDouble(s) => "Number not read: "@ + s,
        }
    }
}

impl QueryError {
    /// The message that describes the error.
    pub fn message(&self) -> (r: String)
        ensures
            r@ == self@.text(),
    {
        match self {
            QueryError::MissingName => "Missing collection name".to_owned(),
            QueryError::MissingFromClause => "Missing FROM clause".to_owned(),
            QueryError::MissingSelect => "Missing SELECT".to_owned(),
            QueryError::MissingFrom => "Missing FROM".to_owned(),
            QueryError::MissingOpen => "Missing '[' in vector".to_owned(),
            QueryError::MissingClose => "Missing ']' in vector".to_owned(),
            QueryError::BadElement(s) => "Invalid vector element: ".to_owned().concat(s.as_str()),
            QueryError::BadCondition(s) => "Cannot parse condition: ".to_owned().concat(s.as_str()),
            QueryError::Unsupported(s) => "Unsupported query: ".to_owned().concat(s.as_str()),
            QueryError::OutOfOrder => "Query parts out of order".to_owned(),
            QueryError::NeedsSingle(s) => "Number not read: ".to_owned().concat(s.as_str()),
            QueryError::NeedsDouble(s) => "Number not read: ".to_owned().concat(s.as_str()),
        }
    }
}

// ---------------------------------------------------------------------------
// Values and conditions
// ---------------------------------------------------------------------------

/// Whether a text stands between two equal quotation marks.
pub open spec fn quoted(t: Seq<char>, mark: char) -> bool {
    t.len() > 0 && t[0] == mark && t.last() == mark
}

/// The value that a text stands for, given how numbers were read: a quoted text,
/// a truth value, a number, a list of values in brackets, or else the text
/// itself. A lone quotation mark stands for nothing.
pub open spec fn value_of(input: Seq<char>, n: ReadingsView) -> Result<JsonView, QueryErrorView>
    decreases input.len(), 1int, 0nat,
{
    let t = chars::trimmed(input);
    if quoted(t, '"') || quoted(t, '\'') {
        if t.len() < 2 {
            Err(QueryErrorView::OutOfOrder)
        } else {
            Ok(JsonView::Text(t.subrange(1, t.len() - 1)))
        }
    } else if t == "true"@ || t == "false"@ {
        Ok(JsonView::Bool(t == "true"@))
    } else if chars::integer(t) is Some {
        Ok(JsonView::of_int(chars::integer(t)->0))
    } else if !n.doubles.contains_key(t) {
        Err(QueryErrorView::NeedsDouble(t))
    } else if n.doubles[t] is Some {
        Ok(JsonView::of_double(n.doubles[t]->0))
    } else if t.len() >= 2 && t[0] == '[' && t.last() == ']' {
        match values_of(chars::pieces(t.subrange(1, t.len() - 1), ','), input.len(), n) {
            Ok(items) => Ok(JsonView::Array(items)),
            Err(e) => Err(e),
        }
    } else {
        Ok(JsonView::Text(t))
    }
}

/// The values that texts stand for, each shorter than the text that they are
/// pieces of.
pub open spec fn values_of(items: Seq<Seq<char>>, whole: nat, n: ReadingsView) -> Result<
    Seq<JsonView>,
    QueryErrorView,
>
    decreases whole, 0int, items.len(),
{
    if items.len() == 0 {
        Ok(Seq::empty())
    } else {
        match values_of(items.drop_last(), whole, n) {
            Err(e) => Err(e),
            Ok(before) => if items.last().len() < whole {
                match value_of(items.last(), n) {
                    Ok(v) => Ok(before.push(v)),
                    Err(e) => Err(e),
                }
            } else {
                Err(QueryErrorView::OutOfOrder)
            },
        }
    }
}

/// The first value that cannot be read decides.
proof fn lemma_missing_value(items: Seq<Seq<char>>, whole: nat, n: ReadingsView, k: int)
    requires
        0 <= k <= items.len(),
        values_of(items.take(k), whole, n) is Err,
    ensures
        values_of(items, whole, n) == values_of(items.take(k), whole, n),
    decreases items.len(),
{
    if k == items.len() {
        assert(items.take(k) =~= items);
    } else {
        assert(items.drop_last().take(k) =~= items.take(k));
        lemma_missing_value(items.drop_last(), whole, n, k);
    }
}

/// No piece is longer than the text.
proof fn lemma_piece_len(s: Seq<char>, c: char, i: int)
    requires
        0 <= i < chars::pieces(s, c).len(),
    ensures
        chars::pieces(s, c)[i].len() <= s.len(),
    decreases s.len(),
{
    if s.len() > 0 {
        chars::lemma_pieces(s.drop_last(), c);
        let rest = chars::pieces(s.drop_last(), c);
        if i < rest.len() {
            lemma_piece_len(s.drop_last(), c, i);
        }
        lemma_piece_len(s.drop_last(), c, rest.len() - 1);
    }
}

proof fn lemma_trimmed_len(s: Seq<char>)
    ensures
        chars::trimmed(s).len() <= s.len(),
{
    lemma_trimmed_start_len(s);
    lemma_trimmed_end_len(chars::trimmed_start(s));
}

proof fn lemma_trimmed_start_len(s: Seq<char>)
    ensures
        chars::trimmed_start(s).len() <= s.len(),
    decreases s.len(),
{
    if s.len() > 0 && chars::is_space(s[0]) {
        lemma_trimmed_start_len(s.drop_first());
    }
}

proof fn lemma_trimmed_end_len(s: Seq<char>)
    ensures
        chars::trimmed_end(s).len() <= s.len(),
    decreases s.len(),
{
    if s.len() > 0 && chars::is_space(s.last()) {
        lemma_trimmed_end_len(s.drop_last());
    }
}

/// Reads a value.
#[verifier::loop_isolation(false)]
pub fn parse_value(input: &Vec<char>, known: &Readings) -> (r: Result<Json, QueryError>)
    requires
        known.wf(),
    ensures
        read_as(r, value_of(input@, known@)),
    decreases input@.len(),
{
    let t: Vec<char> = trim(input);
    proof {
        lemma_trimmed_len(input@);
    }
    let n: usize = t.len();
    if n > 0 && ((t[0] == '"' && t[n - 1] == '"') || (t[0] == '\'' && t[n - 1] == '\'')) {
        if n < 2 {
            return Err(QueryError::OutOfOrder);
        }
        return Ok(Json::Text(from_chars(part(&t, 1, n - 1).as_slice())));
    }
    if is_word(&t, "true") {
        return Ok(Json::Bool(true));
    }
    if is_word(&t, "false") {
        return Ok(Json::Bool(false));
    }
    match read_integer(&t) {
        Some(i) => {
            return Ok(Json::from_i64(i));
        },
        None => {},
    }
    let whole: String = from_chars(t.as_slice());
    match known.double(whole.as_str()) {
        None => {
            return Err(QueryError::NeedsDouble(whole));
        },
        Some(Some(f)) => {
            return Ok(Json::from_f64(f));
        },
        Some(None) => {},
    }
    if n >= 2 && t[0] == '[' && t[n - 1] == ']' {
        let items: Vec<Vec<char>> = split(&part(&t, 1, n - 1), ',');
        let ghost all = chars::pieces(t@.subrange(1, n - 1), ',');
        let mut out: Vec<Json> = Vec::new();
        let mut i: usize = 0;
        assert(all.take(0) =~= Seq::<Seq<char>>::empty());
        assert(json::items_view(out@) =~= Seq::<JsonView>::empty());
        while i < items.len()
            invariant
                i <= items.len(),
                values_of(all.take(i as int), input@.len(), known@) == Result::<
                    Seq<JsonView>,
                    QueryErrorView,
                >::Ok(json::items_view(out@)),
            decreases items.len() - i,
        {
            let ghost before = json::items_view(out@);
            proof {
                assert(all[i as int] == items@[i as int]@);
                lemma_piece_len(t@.subrange(1, n - 1), ',', i as int);
                assert(all.take(i + 1).drop_last() =~= all.take(i as int));
                assert(all.take(i + 1).last() == all[i as int]);
            }
            match parse_value(&items[i], known) {
                Ok(v) => {
                    out.push(v);
                    assert(json::items_view(out@) =~= before.push(v@));
                },
                Err(e) => {
                    proof {
                        lemma_missing_value(all, input@.len(), known@, i + 1);
                    }
                    return Err(e);
                },
            }
            i += 1;
        }
        proof {
            json::lemma_array_view(out);
            assert(all.take(all.len() as int) =~= all);
        }
        return Ok(Json::Array(out));
    }
    Ok(Json::Text(whole))
}

/// An operator of a condition, and its name in a filter.
pub open spec fn operators() -> Seq<(Seq<char>, Seq<char>)> {
    seq![
        ("=="@, "$eq"@),
        ("!="@, "$ne"@),
        ("<="@, "$lte"@),
        (">="@, "$gte"@),
        ("="@, "$eq"@),
        (">"@, "$gt"@),
        ("<"@, "$lt"@),
    ]
}

/// The filter of a condition that is cut at an operator.
pub open spec fn condition_at(t: Seq<char>, op: (Seq<char>, Seq<char>), i: nat, n: ReadingsView) -> Result<
    JsonView,
    QueryErrorView,
> {
    let field = chars::trimmed(t.take(i as int));
    match value_of(chars::trimmed(t.skip((i + op.0.len()) as int)), n) {
        Ok(v) => Ok(JsonView::Object(seq![(field, JsonView::Object(seq![(op.1, v)]))])),
        Err(e) => Err(e),
    }
}

/// The filter of a condition: it is cut at the first of the operators from the
/// given one on that it holds.
pub open spec fn condition_from(t: Seq<char>, k: int, n: ReadingsView) -> Result<
    JsonView,
    QueryErrorView,
>
    decreases operators().len() - k,
{
    if k < 0 || k >= operators().len() {
        Err(QueryErrorView::BadCondition(t))
    } else {
        match chars::found(t, operators()[k].0) {
            Some(i) => condition_at(t, operators()[k], i, n),
            None => condition_from(t, k + 1, n),
        }
    }
}

/// The filter that the text of a WHERE clause stands for: JSON, or a condition.
pub open spec fn where_of(input: Seq<char>, n: ReadingsView) -> Result<JsonView, QueryErrorView> {
    let t = chars::trimmed(input);
    match json_text::read_with(t, n) {
        Ok(v) => Ok(v),
        Err(ReadErrorView::Numbers(a)) => Err(QueryErrorView::NeedsDouble(a[0])),
        Err(ReadErrorView::Invalid(_)) => condition_from(t, 0, n),
    }
}

/// Whether a reading ended as it should.
pub open spec fn read_as(r: Result<Json, QueryError>, want: Result<JsonView, QueryErrorView>) -> bool {
    match (r, want) {
        (Ok(j), Ok(v)) => j@ == v,
        (Err(e), Err(v)) => e@ == v,
        _ => false,
    }
}

/// The filter of a condition that may be cut at an operator.
fn try_operator(t: &Vec<char>, sign: &str, name: &str, known: &Readings) -> (r: Option<
    Result<Json, QueryError>,
>)
    requires
        known.wf(),
    ensures
        match r {
            Some(r) => chars::found(t@, sign@) matches Some(i) && read_as(
                r,
                condition_at(t@, (sign@, name@), i, known@),
            ),
            None => chars::found(t@, sign@) is None,
        },
{
    let w: Vec<char> = to_chars(sign);
    match find(t, &w) {
        Some(i) => {
            let field: Vec<char> = trim(&part(t, 0, i));
            let rest: Vec<char> = trim(&part(t, i + w.len(), t.len()));
            proof {
                assert(t@.subrange(0, i as int) =~= t@.take(i as int));
                assert(t@.subrange(i + w@.len(), t@.len() as int) =~= t@.skip(i + w@.len()));
            }
            match parse_value(&rest, known) {
                Ok(v) => {
                    let mut inner: Vec<(String, Json)> = Vec::new();
                    let ghost vv = v@;
                    inner.push((name.to_owned(), v));
                    proof {
                        json::lemma_object_view(inner);
                        assert(json::members_view(inner@) =~= seq![(name@, vv)]);
                    }
                    let condition: Json = Json::Object(inner);
                    let ghost cv = condition@;
                    let mut outer: Vec<(String, Json)> = Vec::new();
                    outer.push((from_chars(field.as_slice()), condition));
                    proof {
                        json::lemma_object_view(outer);
                        assert(json::members_view(outer@) =~= seq![(field@, cv)]);
                    }
                    Some(Ok(Json::Object(outer)))
                },
                Err(e) => Some(Err(e)),
            }
        },
        None => None,
    }
}

/// Reads a condition.
fn parse_condition(t: &Vec<char>, known: &Readings) -> (r: Result<Json, QueryError>)
    requires
        known.wf(),
    ensures
        read_as(r, condition_from(t@, 0, known@)),
{
    proof {
        reveal_with_fuel(condition_from, 8);
    }
    match try_operator(t, "==", "$eq", known) {
        Some(r) => {
            return r;
        },
        None => {},
    }
    match try_operator(t, "!=", "$ne", known) {
        Some(r) => {
            return r;
        },
        None => {},
    }
    match try_operator(t, "<=", "$lte", known) {
        Some(r) => {
            return r;
        },
        None => {},
    }
    match try_operator(t, ">=", "$gte", known) {
        Some(r) => {
            return r;
        },
        None => {},
    }
    match try_operator(t, "=", "$eq", known) {
        Some(r) => {
            return r;
        },
        None => {},
    }
    match try_operator(t, ">", "$gt", known) {
        Some(r) => {
            return r;
        },
        None => {},
    }
    match try_operator(t, "<", "$lt", known) {
        Some(r) => {
            return r;
        },
        None => {},
    }
    Err(QueryError::BadCondition(from_chars(t.as_slice())))
}

/// Reads the text of a WHERE clause.
pub fn parse_where(input: &Vec<char>, known: &Readings) -> (r: Result<Json, QueryError>)
    requires
        known.wf(),
    ensures
        read_as(r, where_of(input@, known@)),
{
    let t: Vec<char> = trim(input);
    match Json::read(from_chars(t.as_slice()).as_str(), known) {
        Ok(j) => Ok(j),
        Err(ReadError::Numbers(a)) => {
            assert(text::views(a@)[0] == a@[0]@);
            Err(QueryError::NeedsDouble(a[0].clone()))
        },
        Err(ReadError::Invalid(_)) => parse_condition(&t, known),
    }
}

// ---------------------------------------------------------------------------
// Vectors
// ---------------------------------------------------------------------------

/// The components that texts stand for, or why the first that is no number is
/// none.
pub open spec fn components(items: Seq<Seq<char>>, n: ReadingsView) -> Result<
    Seq<u32>,
    QueryErrorView,
>
    decreases items.len(),
{
    if items.len() == 0 {
        Ok(Seq::empty())
    } else {
        let t = chars::trimmed(items.last());
        match components(items.drop_last(), n) {
            Err(e) => Err(e),
            Ok(before) => if !n.singles.contains_key(t) {
                Err(QueryErrorView::NeedsSingle(t))
            } else {
                match n.singles[t] {
                    Ok(x) => Ok(before.push(x.bits)),
                    Err(m) => Err(QueryErrorView::BadElement(m)),
                }
            },
        }
    }
}

/// The vector that a text stands for: what stands between the first opening and
/// the first closing bracket, at commas.
pub open spec fn vector_of(input: Seq<char>, n: ReadingsView) -> Result<Seq<u32>, QueryErrorView> {
    let t = chars::trimmed(input);
    match (chars::found(t, "["@), chars::found(t, "]"@)) {
        (None, _) => Err(QueryErrorView::MissingOpen),
        (_, None) => Err(QueryErrorView::MissingClose),
        (Some(a), Some(b)) => if a + 1 > b {
            Err(QueryErrorView::OutOfOrder)
        } else {
            components(chars::pieces(t.subrange((a + 1) as int, b as int), ','), n)
        },
    }
}

proof fn lemma_bad_component(items: Seq<Seq<char>>, n: ReadingsView, k: int)
    requires
        0 <= k <= items.len(),
        components(items.take(k), n) is Err,
    ensures
        components(items, n) == components(items.take(k), n),
    decreases items.len(),
{
    if k == items.len() {
        assert(items.take(k) =~= items);
    } else {
        assert(items.drop_last().take(k) =~= items.take(k));
        lemma_bad_component(items.drop_last(), n, k);
    }
}

/// Reads a vector.
pub fn parse_vector(input: &Vec<char>, known: &Readings) -> (r: Result<Embedding, QueryError>)
    requires
        known.wf(),
    ensures
        match (r, vector_of(input@, known@)) {
            (Ok(v), Ok(w)) => v@ == w,
            (Err(e), Err(w)) => e@ == w,
            _ => false,
        },
{
    proof {
        reveal_strlit("[");
        reveal_strlit("]");
    }
    let t: Vec<char> = trim(input);
    let a: usize = match find(&t, &to_chars("[")) {
        Some(a) => a,
        None => {
            return Err(QueryError::MissingOpen);
        },
    };
    let b: usize = match find(&t, &to_chars("]")) {
        Some(b) => b,
        None => {
            return Err(QueryError::MissingClose);
        },
    };
    if a >= b {
        return Err(QueryError::OutOfOrder);
    }
    let items: Vec<Vec<char>> = split(&part(&t, a + 1, b), ',');
    let ghost all = chars::pieces(t@.subrange(a + 1, b as int), ',');
    let mut out: Embedding = Vec::new();
    let mut i: usize = 0;
    assert(all.take(0) =~= Seq::<Seq<char>>::empty());
    while i < items.len()
        invariant
            i <= items.len(),
            known.wf(),
            all == chars::char_views(items@),
            a + 1 <= b < t@.len(),
            t@ == chars::trimmed(input@),
            chars::found(t@, "["@) == Some(a as nat),
            chars::found(t@, "]"@) == Some(b as nat),
            all == chars::pieces(t@.subrange(a + 1, b as int), ','),
            components(all.take(i as int), known@) == Result::<Seq<u32>, QueryErrorView>::Ok(out@),
        decreases items.len() - i,
    {
        proof {
            assert(all[i as int] == items@[i as int]@);
            assert(all.take(i + 1).drop_last() =~= all.take(i as int));
            assert(all.take(i + 1).last() == all[i as int]);
        }
        let word: String = from_chars(trim(&items[i]).as_slice());
        match known.single(word.as_str()) {
            Some(Ok(x)) => {
                out.push(x.bits);
            },
            Some(Err(m)) => {
                proof {
                    lemma_bad_component(all, known@, i + 1);
                }
                return Err(QueryError::BadElement(m.clone()));
            },
            None => {
                proof {
                    lemma_bad_component(all, known@, i + 1);
                }
                return Err(QueryError::NeedsSingle(word));
            },
        }
        i += 1;
    }
    assert(all.take(all.len() as int) =~= all);
    Ok(out)
}

// ---------------------------------------------------------------------------
// Queries
// ---------------------------------------------------------------------------

/// Number of bytes before a keyword in an upper-case text.
pub open spec fn key_at(u: Seq<char>, word: Seq<char>) -> Option<nat> {
    match chars::found(u, word) {
        Some(n) => Some(chars::bytes(u.take(n as int))),
        None => None,
    }
}

fn find_key(u: &Vec<char>, word: &str) -> (r: Option<u128>)
    ensures
        match r {
            Some(b) => key_at(u@, word@) == Some(b as nat) && b <= 4 * u.len(),
            None => key_at(u@, word@) is None,
        },
{
    match find(u, &to_chars(word)) {
        Some(n) => Some(bytes_before(u, n)),
        None => None,
    }
}

/// The rest of a text from a byte on.
pub open spec fn rest_from(s: Seq<char>, from: nat) -> Option<Seq<char>> {
    chars::slice(s, from, chars::bytes(s))
}

/// The collection that a query names: the word behind FROM.
pub open spec fn from_clause(s: Seq<char>, u: Seq<char>) -> Result<Seq<char>, QueryErrorView> {
    match key_at(u, "FROM "@) {
        None => Err(QueryErrorView::MissingFromClause),
        Some(i) => match rest_from(s, i + 5) {
            None => Err(QueryErrorView::OutOfOrder),
            Some(r) => {
                let a = chars::trimmed(r);
                let end = match chars::found(a, " "@) {
                    Some(n) => n,
                    None => match chars::found(a, "\n"@) {
                        Some(n) => n,
                        None => a.len(),
                    },
                };
                Ok(chars::trimmed(a.take(end as int)))
            },
        },
    }
}

fn extract_from_clause(s: &Vec<char>, u: &Vec<char>) -> (r: Result<String, QueryError>)
    ensures
        match (r, from_clause(s@, u@)) {
            (Ok(c), Ok(w)) => c@ == w,
            (Err(e), Err(w)) => e@ == w,
            _ => false,
        },
{
    match find_key(u, "FROM ") {
        None => Err(QueryError::MissingFromClause),
        Some(i) => match cut(s, i + 5, byte_count(s)) {
            None => Err(QueryError::OutOfOrder),
            Some(r) => {
                let a: Vec<char> = trim(&r);
                let end: usize = match find(&a, &to_chars(" ")) {
                    Some(n) => n,
                    None => match find(&a, &to_chars("\n")) {
                        Some(n) => n,
                        None => a.len(),
                    },
                };
                let name: Vec<char> = trim(&part(&a, 0, end));
                assert(a@.subrange(0, end as int) =~= a@.take(end as int));
                Ok(from_chars(name.as_slice()))
            },
        },
    }
}

/// The pieces of a list, without white space around them.
pub open spec fn trimmed_pieces(s: Seq<char>) -> Seq<Seq<char>> {
    Seq::new(chars::pieces(s, ',').len(), |i: int| chars::trimmed(chars::pieces(s, ',')[i]))
}

/// The fields that a query names: what stands between SELECT and FROM.
pub open spec fn fields_of(s: Seq<char>, u: Seq<char>) -> Result<Seq<Seq<char>>, QueryErrorView> {
    match (key_at(u, "SELECT "@), key_at(u, "FROM "@)) {
        (None, _) => Err(QueryErrorView::MissingSelect),
        (_, None) => Err(QueryErrorView::MissingFrom),
        (Some(a), Some(b)) => match chars::slice(s, a + 7, b) {
            None => Err(QueryErrorView::OutOfOrder),
            Some(f) => {
                let t = chars::trimmed(f);
                if t == "*"@ {
                    Ok(seq!["*"@])
                } else {
                    Ok(trimmed_pieces(t))
                }
            },
        },
    }
}

fn extract_fields(s: &Vec<char>, u: &Vec<char>) -> (r: Result<Vec<String>, QueryError>)
    ensures
        match (r, fields_of(s@, u@)) {
            (Ok(f), Ok(w)) => text::views(f@) == w,
            (Err(e), Err(w)) => e@ == w,
            _ => false,
        },
{
    let a: u128 = match find_key(u, "SELECT ") {
        Some(a) => a,
        None => {
            return Err(QueryError::MissingSelect);
        },
    };
    let b: u128 = match find_key(u, "FROM ") {
        Some(b) => b,
        None => {
            return Err(QueryError::MissingFrom);
        },
    };
    match cut(s, a + 7, b) {
        None => Err(QueryError::OutOfOrder),
        Some(f) => {
            let t: Vec<char> = trim(&f);
            let mut out: Vec<String> = Vec::new();
            if is_word(&t, "*") {
                out.push("*".to_owned());
                assert(text::views(out@) =~= seq!["*"@]);
                return Ok(out);
            }
            let items: Vec<Vec<char>> = split(&t, ',');
            let mut i: usize = 0;
            while i < items.len()
                invariant
                    i <= items.len(),
                    chars::char_views(items@) == chars::pieces(t@, ','),
                    out@.len() == i,
                    forall|j: int|
                        0 <= j < i ==> (#[trigger] out@[j])@ == chars::trimmed(
                            chars::pieces(t@, ',')[j],
                        ),
                decreases items.len() - i,
            {
                assert(chars::pieces(t@, ',')[i as int] == items@[i as int]@);
                out.push(from_chars(trim(&items[i]).as_slice()));
                i += 1;
            }
            assert(chars::pieces(t@, ',').len() == items@.len());
            assert(text::views(out@) =~= trimmed_pieces(t@));
            Ok(out)
        },
    }
}

/// The vector behind NEAREST TO, if the query has one.
pub open spec fn nearest_of(s: Seq<char>, u: Seq<char>, n: ReadingsView) -> Result<
    Option<Seq<u32>>,
    QueryErrorView,
> {
    match key_at(u, "NEAREST TO"@) {
        None => Ok(None),
        Some(i) => match rest_from(s, i + 10) {
            None => Err(QueryErrorView::OutOfOrder),
            Some(r) => match vector_of(chars::trimmed(r), n) {
                Ok(v) => Ok(Some(v)),
                Err(e) => Err(e),
            },
        },
    }
}

/// Where a WHERE clause ends: at the first of the keywords that the query has,
/// in this order, or at the end.
pub open spec fn where_end(s: Seq<char>, u: Seq<char>) -> nat {
    match key_at(u, " NEAREST TO"@) {
        Some(i) => i,
        None => match key_at(u, " LIMIT"@) {
            Some(i) => i,
            None => match key_at(u, " HAVING"@) {
                Some(i) => i,
                None => match key_at(u, " VERTICAL"@) {
                    Some(i) => i,
                    None => chars::bytes(s),
                },
            },
        },
    }
}

/// The filter of a query, if it has one.
pub open spec fn filter_of(s: Seq<char>, u: Seq<char>, n: ReadingsView) -> Result<
    Option<JsonView>,
    QueryErrorView,
> {
    match key_at(u, "WHERE "@) {
        None => Ok(None),
        Some(i) => match chars::slice(s, i + 6, where_end(s, u)) {
            None => Err(QueryErrorView::OutOfOrder),
            Some(r) => match where_of(chars::trimmed(r), n) {
                Ok(v) => Ok(Some(v)),
                Err(e) => Err(e),
            },
        },
    }
}

/// The limit of a query, if it has one that is a number.
pub open spec fn limit_of(s: Seq<char>, u: Seq<char>) -> Result<Option<nat>, QueryErrorView> {
    match key_at(u, "LIMIT "@) {
        None => Ok(None),
        Some(i) => {
            let end = match key_at(u, " VERTICAL"@) {
                Some(i) => i,
                None => match key_at(u, " HAVING"@) {
                    Some(i) => i,
                    None => chars::bytes(s),
                },
            };
            match chars::slice(s, i + 6, end) {
                None => Err(QueryErrorView::OutOfOrder),
                Some(r) => Ok(chars::natural(chars::trimmed(r), usize::MAX as nat)),
            }
        },
    }
}

fn extract_nearest(s: &Vec<char>, u: &Vec<char>, known: &Readings) -> (r: Result<
    Option<Embedding>,
    QueryError,
>)
    requires
        known.wf(),
    ensures
        match (r, nearest_of(s@, u@, known@)) {
            (Ok(v), Ok(w)) => vector_opt(v) == w,
            (Err(e), Err(w)) => e@ == w,
            _ => false,
        },
{
    match find_key(u, "NEAREST TO") {
        None => Ok(None),
        Some(i) => match cut(s, i + 10, byte_count(s)) {
            None => Err(QueryError::OutOfOrder),
            Some(r) => match parse_vector(&trim(&r), known) {
                Ok(v) => Ok(Some(v)),
                Err(e) => Err(e),
            },
        },
    }
}

fn extract_filter(s: &Vec<char>, u: &Vec<char>, known: &Readings) -> (r: Result<
    Option<Json>,
    QueryError,
>)
    requires
        known.wf(),
    ensures
        match (r, filter_of(s@, u@, known@)) {
            (Ok(v), Ok(w)) => json_opt(v) == w,
            (Err(e), Err(w)) => e@ == w,
            _ => false,
        },
{
    match find_key(u, "WHERE ") {
        None => Ok(None),
        Some(i) => {
            let end: u128 = match find_key(u, " NEAREST TO") {
                Some(e) => e,
                None => match find_key(u, " LIMIT") {
                    Some(e) => e,
                    None => match find_key(u, " HAVING") {
                        Some(e) => e,
                        None => match find_key(u, " VERTICAL") {
                            Some(e) => e,
                            None => byte_count(s),
                        },
                    },
                },
            };
            match cut(s, i + 6, end) {
                None => Err(QueryError::OutOfOrder),
                Some(r) => match parse_where(&trim(&r), known) {
                    Ok(v) => Ok(Some(v)),
                    Err(e) => Err(e),
                },
            }
        },
    }
}

fn extract_limit(s: &Vec<char>, u: &Vec<char>) -> (r: Result<Option<usize>, QueryError>)
    ensures
        match (r, limit_of(s@, u@)) {
            (Ok(v), Ok(w)) => number_opt(v) == w,
            (Err(e), Err(w)) => e@ == w,
            _ => false,
        },
{
    match find_key(u, "LIMIT ") {
        None => Ok(None),
        Some(i) => {
            let end: u128 = match find_key(u, " VERTICAL") {
                Some(e) => e,
                None => match find_key(u, " HAVING") {
                    Some(e) => e,
                    None => byte_count(s),
                },
            };
            match cut(s, i + 6, end) {
                None => Err(QueryError::OutOfOrder),
                Some(r) => match read_natural(&trim(&r), usize::MAX as u64) {
                    Some(n) => Ok(Some(n as usize)),
                    None => Ok(None),
                },
            }
        },
    }
}

/// The selection that a text stands for.
pub open spec fn select_of(s: Seq<char>, u: Seq<char>, n: ReadingsView) -> Result<
    QueryView,
    QueryErrorView,
> {
    match from_clause(s, u) {
        Err(e) => Err(e),
        Ok(collection) => match fields_of(s, u) {
            Err(e) => Err(e),
            Ok(fields) => match nearest_of(s, u, n) {
                Err(e) => Err(e),
                Ok(nearest_to) => match filter_of(s, u, n) {
                    Err(e) => Err(e),
                    Ok(where_filter) => match limit_of(s, u) {
                        Err(e) => Err(e),
                        Ok(limit) => Ok(
                            QueryView::Select {
                                collection,
                                fields,
                                nearest_to,
                                where_filter,
                                limit,
                                vertical: chars::found(u, "VERTICAL"@) is Some,
                            },
                        ),
                    },
                },
            },
        },
    }
}

fn parse_select(s: &Vec<char>, u: &Vec<char>, known: &Readings) -> (r: Result<
    ParsedQuery,
    QueryError,
>)
    requires
        known.wf(),
    ensures
        parsed_as(r, select_of(s@, u@, known@)),
{
    let collection: String = match extract_from_clause(s, u) {
        Ok(c) => c,
        Err(e) => {
            return Err(e);
        },
    };
    let fields: Vec<String> = match extract_fields(s, u) {
        Ok(f) => f,
        Err(e) => {
            return Err(e);
        },
    };
    let nearest_to: Option<Embedding> = match extract_nearest(s, u, known) {
        Ok(v) => v,
        Err(e) => {
            return Err(e);
        },
    };
    let where_filter: Option<Json> = match extract_filter(s, u, known) {
        Ok(v) => v,
        Err(e) => {
            return Err(e);
        },
    };
    let limit: Option<usize> = match extract_limit(s, u) {
        Ok(v) => v,
        Err(e) => {
            return Err(e);
        },
    };
    let vertical: bool = find(u, &to_chars("VERTICAL")).is_some();
    Ok(ParsedQuery::Select { collection, fields, nearest_to, where_filter, limit, vertical })
}

/// The query that a text stands for, given its upper-case form and how numbers
/// were read.
pub open spec fn query_of(s: Seq<char>, u: Seq<char>, n: ReadingsView) -> Result<
    QueryView,
    QueryErrorView,
> {
    if chars::begins(u, "CREATE COLLECTION "@) {
        match rest_from(s, 18) {
            None => Err(QueryErrorView::OutOfOrder),
            Some(r) => if chars::trimmed(r).len() == 0 {
                Err(QueryErrorView::MissingName)
            } else {
                Ok(QueryView::CreateCollection { name: chars::trimmed(r) })
            },
        }
    } else if chars::begins(u, "SELECT COUNT(*)"@) {
        match from_clause(s, u) {
            Ok(collection) => Ok(QueryView::Count { collection }),
            Err(e) => Err(e),
        }
    } else if chars::begins(u, "SELECT "@) {
        select_of(s, u, n)
    } else {
        Err(QueryErrorView::Unsupported(s))
    }
}

/// Whether a query was read as it should be.
pub open spec fn parsed_as(
    r: Result<ParsedQuery, QueryError>,
    want: Result<QueryView, QueryErrorView>,
) -> bool {
    match (r, want) {
        (Ok(q), Ok(v)) => q@ == v,
        (Err(e), Err(v)) => e@ == v,
        _ => false,
    }
}

/// Reads a query, given its upper-case form.
pub fn parse_uppercased(s: &Vec<char>, u: &Vec<char>, known: &Readings) -> (r: Result<
    ParsedQuery,
    QueryError,
>)
    requires
        known.wf(),
    ensures
        parsed_as(r, query_of(s@, u@, known@)),
{
    if starts_with(u, &to_chars("CREATE COLLECTION ")) {
        return match cut(s, 18, byte_count(s)) {
            None => Err(QueryError::OutOfOrder),
            Some(r) => {
                let name: Vec<char> = trim(&r);
                if name.len() == 0 {
                    Err(QueryError::MissingName)
                } else {
                    Ok(ParsedQuery::CreateCollection { name: from_chars(name.as_slice()) })
                }
            },
        };
    }
    if starts_with(u, &to_chars("SELECT COUNT(*)")) {
        return match extract_from_clause(s, u) {
            Ok(collection) => Ok(ParsedQuery::Count { collection }),
            Err(e) => Err(e),
        };
    }
    if starts_with(u, &to_chars("SELECT ")) {
        return parse_select(s, u, known);
    }
    Err(QueryError::Unsupported(from_chars(s.as_slice())))
}

/// A query without white space and semicolons around it.
pub open spec fn bare(input: Seq<char>) -> Seq<char> {
    chars::trimmed(chars::without_end(chars::trimmed(input), ';'))
}

/// Reads a query. Where the text of a number has not been read yet, the error
/// tells it; once its reading is known, the query is read again.
pub fn parse_query(input: &str, known: &Readings) -> (r: Result<ParsedQuery, QueryError>)
    requires
        known.wf(),
    ensures
        parsed_as(r, query_of(bare(input@), uppercase(bare(input@)), known@)),
{
    let s: Vec<char> = trim(&trim_end_char(&trim(&to_chars(input)), ';'));
    let u: Vec<char> = to_chars(to_upper(from_chars(s.as_slice()).as_str()).as_str());
    parse_uppercased(&s, &u, known)
}

// ---------------------------------------------------------------------------
// What is asked for
// ---------------------------------------------------------------------------

/// Whether an error asks for no number that was read already.
pub open spec fn asks_news(e: QueryErrorView, n: ReadingsView) -> bool {
    match e {
        QueryErrorView::NeedsSingle(t) => !n.singles.contains_key(t),
        QueryErrorView::NeedsDouble(t) => !n.doubles.contains_key(t),
        _ => true,
    }
}

proof fn lemma_components_ask(items: Seq<Seq<char>>, n: ReadingsView)
    ensures
        components(items, n) matches Err(e) ==> asks_news(e, n),
    decreases items.len(),
{
    if items.len() > 0 {
        lemma_components_ask(items.drop_last(), n);
    }
}

proof fn lemma_value_asks(input: Seq<char>, n: ReadingsView)
    ensures
        value_of(input, n) matches Err(e) ==> asks_news(e, n),
    decreases input.len(), 1int, 0nat,
{
    let t = chars::trimmed(input);
    if t.len() >= 2 {
        lemma_values_ask(chars::pieces(t.subrange(1, t.len() - 1), ','), input.len(), n);
    }
}

proof fn lemma_values_ask(items: Seq<Seq<char>>, whole: nat, n: ReadingsView)
    ensures
        values_of(items, whole, n) matches Err(e) ==> asks_news(e, n),
    decreases whole, 0int, items.len(),
{
    if items.len() > 0 {
        lemma_values_ask(items.drop_last(), whole, n);
        if items.last().len() < whole {
            lemma_value_asks(items.last(), n);
        }
    }
}

proof fn lemma_condition_asks(t: Seq<char>, k: int, n: ReadingsView)
    ensures
        condition_from(t, k, n) matches Err(e) ==> asks_news(e, n),
    decreases operators().len() - k,
{
    if 0 <= k < operators().len() {
        match chars::found(t, operators()[k].0) {
            Some(i) => {
                lemma_value_asks(chars::trimmed(t.skip((i + operators()[k].0.len()) as int)), n);
            },
            None => {
                lemma_condition_asks(t, k + 1, n);
            },
        }
    }
}

proof fn lemma_nearest_asks(s: Seq<char>, u: Seq<char>, n: ReadingsView)
    ensures
        nearest_of(s, u, n) matches Err(e) ==> asks_news(e, n),
{
    if let Some(i) = key_at(u, "NEAREST TO"@) {
        if let Some(r) = rest_from(s, i + 10) {
            let t = chars::trimmed(chars::trimmed(r));
            if let (Some(a), Some(b)) = (chars::found(t, "["@), chars::found(t, "]"@)) {
                lemma_components_ask(chars::pieces(t.subrange((a + 1) as int, b as int), ','), n);
            }
        }
    }
}

proof fn lemma_filter_asks(s: Seq<char>, u: Seq<char>, n: ReadingsView)
    ensures
        filter_of(s, u, n) matches Err(e) ==> asks_news(e, n),
{
    if let Some(i) = key_at(u, "WHERE "@) {
        if let Some(r) = chars::slice(s, i + 6, where_end(s, u)) {
            let t = chars::trimmed(chars::trimmed(r));
            lemma_condition_asks(t, 0, n);
            if let Ok(v) = json_text::json_reading(t) {
                json_text::lemma_asks_news(v, n);
            }
        }
    }
}

/// The other parts of a query ask for no number.
proof fn lemma_rest_asks(s: Seq<char>, u: Seq<char>, n: ReadingsView)
    ensures
        from_clause(s, u) matches Err(e) ==> asks_news(e, n),
        fields_of(s, u) matches Err(e) ==> asks_news(e, n),
        limit_of(s, u) matches Err(e) ==> asks_news(e, n),
{
}

/// No number is asked for twice: where reading a query asks for a number, its
/// text has not been read yet.
pub proof fn no_number_is_asked_for_twice(s: Seq<char>, u: Seq<char>, n: ReadingsView)
    ensures
        query_of(s, u, n) matches Err(e) ==> asks_news(e, n),
{
    lemma_nearest_asks(s, u, n);
    lemma_filter_asks(s, u, n);
    lemma_rest_asks(s, u, n);
}

// ---------------------------------------------------------------------------
// What conditions mean
// ---------------------------------------------------------------------------

/// Whether a text holds no sign of an operator.
pub open spec fn without_signs(s: Seq<char>) -> bool {
    forall|i: int|
        0 <= i < s.len() ==> #[trigger] s[i] != '=' && s[i] != '!' && s[i] != '<' && s[i] != '>'
}

/// How two integers compare under an operator of a condition.
pub open spec fn compares(sign: Seq<char>, a: int, b: int) -> bool {
    if sign == "<"@ {
        a < b
    } else if sign == ">"@ {
        a > b
    } else if sign == "<="@ {
        a <= b
    } else if sign == ">="@ {
        a >= b
    } else if sign == "!="@ {
        a != b
    } else {
        a == b
    }
}

/// Whether a text is the sign of an operator.
pub open spec fn is_sign(sign: Seq<char>) -> bool {
    sign == "<"@ || sign == ">"@ || sign == "<="@ || sign == ">="@ || sign == "!="@ || sign == "="@
        || sign == "=="@
}

proof fn lemma_signs()
    ensures
        "<"@ == seq!['<'],
        ">"@ == seq!['>'],
        "="@ == seq!['='],
        "<="@ == seq!['<', '='],
        ">="@ == seq!['>', '='],
        "!="@ == seq!['!', '='],
        "=="@ == seq!['=', '='],
        "<"@ != ">"@ && "<"@ != "="@ && ">"@ != "="@,
        "<="@ != ">="@ && "<="@ != "!="@ && "<="@ != "=="@,
        ">="@ != "!="@ && ">="@ != "=="@ && "!="@ != "=="@,
{
    reveal_strlit("<");
    reveal_strlit(">");
    reveal_strlit("=");
    reveal_strlit("<=");
    reveal_strlit(">=");
    reveal_strlit("!=");
    reveal_strlit("==");
    assert("<"@ =~= seq!['<']);
    assert(">"@ =~= seq!['>']);
    assert("="@ =~= seq!['=']);
    assert("<="@ =~= seq!['<', '=']);
    assert(">="@ =~= seq!['>', '=']);
    assert("!="@ =~= seq!['!', '=']);
    assert("=="@ =~= seq!['=', '=']);
    assert("<"@[0] == '<' && ">"@[0] == '>' && "="@[0] == '=');
    assert("<="@[0] == '<' && ">="@[0] == '>' && "!="@[0] == '!' && "=="@[0] == '=');
}

/// A sign is found where it stands alone.
proof fn lemma_sign_found(f: Seq<char>, sign: Seq<char>, d: Seq<char>, other: Seq<char>)
    requires
        without_signs(f),
        without_signs(d),
        is_sign(sign),
        is_sign(other),
    ensures
        other == sign ==> chars::found(f + sign + d, other) == Some(f.len()),
        other.len() > sign.len() ==> chars::found(f + sign + d, other) is None,
        other.len() == sign.len() && other != sign ==> chars::found(f + sign + d, other) is None,
{
    lemma_signs();
    let t = f + sign + d;
    let z = f.len() as int;
    chars::lemma_found(t, other, 0);
    match chars::found(t, other) {
        Some(n) => {
            let n = n as int;
            let last = other.len() - 1;
            let there = t.subrange(n, n + other.len());
            assert(there == other);
            assert(there[0] == t[n] && there[last] == t[n + last]);
            if n < z {
                assert(t[n] == f[n]);
            }
            if n + last >= z + sign.len() {
                assert(t[n + last] == d[n + last - z - sign.len()]);
            }
            assert(z <= n && n + last < z + sign.len());
            if other.len() == sign.len() {
                assert(n == z);
                assert(there =~= sign);
            }
        },
        None => {
            if other == sign {
                assert(t.subrange(z, z + sign.len()) =~= sign);
                assert(chars::stands_at(t, other, z));
            }
        },
    }
}

/// The place of a sign among the operators.
spec fn sign_place(sign: Seq<char>) -> int {
    if sign == "=="@ {
        0
    } else if sign == "!="@ {
        1
    } else if sign == "<="@ {
        2
    } else if sign == ">="@ {
        3
    } else if sign == "="@ {
        4
    } else if sign == ">"@ {
        5
    } else {
        6
    }
}

proof fn lemma_sign_cut(f: Seq<char>, sign: Seq<char>, d: Seq<char>, n: ReadingsView)
    requires
        without_signs(f),
        without_signs(d),
        is_sign(sign),
    ensures
        operators()[sign_place(sign)].0 == sign,
        condition_from(f + sign + d, 0, n) == condition_at(
            f + sign + d,
            operators()[sign_place(sign)],
            f.len(),
            n,
        ),
{
    lemma_signs();
    let t = f + sign + d;
    lemma_sign_found(f, sign, d, "=="@);
    lemma_sign_found(f, sign, d, "!="@);
    lemma_sign_found(f, sign, d, "<="@);
    lemma_sign_found(f, sign, d, ">="@);
    lemma_sign_found(f, sign, d, "="@);
    lemma_sign_found(f, sign, d, ">"@);
    lemma_sign_found(f, sign, d, "<"@);
    let k = sign_place(sign);
    let ops = operators();
    assert(ops.len() == 7);
    assert(ops[0].0 == "=="@ && ops[1].0 == "!="@ && ops[2].0 == "<="@ && ops[3].0 == ">="@);
    assert(ops[4].0 == "="@ && ops[5].0 == ">"@ && ops[6].0 == "<"@);
    assert(ops[k].0 == sign);
    assert forall|j: int| 0 <= j < k implies chars::found(t, (#[trigger] ops[j]).0) is None by {
        assert(ops[j].0.len() >= sign.len());
        assert(ops[j].0 != sign);
    }
    lemma_passed_over(t, 0, k, n);
}

/// Operators that a text does not hold are passed over.
proof fn lemma_passed_over(t: Seq<char>, a: int, k: int, n: ReadingsView)
    requires
        0 <= a <= k < operators().len(),
        forall|j: int| a <= j < k ==> chars::found(t, (#[trigger] operators()[j]).0) is None,
    ensures
        condition_from(t, a, n) == condition_from(t, k, n),
    decreases k - a,
{
    if a < k {
        assert(chars::found(t, operators()[a].0) is None);
        lemma_passed_over(t, a + 1, k, n);
    }
}

/// A condition with an integer is read as the filter that compares the number
/// under its field with that integer: `<` finds what is less, `>` what is
/// greater, `<=`, `>=`, `!=`, `=` and `==` what they say.
pub proof fn conditions_mean_their_signs(
    field: Seq<char>,
    sign: Seq<char>,
    operand: Seq<char>,
    r: ReadingsView,
    m: Map<Seq<char>, MetaView>,
    i: i64,
    n: i64,
)
    requires
        without_signs(field),
        without_signs(operand),
        is_sign(sign),
        filter::is_field(chars::trimmed(field)),
        chars::integer(chars::trimmed(operand)) == Some(n),
        m.contains_key(chars::trimmed(field)),
        m[chars::trimmed(field)] == MetaView::Int(i),
        -0x20_0000_0000_0000 <= i <= 0x20_0000_0000_0000,
        -0x20_0000_0000_0000 <= n <= 0x20_0000_0000_0000,
    ensures
        condition_from(field + sign + operand, 0, r) matches Ok(v) && filter::condition_of(v) matches Ok(c)
            && (filter::cond_matches(c, m) <==> compares(sign, i as int, n as int)),
{
    let t = field + sign + operand;
    lemma_sign_cut(field, sign, operand, r);
    let op = operators()[sign_place(sign)];
    assert(t.take(field.len() as int) =~= field);
    assert(t.skip((field.len() + sign.len()) as int) =~= operand);
    let d = chars::trimmed(operand);
    chars::trimmed_texts_stay(operand);
    chars::integers_are_digits(d);
    reveal_strlit("true");
    reveal_strlit("false");
    assert("true"@[0] == 't' && "false"@[0] == 'f');
    let v = JsonView::of_int(n);
    assert(value_of(d, r) == Result::<JsonView, QueryErrorView>::Ok(v));
    let key = chars::trimmed(field);
    let ops = seq![(op.1, v)];
    let members = seq![(key, JsonView::Object(ops))];
    assert(condition_at(t, op, field.len(), r) == Result::<JsonView, QueryErrorView>::Ok(
        JsonView::Object(members),
    ));
    lemma_signs();
    filter::operators_mean_their_names(key, m, i, n);
    filter::operators_of_a_field_all_apply(key, ops, m);
    assert(ops[0] == (op.1, v));
    let e = filter::op_of(op.1, v);
    assert(e is Ok);
    assert forall|j: int| 0 <= j < ops.len() implies filter::op_of((#[trigger] ops[j]).0, ops[j].1) is Ok by {}
    filter::lemma_lone_field(key, JsonView::Object(ops));
    filter::members_of_an_object_all_apply(members, m);
    let c = filter::condition_of(JsonView::Object(members))->Ok_0;
    assert(members[0] == (key, JsonView::Object(ops)));
    let hit = filter::operator_applies(key, ops[0], m);
    assert(hit <==> compares(sign, i as int, n as int));
}

/// What is no number matches no condition with `<`, `>`, `<=` or `>=`, and a
/// text is found by `=` alone where it is the same.
pub proof fn conditions_on_texts(
    field: Seq<char>,
    sign: Seq<char>,
    operand: Seq<char>,
    r: ReadingsView,
    m: Map<Seq<char>, MetaView>,
    s: Seq<char>,
)
    requires
        without_signs(field),
        without_signs(operand),
        is_sign(sign),
        filter::is_field(chars::trimmed(field)),
        chars::trimmed(operand).len() >= 2,
        quoted(chars::trimmed(operand), '"') || quoted(chars::trimmed(operand), '\''),
        m.contains_key(chars::trimmed(field)),
        m[chars::trimmed(field)] == MetaView::Str(s),
    ensures
        ({
            let t = chars::trimmed(operand);
            let inner = t.subrange(1, t.len() - 1);
            condition_from(field + sign + operand, 0, r) matches Ok(v) && match filter::condition_of(v) {
                Ok(c) => (sign == "="@ || sign == "=="@ || sign == "!="@) && (filter::cond_matches(c, m)
                    <==> (if sign == "!="@ {
                    s != inner
                } else {
                    s == inner
                })),
                Err(_) => sign != "="@ && sign != "=="@ && sign != "!="@,
            }
        }),
{
    let t = field + sign + operand;
    lemma_sign_cut(field, sign, operand, r);
    let op = operators()[sign_place(sign)];
    assert(t.take(field.len() as int) =~= field);
    assert(t.skip((field.len() + sign.len()) as int) =~= operand);
    let d = chars::trimmed(operand);
    chars::trimmed_texts_stay(operand);
    let inner = d.subrange(1, d.len() - 1);
    let v = JsonView::Text(inner);
    assert(value_of(d, r) == Result::<JsonView, QueryErrorView>::Ok(v));
    let key = chars::trimmed(field);
    let ops = seq![(op.1, v)];
    let members = seq![(key, JsonView::Object(ops))];
    assert(condition_at(t, op, field.len(), r) == Result::<JsonView, QueryErrorView>::Ok(
        JsonView::Object(members),
    ));
    lemma_signs();
    filter::operands_are_read_as_they_stand(key, m, MetaView::Str(inner));
    types::values_are_equal_by_kind(MetaView::Str(s), MetaView::Str(inner));
    filter::operators_of_a_field_all_apply(key, ops, m);
    assert(ops[0] == (op.1, v));
    filter::lemma_lone_field(key, JsonView::Object(ops));
    if filter::op_of(op.1, v) is Ok {
        assert forall|j: int| 0 <= j < ops.len() implies filter::op_of((#[trigger] ops[j]).0, ops[j].1) is Ok by {}
    }
    filter::members_of_an_object_all_apply(members, m);
    assert(members[0] == (key, JsonView::Object(ops)));
    let hit = filter::operator_applies(key, ops[0], m);
}

/// The text of a WHERE clause is read as a condition where it is no JSON, and
/// as JSON where it is.
pub proof fn clauses_are_conditions_or_json(input: Seq<char>, n: ReadingsView)
    requires
        chars::trimmed(input) == input,
    ensures
        json_text::read_with(input, n) matches Ok(v) ==> where_of(input, n) == Result::<
            JsonView,
            QueryErrorView,
        >::Ok(v),
        json_text::read_with(input, n) matches Err(ReadErrorView::Invalid(_)) ==> where_of(input, n)
            == condition_from(input, 0, n),
{
}

/// Whether all characters of a text are one byte long.
pub open spec fn is_plain(s: Seq<char>) -> bool {
    forall|k: int| 0 <= k < s.len() ==> (#[trigger] s[k] as int) < 0x80
}

/// Whether a word stands at a place of a text, and at no place before it.
pub open spec fn first_at(u: Seq<char>, word: Seq<char>, i: int) -> bool {
    chars::stands_at(u, word, i) && forall|j: int| 0 <= j < i ==> !#[trigger] chars::stands_at(u, word, j)
}

/// Whether a word stands nowhere in a text.
pub open spec fn nowhere(u: Seq<char>, word: Seq<char>) -> bool {
    forall|j: int| !#[trigger] chars::stands_at(u, word, j)
}

proof fn lemma_key_place(u: Seq<char>, word: Seq<char>, i: int)
    requires
        is_plain(u),
    ensures
        first_at(u, word, i) ==> key_at(u, word) == Some(i as nat),
        nowhere(u, word) ==> key_at(u, word) is None,
{
    if first_at(u, word, i) {
        chars::the_first_place_is_found(u, word, i);
        assert forall|k: int| 0 <= k < u.take(i).len() implies (#[trigger] u.take(i)[k] as int) < 0x80 by {
            assert(u.take(i)[k] == u[k]);
        }
        chars::plain_texts_are_cut_by_characters(u.take(i), 0, 0);
    }
    if nowhere(u, word) {
        chars::lemma_found(u, word, 0);
        if let Some(k) = chars::found(u, word) {
            assert(chars::stands_at(u, word, k as int));
        }
    }
}

proof fn lemma_rest(s: Seq<char>, from: int)
    requires
        is_plain(s),
        0 <= from <= s.len(),
    ensures
        rest_from(s, from as nat) == Some(s.skip(from)),
{
    chars::plain_texts_are_cut_by_characters(s, from, s.len() as int);
    assert(s.subrange(from, s.len() as int) =~= s.skip(from));
}

/// The collection of a query is the word behind its first `FROM`.
pub proof fn collections_stand_behind_from(s: Seq<char>, u: Seq<char>, i: int, name: Seq<char>, more: Seq<char>)
    requires
        is_plain(s),
        is_plain(u),
        s.len() == u.len(),
        first_at(u, "FROM "@, i),
        s.skip(i + 5) == name + more,
        name.len() > 0,
        forall|k: int| 0 <= k < name.len() ==> !chars::is_space(#[trigger] name[k]),
        more.len() > 0 ==> more[0] == ' ',
    ensures
        from_clause(s, u) == Result::<Seq<char>, QueryErrorView>::Ok(name),
{
    reveal_strlit("FROM ");
    lemma_key_place(u, "FROM "@, i);
    lemma_rest(s, i + 5);
    lemma_first_word(name, more);
    lemma_word_end(chars::trimmed(name + more), name);
    chars::trimmed_texts_stay(name);
}

proof fn lemma_first_word(name: Seq<char>, more: Seq<char>)
    requires
        name.len() > 0,
        forall|k: int| 0 <= k < name.len() ==> !chars::is_space(#[trigger] name[k]),
        more.len() > 0 ==> more[0] == ' ',
    ensures
        ({
            let a = chars::trimmed(name + more);
            &&& a.len() >= name.len()
            &&& a.take(name.len() as int) == name
            &&& a.len() > name.len() ==> a[name.len() as int] == ' '
        }),
{
    let r = name + more;
    let (x, y) = chars::trimming_takes_white_space(r);
    lemma_word_is_kept(name, more, x, y);
    let a = chars::trimmed(r);
    assert(a == r.subrange(0, y));
    lemma_word_in_front(name, more, y);
}

proof fn lemma_word_is_kept(name: Seq<char>, more: Seq<char>, x: int, y: int)
    requires
        name.len() > 0,
        !chars::is_space(name[0]),
        !chars::is_space(name[name.len() - 1]),
        0 <= x <= y <= name.len() + more.len(),
        chars::blank((name + more).take(x)),
        chars::blank((name + more).skip(y)),
    ensures
        x == 0,
        y >= name.len(),
{
    let r = name + more;
    if x > 0 {
        assert(r.take(x)[0] == name[0]);
    }
    if y < name.len() {
        assert(r.skip(y)[name.len() - 1 - y] == name[name.len() - 1]);
    }
}

proof fn lemma_word_in_front(name: Seq<char>, more: Seq<char>, y: int)
    requires
        name.len() <= y <= name.len() + more.len(),
        more.len() > 0 ==> more[0] == ' ',
    ensures
        (name + more).subrange(0, y).take(name.len() as int) == name,
        y > name.len() ==> (name + more).subrange(0, y)[name.len() as int] == ' ',
{
    assert((name + more).subrange(0, y).take(name.len() as int) =~= name);
}

proof fn lemma_word_end(a: Seq<char>, name: Seq<char>)
    requires
        forall|k: int| 0 <= k < name.len() ==> !chars::is_space(#[trigger] name[k]),
        a.len() >= name.len(),
        a.take(name.len() as int) == name,
        a.len() > name.len() ==> a[name.len() as int] == ' ',
    ensures
        a.len() > name.len() ==> chars::found(a, " "@) == Some(name.len()),
        a.len() == name.len() ==> a == name && chars::found(a, " "@) is None && chars::found(a, "\n"@) is None,
{
    reveal_strlit(" ");
    reveal_strlit("\n");
    chars::ordinary_white_space(' ');
    assert(" "@ =~= seq![' ']);
    assert("\n"@ =~= seq!['\n']);
    lemma_not_within(a, name, ' ');
    lemma_not_within(a, name, '\n');
    if a.len() > name.len() {
        let k = name.len() as int;
        assert(a.subrange(k, k + 1) =~= seq![' ']);
        chars::the_first_place_is_found(a, seq![' '], k);
    } else {
        assert(a =~= name);
        chars::lemma_found(a, seq![' '], 0);
        chars::lemma_found(a, seq!['\n'], 0);
        if let Some(k) = chars::found(a, seq![' ']) {
            assert(chars::stands_at(a, seq![' '], k as int));
        }
        if let Some(k) = chars::found(a, seq!['\n']) {
            assert(chars::stands_at(a, seq!['\n'], k as int));
        }
    }
}

proof fn lemma_not_within(a: Seq<char>, name: Seq<char>, c: char)
    requires
        forall|k: int| 0 <= k < name.len() ==> !chars::is_space(#[trigger] name[k]),
        a.len() >= name.len(),
        a.take(name.len() as int) == name,
        chars::is_space(c),
    ensures
        forall|k: int| 0 <= k < name.len() ==> !#[trigger] chars::stands_at(a, seq![c], k),
{
    assert forall|k: int| 0 <= k < name.len() implies !#[trigger] chars::stands_at(a, seq![c], k) by {
        if chars::stands_at(a, seq![c], k) {
            assert(a.take(name.len() as int)[k] == name[k]);
            assert(a.subrange(k, k + 1)[0] == a[k]);
            assert(seq![c][0] == c);
        }
    }
}

/// The fields of a query are what stands between its `SELECT` and its `FROM`,
/// parted by commas, each without white space around it.
pub proof fn fields_stand_before_from(s: Seq<char>, u: Seq<char>, a: int, b: int, k: int)
    requires
        is_plain(s),
        is_plain(u),
        s.len() == u.len(),
        first_at(u, "SELECT "@, a),
        first_at(u, "FROM "@, b),
        a + 7 <= b,
    ensures
        ({
            let t = chars::trimmed(s.subrange(a + 7, b));
            &&& t == "*"@ ==> fields_of(s, u) == Result::<Seq<Seq<char>>, QueryErrorView>::Ok(seq!["*"@])
            &&& t != "*"@ ==> (fields_of(s, u) matches Ok(f) && f.len() == chars::pieces(t, ',').len() && (0 <= k
                < f.len() ==> f[k] == chars::trimmed(chars::pieces(t, ',')[k])))
        }),
{
    lemma_key_place(u, "SELECT "@, a);
    lemma_key_place(u, "FROM "@, b);
    chars::plain_texts_are_cut_by_characters(s, a + 7, b);
}

/// The vector of a query is read from what stands behind its first `NEAREST TO`;
/// a query without it has none.
pub proof fn vectors_stand_behind_nearest(s: Seq<char>, u: Seq<char>, i: int, n: ReadingsView)
    requires
        is_plain(s),
        is_plain(u),
        s.len() == u.len(),
    ensures
        nowhere(u, "NEAREST TO"@) ==> nearest_of(s, u, n) == Result::<Option<Seq<u32>>, QueryErrorView>::Ok(None),
        first_at(u, "NEAREST TO"@, i) ==> match vector_of(s.skip(i + 10), n) {
            Ok(v) => nearest_of(s, u, n) == Result::<Option<Seq<u32>>, QueryErrorView>::Ok(Some(v)),
            Err(e) => nearest_of(s, u, n) == Result::<Option<Seq<u32>>, QueryErrorView>::Err(e),
        },
{
    reveal_strlit("NEAREST TO");
    lemma_key_place(u, "NEAREST TO"@, i);
    if first_at(u, "NEAREST TO"@, i) {
        lemma_rest(s, i + 10);
        chars::trimmed_texts_stay(s.skip(i + 10));
    }
}

/// A vector in brackets is read component by component, in their order; a
/// component that is not known yet is asked for.
pub proof fn vectors_are_read_in_order(inner: Seq<char>, n: ReadingsView, i: int)
    requires
        !inner.contains('['),
        !inner.contains(']'),
        0 <= i < chars::pieces(inner, ',').len(),
    ensures
        ({
            let parts = chars::pieces(inner, ',');
            let r = vector_of(seq!['['] + inner + seq![']'], n);
            &&& (forall|k: int|
                0 <= k < parts.len() ==> n.singles.contains_key(chars::trimmed(#[trigger] parts[k]))
                    && n.singles[chars::trimmed(parts[k])] is Ok) ==> (r matches Ok(v) && v.len() == parts.len()
                && v[i] == (n.singles[chars::trimmed(parts[i])]->Ok_0).bits)
            &&& !n.singles.contains_key(chars::trimmed(parts[i])) ==> r is Err
        }),
{
    reveal_strlit("[");
    reveal_strlit("]");
    let t = seq!['['] + inner + seq![']'];
    let parts = chars::pieces(inner, ',');
    chars::ordinary_white_space('[');
    chars::ordinary_white_space(']');
    chars::trimmed_texts_stay(t);
    assert("["@ =~= seq!['[']);
    assert("]"@ =~= seq![']']);
    assert(t.subrange(0, 1) =~= seq!['[']);
    chars::the_first_place_is_found(t, seq!['['], 0);
    let b: int = inner.len() as int + 1;
    assert(t.subrange(b, b + 1) =~= seq![']']);
    assert forall|j: int| 0 <= j < b implies !chars::stands_at(t, seq![']'], j) by {
        if chars::stands_at(t, seq![']'], j) {
            assert(t.subrange(j, j + 1)[0] == t[j]);
            assert(t[j] == ']');
            if j > 0 {
                assert(inner[j - 1] == ']');
            }
        }
    }
    chars::the_first_place_is_found(t, seq![']'], b);
    assert(t.subrange(1, b) =~= inner);
    lemma_components(parts, n, i);
}

proof fn lemma_components(parts: Seq<Seq<char>>, n: ReadingsView, i: int)
    requires
        0 <= i < parts.len(),
    ensures
        (forall|k: int|
            0 <= k < parts.len() ==> n.singles.contains_key(chars::trimmed(#[trigger] parts[k]))
                && n.singles[chars::trimmed(parts[k])] is Ok) ==> (components(parts, n) matches Ok(v) && v.len()
            == parts.len() && v[i] == (n.singles[chars::trimmed(parts[i])]->Ok_0).bits),
        !n.singles.contains_key(chars::trimmed(parts[i])) ==> components(parts, n) is Err,
    decreases parts.len(),
{
    let rest = parts.drop_last();
    assert(parts.last() == parts[parts.len() - 1]);
    assert forall|k: int| 0 <= k < rest.len() implies #[trigger] rest[k] == parts[k] by {}
    if rest.len() > 0 {
        lemma_components(rest, n, if i < rest.len() {
            i
        } else {
            0
        });
    }
}

/// Where the condition of a query ends: at its `NEAREST TO`, else at its
/// `LIMIT`, else at its `HAVING`, else at its `VERTICAL`, else with the query.
pub open spec fn condition_ends(u: Seq<char>, e: int) -> bool {
    ||| first_at(u, " NEAREST TO"@, e)
    ||| nowhere(u, " NEAREST TO"@) && first_at(u, " LIMIT"@, e)
    ||| nowhere(u, " NEAREST TO"@) && nowhere(u, " LIMIT"@) && first_at(u, " HAVING"@, e)
    ||| nowhere(u, " NEAREST TO"@) && nowhere(u, " LIMIT"@) && nowhere(u, " HAVING"@) && first_at(
        u,
        " VERTICAL"@,
        e,
    )
    ||| nowhere(u, " NEAREST TO"@) && nowhere(u, " LIMIT"@) && nowhere(u, " HAVING"@) && nowhere(
        u,
        " VERTICAL"@,
    ) && e == u.len()
}

/// The filter of a query is read from what stands behind its first `WHERE`, up
/// to the next part of the query; a query without it has none.
pub proof fn conditions_stand_behind_where(s: Seq<char>, u: Seq<char>, i: int, e: int, n: ReadingsView)
    requires
        is_plain(s),
        is_plain(u),
        s.len() == u.len(),
    ensures
        nowhere(u, "WHERE "@) ==> filter_of(s, u, n) == Result::<Option<JsonView>, QueryErrorView>::Ok(None),
        first_at(u, "WHERE "@, i) && condition_ends(u, e) && i + 6 <= e ==> match where_of(
            s.subrange(i + 6, e),
            n,
        ) {
            Ok(v) => filter_of(s, u, n) == Result::<Option<JsonView>, QueryErrorView>::Ok(Some(v)),
            Err(x) => filter_of(s, u, n) == Result::<Option<JsonView>, QueryErrorView>::Err(x),
        },
{
    lemma_key_place(u, "WHERE "@, i);
    lemma_key_place(u, " NEAREST TO"@, e);
    lemma_key_place(u, " LIMIT"@, e);
    lemma_key_place(u, " HAVING"@, e);
    lemma_key_place(u, " VERTICAL"@, e);
    if first_at(u, "WHERE "@, i) && condition_ends(u, e) && i + 6 <= e {
        chars::plain_texts_are_cut_by_characters(s, i + 6, e);
        chars::trimmed_texts_stay(s.subrange(i + 6, e));
    }
}

/// The limit of a query is the number behind its `LIMIT`, if it fits; a query
/// without it has none.
pub proof fn limits_stand_behind_limit(s: Seq<char>, u: Seq<char>, i: int, e: int, k: nat)
    requires
        is_plain(s),
        is_plain(u),
        s.len() == u.len(),
    ensures
        nowhere(u, "LIMIT "@) ==> limit_of(s, u) == Result::<Option<nat>, QueryErrorView>::Ok(None),
        first_at(u, "LIMIT "@, i) && (first_at(u, " VERTICAL"@, e) || (nowhere(u, " VERTICAL"@) && first_at(
            u,
            " HAVING"@,
            e,
        )) || (nowhere(u, " VERTICAL"@) && nowhere(u, " HAVING"@) && e == u.len())) && i + 6 <= e && chars::trimmed(
            s.subrange(i + 6, e),
        ) == text::decimal_text(k) ==> limit_of(s, u) == Result::<Option<nat>, QueryErrorView>::Ok(
            if k <= usize::MAX {
                Some(k)
            } else {
                None
            },
        ),
{
    lemma_key_place(u, "LIMIT "@, i);
    lemma_key_place(u, " HAVING"@, e);
    lemma_key_place(u, " VERTICAL"@, e);
    chars::decimals_are_read_back(k, usize::MAX as nat);
    if first_at(u, "LIMIT "@, i) && 0 <= i + 6 <= e <= s.len() {
        chars::plain_texts_are_cut_by_characters(s, i + 6, e);
    }
}

/// A query that begins with `SELECT`, and whose parts can all be read, asks for
/// just these parts. It fails where one of them cannot be read.
pub proof fn queries_ask_for_their_parts(s: Seq<char>, u: Seq<char>, n: ReadingsView)
    requires
        chars::begins(u, "SELECT "@),
        !chars::begins(u, "SELECT COUNT(*)"@),
    ensures
        query_of(s, u, n) is Ok <==> from_clause(s, u) is Ok && fields_of(s, u) is Ok && nearest_of(s, u, n) is Ok
            && filter_of(s, u, n) is Ok && limit_of(s, u) is Ok,
        query_of(s, u, n) matches Ok(q) ==> (q matches QueryView::Select {
            collection,
            fields,
            nearest_to,
            where_filter,
            limit,
            vertical,
        } && {
            &&& from_clause(s, u) == Result::<Seq<char>, QueryErrorView>::Ok(collection)
            &&& fields_of(s, u) == Result::<Seq<Seq<char>>, QueryErrorView>::Ok(fields)
            &&& nearest_of(s, u, n) == Result::<Option<Seq<u32>>, QueryErrorView>::Ok(nearest_to)
            &&& filter_of(s, u, n) == Result::<Option<JsonView>, QueryErrorView>::Ok(where_filter)
            &&& limit_of(s, u) == Result::<Option<nat>, QueryErrorView>::Ok(limit)
            &&& vertical <==> exists|i: int| chars::stands_at(u, "VERTICAL"@, i)
        }),
{
    reveal_strlit("CREATE COLLECTION ");
    reveal_strlit("SELECT ");
    assert(u.take(7)[0] == 'S');
    if chars::begins(u, "CREATE COLLECTION "@) {
        assert(u.take(18)[0] == 'C');
        assert(u[0] == 'C');
    }
    chars::lemma_found(u, "VERTICAL"@, 0);
    if let Some(k) = chars::found(u, "VERTICAL"@) {
        assert(chars::stands_at(u, "VERTICAL"@, k as int));
    }
}

/// Other queries make a collection or count one; anything else is refused.
pub proof fn other_statements_are_told_apart(s: Seq<char>, u: Seq<char>, name: Seq<char>, n: ReadingsView)
    requires
        is_plain(s),
    ensures
        chars::begins(u, "CREATE COLLECTION "@) && s.len() >= 18 && chars::trimmed(s.skip(18)) == name && name.len()
            > 0 ==> query_of(s, u, n) == Result::<QueryView, QueryErrorView>::Ok(
            QueryView::CreateCollection { name },
        ),
        chars::begins(u, "SELECT COUNT(*)"@) && from_clause(s, u) == Result::<Seq<char>, QueryErrorView>::Ok(name)
            ==> query_of(s, u, n) == Result::<QueryView, QueryErrorView>::Ok(QueryView::Count { collection: name }),
        !chars::begins(u, "CREATE COLLECTION "@) && !chars::begins(u, "SELECT "@) ==> query_of(s, u, n) == Result::<
            QueryView,
            QueryErrorView,
        >::Err(QueryErrorView::Unsupported(s)),
{
    reveal_strlit("CREATE COLLECTION ");
    reveal_strlit("SELECT ");
    reveal_strlit("SELECT COUNT(*)");
    if s.len() >= 18 {
        lemma_rest(s, 18);
    }
    if chars::begins(u, "SELECT COUNT(*)"@) {
        assert(u.take(15)[0] == 'S');
        assert(u[0] == 'S');
        if chars::begins(u, "CREATE COLLECTION "@) {
            assert(u.take(18)[0] == 'C');
        }
        assert(u.take(7) =~= u.take(15).take(7));
        assert("SELECT COUNT(*)"@.take(7) =~= "SELECT "@);
    }
}

/// White space and semicolons around a query are no part of it.
pub proof fn endings_do_not_count(q: Seq<char>, space: char)
    requires
        q.len() > 0,
        !chars::is_space(q[0]),
        !chars::is_space(q.last()),
        q.last() != ';',
        chars::is_space(space),
    ensures
        bare(q) == q,
        bare(q.push(';')) == q,
        bare(q.push(space)) == q,
        bare(seq![space] + q) == q,
{
    chars::ordinary_white_space(';');
    chars::trimmed_texts_stay(q);
    chars::trimmed_texts_stay(q.push(';'));
    let d = chars::ends_are_taken_away(q, ';');
    if d < q.len() {
        assert(q[q.len() - 1] == ';');
    }
    assert(q.take(d) =~= q);
    let with = q.push(';');
    let d = chars::ends_are_taken_away(with, ';');
    if d < q.len() {
        assert(with[q.len() - 1] == ';');
    }
    assert(with.take(d) =~= q);
    let a = q.push(space);
    let (x, y) = chars::trimming_takes_white_space(a);
    if x > 0 {
        assert(a.take(x)[0] == q[0]);
    }
    if y < q.len() {
        assert(a.skip(y)[q.len() - 1 - y] == q[q.len() - 1]);
    }
    if y == a.len() {
        assert(chars::trimmed(a).last() == space);
    }
    assert(chars::trimmed(a) =~= q);
    let b = seq![space] + q;
    let (x, y) = chars::trimming_takes_white_space(b);
    if x > 1 {
        assert(b.take(x)[1] == q[0]);
    }
    if y < b.len() {
        assert(b.skip(y)[b.len() - 1 - y] == q[q.len() - 1]);
    }
    if x == 0 {
        assert(chars::trimmed(b)[0] == space);
    }
    assert(chars::trimmed(b) =~= q);
}

/// A value is read by its kind: a truth value or an integer as such, a number
/// that is known as a real, what stands in quotation marks as a text, and what
/// is none of these and no list as the text that it is.
pub proof fn values_are_read_by_kind(input: Seq<char>, n: ReadingsView, k: i64)
    ensures
        chars::trimmed(input) == "true"@ ==> value_of(input, n) == Result::<JsonView, QueryErrorView>::Ok(
            JsonView::Bool(true),
        ),
        chars::trimmed(input) == "false"@ ==> value_of(input, n) == Result::<JsonView, QueryErrorView>::Ok(
            JsonView::Bool(false),
        ),
        value_of(input, n) matches Ok(JsonView::Bool(b)) ==> chars::trimmed(input) == (if b {
            "true"@
        } else {
            "false"@
        }),
        value_of(input, n) matches Ok(JsonView::Text(s)) ==> s == chars::trimmed(input) || (chars::trimmed(input).len()
            == s.len() + 2 && chars::trimmed(input).subrange(1, s.len() as int + 1) == s),
        value_of(input, n) matches Ok(JsonView::Array(items)) ==> items.len() == chars::pieces(
            chars::trimmed(input).subrange(1, chars::trimmed(input).len() - 1),
            ',',
        ).len(),
{
    reveal_strlit("true");
    reveal_strlit("false");
    let t = chars::trimmed(input);
    if t == "true"@ || t == "false"@ {
        assert(t[0] == 't' || t[0] == 'f');
        if t == "true"@ && "true"@ == "false"@ {
            assert("true"@.len() == "false"@.len());
        }
        assert("true"@.len() == 4 && "false"@.len() == 5);
    }
    if t.len() >= 2 {
        lemma_as_many_values(chars::pieces(t.subrange(1, t.len() - 1), ','), input.len(), n, 0);
    }
}

/// A list is read value by value, each in its place.
pub proof fn lists_are_read_value_by_value(items: Seq<Seq<char>>, whole: nat, n: ReadingsView, i: int)
    requires
        0 <= i < items.len(),
        values_of(items, whole, n) is Ok,
    ensures
        values_of(items, whole, n)->Ok_0.len() == items.len(),
        value_of(items[i], n) == Result::<JsonView, QueryErrorView>::Ok(values_of(items, whole, n)->Ok_0[i]),
{
    lemma_as_many_values(items, whole, n, i);
}

proof fn lemma_as_many_values(items: Seq<Seq<char>>, whole: nat, n: ReadingsView, i: int)
    ensures
        values_of(items, whole, n) matches Ok(vs) ==> vs.len() == items.len() && (0 <= i < items.len() ==> value_of(
            items[i],
            n,
        ) == Result::<JsonView, QueryErrorView>::Ok(vs[i])),
    decreases items.len(),
{
    if items.len() > 0 {
        lemma_as_many_values(items.drop_last(), whole, n, i);
        assert(items.last() == items[items.len() - 1]);
    }
}

} // verus!
